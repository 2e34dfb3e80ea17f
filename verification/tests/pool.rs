use audio_graph::pool::ResourceStack;

#[test]
fn sanity_check() {
    let mut counter = (0..).into_iter();
    let mut stack = ResourceStack::new(move || counter.next().unwrap());
    let a = stack.acquire();
    let b = stack.acquire();
    stack.release(a);
    assert_eq!(a, stack.acquire());
    stack.release(b);
    assert_eq!(b, stack.acquire());
}

#[test]
fn acquiring_from_an_empty_stack_allocates() {
    let mut counter = (0..).into_iter();
    let mut stack = ResourceStack::new(move || counter.next().unwrap());
    assert_eq!(stack.acquire(), 0);
    assert_eq!(stack.acquire(), 1);
    assert_eq!(stack.acquire(), 2);
}

#[test]
fn releases_are_reused_most_recent_first() {
    let mut counter = (0..).into_iter();
    let mut stack = ResourceStack::new(move || counter.next().unwrap());
    let a = stack.acquire();
    let b = stack.acquire();
    stack.release(a);
    stack.release(b);
    assert_eq!(stack.acquire(), b);
    assert_eq!(stack.acquire(), a);
}

#[test]
fn clearing_drops_held_resources() {
    let mut counter = (0..).into_iter();
    let mut stack = ResourceStack::new(move || counter.next().unwrap());
    let a = stack.acquire();
    let b = stack.acquire();
    stack.release(a);
    stack.release(b);
    stack.clear();
    assert_eq!(stack.acquire(), 2);
}

#[test]
fn capacity_does_not_change_behaviour() {
    let mut counter = (10..).into_iter();
    let mut stack = ResourceStack::with_capacity(move || counter.next().unwrap(), 8);
    assert_eq!(stack.acquire(), 10);
    stack.release(10);
    assert_eq!(stack.acquire(), 10);
    assert_eq!(stack.acquire(), 11);
}
