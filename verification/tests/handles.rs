//! Strong and weak handle identity, casting and upgrade semantics.

use gc_core::context::{State, Visitor};
use gc_core::gc::Gc;
use gc_core::gc_weak::GcWeak;
use gc_core::managed::Managed;

struct Node {
    name: u32,
    kids: Vec<Gc<Node>>,
}

impl Managed for Node {
    fn needs_trace() -> bool {
        true
    }

    fn trace(&self, visitor: &mut Visitor) {
        for k in &self.kids {
            visitor.trace(*k);
        }
    }
}

fn leaf(name: u32) -> Node {
    Node { name, kids: Vec::new() }
}

#[test]
fn ptr_eq_is_payload_address_equality() {
    let h1: Gc<Node> = Gc::from_ptr(5);
    let h2: Gc<Node> = Gc::from_ptr(5);
    let h3: Gc<Node> = Gc::from_ptr(6);
    assert!(Gc::ptr_eq(h1, h2));
    assert!(!Gc::ptr_eq(h1, h3));
    assert_eq!(Gc::as_ptr(h1), Gc::as_ptr(h2));
    assert_ne!(Gc::as_ptr(h1), Gc::as_ptr(h3));
    let w1 = h1.downgrade();
    let w2 = h2.downgrade();
    let w3 = h3.downgrade();
    assert!(GcWeak::ptr_eq(w1, w2));
    assert!(!GcWeak::ptr_eq(w1, w3));
}

#[test]
fn cast_keeps_the_payload_address() {
    let h: Gc<Node> = Gc::from_ptr(11);
    let c: Gc<u64> = Gc::cast(h);
    assert_eq!(Gc::as_ptr(c), Gc::as_ptr(h));
    let wc: GcWeak<u64> = GcWeak::cast(h);
    assert_eq!(GcWeak::as_ptr(wc), Gc::as_ptr(h));
}

#[test]
fn from_ptr_round_trips_a_live_handle() {
    let mut st: State<Node> = State::new();
    let x = st.allocate(leaf(3));
    let back: Gc<Node> = Gc::from_ptr(Gc::as_ptr(x));
    assert!(Gc::ptr_eq(back, x));
    assert_eq!(back.as_ref(&st).name, 3);
    let w = x.downgrade();
    let wback: GcWeak<Node> = GcWeak::from_ptr(GcWeak::as_ptr(w));
    assert!(GcWeak::ptr_eq(wback, w));
}

#[test]
fn as_ref_reads_the_payload() {
    let mut st: State<Node> = State::new();
    let x = st.allocate(leaf(41));
    let y = st.allocate(Node { name: 42, kids: vec![x] });
    assert_eq!(x.as_ref(&st).name, 41);
    assert_eq!(y.as_ref(&st).name, 42);
    assert!(Gc::ptr_eq(y.as_ref(&st).kids[0], x));
}

#[test]
fn downgrade_then_upgrade_returns_the_handle() {
    let mut st: State<Node> = State::new();
    let x = st.allocate(leaf(1));
    let mutation = st.mutation_context();
    let w = x.downgrade();
    match w.upgrade(&mutation, &st) {
        Some(back) => assert!(Gc::ptr_eq(back, x)),
        None => panic!("upgrade of a live target must succeed"),
    }
    assert!(!w.is_dropped(&st));
}

#[test]
fn upgrade_fails_once_the_payload_is_dropped() {
    let mut st: State<Node> = State::new();
    let x = st.allocate(leaf(9));
    let w = x.downgrade();
    // Nothing reaches the allocation strongly, but the weak observation
    // keeps its header: after one cycle the payload is gone.
    st.trace_weak(Gc::as_ptr(x));
    st.do_sweep();
    let mutation = st.mutation_context();
    assert!(w.is_dropped(&st));
    assert!(w.upgrade(&mutation, &st).is_none());
    assert!(!st.can_upgrade(Gc::as_ptr(x)));
}

#[test]
fn can_upgrade_mirrors_the_live_flag() {
    let mut st: State<Node> = State::new();
    let x = st.allocate(leaf(0));
    let a = Gc::as_ptr(x);
    assert!(st.can_upgrade(a));
    assert!(st.header(a).is_live());
}
