//! End-to-end collection cycles: marking, sweeping, weak retention,
//! resurrection and trace aborts.

use std::cell::Cell;
use std::rc::Rc;

use gc_core::context::{State, Visitor};
use gc_core::gc::Gc;
use gc_core::gc_weak::GcWeak;
use gc_core::managed::Managed;
use gc_core::ptr::GcColor;

struct Obj {
    kids: Vec<Gc<Obj>>,
    weaks: Vec<GcWeak<Obj>>,
    trace_weaks: Option<Rc<Cell<bool>>>,
    abort: Option<Rc<Cell<bool>>>,
}

impl Obj {
    fn leaf() -> Obj {
        Obj { kids: Vec::new(), weaks: Vec::new(), trace_weaks: None, abort: None }
    }

    fn with_kids(kids: Vec<Gc<Obj>>) -> Obj {
        Obj { kids, weaks: Vec::new(), trace_weaks: None, abort: None }
    }
}

impl Managed for Obj {
    fn needs_trace() -> bool {
        true
    }

    fn trace(&self, visitor: &mut Visitor) {
        if let Some(flag) = &self.abort {
            if flag.get() {
                visitor.abort();
                return;
            }
        }
        for k in &self.kids {
            visitor.trace(*k);
        }
        let weaks_on = match &self.trace_weaks {
            Some(flag) => flag.get(),
            None => true,
        };
        if weaks_on {
            for w in &self.weaks {
                visitor.trace_weak(*w);
            }
        }
    }
}

struct Root {
    kids: Vec<Gc<Obj>>,
}

impl Managed for Root {
    fn needs_trace() -> bool {
        true
    }

    fn trace(&self, visitor: &mut Visitor) {
        for k in &self.kids {
            visitor.trace(*k);
        }
    }
}

fn color_of(st: &State<Obj>, h: Gc<Obj>) -> GcColor {
    st.header(Gc::as_ptr(h)).color()
}

#[test]
fn allocate_prepends_to_the_list() {
    let mut st: State<Obj> = State::new();
    assert!(st.head.is_none());
    let x = st.allocate(Obj::leaf());
    let y = st.allocate(Obj::leaf());
    assert_eq!(Gc::as_ptr(x), 0);
    assert_eq!(Gc::as_ptr(y), 1);
    assert_eq!(st.head, Some(1));
    assert_eq!(st.header(1).next(), Some(0));
    assert_eq!(st.header(0).next(), None);
    assert_eq!(color_of(&st, x), GcColor::White);
    assert!(st.header(0).is_live());
    assert!(st.header(0).needs_trace());
}

#[test]
fn collects_everything_unreachable() {
    let mut st: State<Obj> = State::new();
    let _x = st.allocate(Obj::leaf());
    let _y = st.allocate(Obj::leaf());
    let _z = st.allocate(Obj::leaf());
    let complete = st.do_mark(&Root { kids: Vec::new() });
    assert!(complete);
    st.do_sweep();
    assert!(st.head.is_none());
    for slot in &st.slots {
        assert!(slot.freed);
        assert!(!slot.header.is_live());
        assert!(slot.value.is_none());
    }
}

#[test]
fn keeps_what_the_root_reaches() {
    let mut st: State<Obj> = State::new();
    let y = st.allocate(Obj::leaf());
    let x = st.allocate(Obj::with_kids(vec![y]));
    let z = st.allocate(Obj::leaf());
    let complete = st.do_mark(&Root { kids: vec![x] });
    assert!(complete);
    assert_eq!(color_of(&st, x), GcColor::Black);
    assert_eq!(color_of(&st, y), GcColor::Black);
    assert_eq!(color_of(&st, z), GcColor::White);
    st.do_sweep();
    assert_eq!(color_of(&st, x), GcColor::White);
    assert_eq!(color_of(&st, y), GcColor::White);
    assert!(st.header(Gc::as_ptr(x)).is_live());
    assert!(st.header(Gc::as_ptr(y)).is_live());
    assert!(st.slots[Gc::as_ptr(z)].freed);
    assert_eq!(st.head, Some(Gc::as_ptr(x)));
    assert_eq!(st.header(Gc::as_ptr(x)).next(), Some(Gc::as_ptr(y)));
}

#[test]
fn weak_retention_lasts_exactly_one_extra_cycle() {
    let mut st: State<Obj> = State::new();
    let trace_weaks = Rc::new(Cell::new(true));
    let y = st.allocate(Obj::leaf());
    let x = st.allocate(Obj {
        kids: Vec::new(),
        weaks: vec![y.downgrade()],
        trace_weaks: Some(trace_weaks.clone()),
        abort: None,
    });
    let w = y.downgrade();

    // First cycle: the weak observation turns the target white-weak; the
    // sweep drops its payload but keeps the record on the list.
    let complete = st.do_mark(&Root { kids: vec![x] });
    assert!(complete);
    assert_eq!(color_of(&st, y), GcColor::WhiteWeak);
    st.do_sweep();
    let ya = Gc::as_ptr(y);
    assert!(!st.slots[ya].freed);
    assert!(!st.header(ya).is_live());
    assert!(st.slots[ya].value.is_none());
    assert_eq!(st.header(ya).color(), GcColor::White);
    let mutation = st.mutation_context();
    assert!(w.is_dropped(&st));
    assert!(w.upgrade(&mutation, &st).is_none());

    // Second cycle without the weak trace: the record is found plain
    // white and its memory is released.
    trace_weaks.set(false);
    let complete = st.do_mark(&Root { kids: vec![x] });
    assert!(complete);
    st.do_sweep();
    assert!(st.slots[ya].freed);
    assert!(!st.slots[Gc::as_ptr(x)].freed);
}

#[test]
fn resurrection_revokes_the_pending_collection() {
    let mut st: State<Obj> = State::new();
    let x = st.allocate(Obj::leaf());
    let complete = st.do_mark(&Root { kids: Vec::new() });
    assert!(complete);
    assert_eq!(color_of(&st, x), GcColor::White);

    // In the finalization window the object is repainted grey and queued.
    let finalization = st.finalization_context();
    let w = x.downgrade();
    w.rescurrect(&finalization, &mut st);
    assert_eq!(color_of(&st, x), GcColor::Grey);
    assert_eq!(st.grey.len(), 1);

    // Draining the worklist marks it black; the sweep then retains it.
    let complete = st.do_mark(&Root { kids: Vec::new() });
    assert!(complete);
    assert_eq!(color_of(&st, x), GcColor::Black);
    st.do_sweep();
    assert_eq!(color_of(&st, x), GcColor::White);
    assert!(st.header(Gc::as_ptr(x)).is_live());
    assert!(!st.slots[Gc::as_ptr(x)].freed);
}

#[test]
fn aborted_trace_keeps_the_allocation_queued() {
    let mut st: State<Obj> = State::new();
    let abort = Rc::new(Cell::new(true));
    let x = st.allocate(Obj {
        kids: Vec::new(),
        weaks: Vec::new(),
        trace_weaks: None,
        abort: Some(abort.clone()),
    });
    let root = Root { kids: vec![x] };

    // The trace of the payload gives up: marking reports failure and the
    // allocation stays grey on the worklist.
    let complete = st.do_mark(&root);
    assert!(!complete);
    assert_eq!(color_of(&st, x), GcColor::Grey);
    assert_eq!(st.grey.len(), 1);
    assert_eq!(st.grey[0], Gc::as_ptr(x));
    assert!(st.header(Gc::as_ptr(x)).is_live());

    // The next cycle completes and nothing was lost.
    abort.set(false);
    let complete = st.do_mark(&root);
    assert!(complete);
    assert_eq!(color_of(&st, x), GcColor::Black);
    assert_eq!(st.grey.len(), 0);
    st.do_sweep();
    assert_eq!(color_of(&st, x), GcColor::White);
    assert!(st.header(Gc::as_ptr(x)).is_live());
}

struct Scalar(u32);

impl Managed for Scalar {
    fn needs_trace() -> bool {
        false
    }
    // The default `trace` reports nothing, as fits a handle-free payload.
}

struct ScalarRoot {
    kids: Vec<Gc<Scalar>>,
}

impl Managed for ScalarRoot {
    fn needs_trace() -> bool {
        true
    }

    fn trace(&self, visitor: &mut Visitor) {
        for k in &self.kids {
            visitor.trace(*k);
        }
    }
}

#[test]
fn untraceable_payloads_skip_the_worklist() {
    let mut st: State<Scalar> = State::new();
    let t = st.allocate(Scalar(17));
    let a = Gc::as_ptr(t);
    assert!(!st.header(a).needs_trace());

    // A direct strong trace goes white to black without queueing.
    st.trace(a);
    assert_eq!(st.header(a).color(), GcColor::Black);
    assert_eq!(st.grey.len(), 0);
    st.do_sweep();
    assert_eq!(st.header(a).color(), GcColor::White);

    // The same through a full cycle from a root.
    let complete = st.do_mark(&ScalarRoot { kids: vec![t] });
    assert!(complete);
    assert_eq!(st.header(a).color(), GcColor::Black);
    st.do_sweep();
    assert!(st.header(a).is_live());
    assert_eq!(t.as_ref(&st).0, 17);
}

#[test]
fn engine_trace_transitions() {
    let mut st: State<Obj> = State::new();
    let x = st.allocate(Obj::leaf());
    let a = Gc::as_ptr(x);

    // A weak note on a white allocation makes it white-weak; a second one
    // changes nothing.
    st.trace_weak(a);
    assert_eq!(st.header(a).color(), GcColor::WhiteWeak);
    st.trace_weak(a);
    assert_eq!(st.header(a).color(), GcColor::WhiteWeak);

    // A strong trace of a traceable allocation queues it grey.
    st.trace(a);
    assert_eq!(st.header(a).color(), GcColor::Grey);
    assert_eq!(st.grey.len(), 1);

    // Tracing it again while grey is a no-op.
    st.trace(a);
    assert_eq!(st.grey.len(), 1);
}

#[test]
fn teardown_releases_everything() {
    let mut st: State<Obj> = State::new();
    let y = st.allocate(Obj::leaf());
    let _x = st.allocate(Obj::with_kids(vec![y]));
    let _z = st.allocate(Obj::leaf());
    st.teardown();
    assert!(st.head.is_none());
    assert_eq!(st.grey.len(), 0);
    for slot in &st.slots {
        assert!(slot.freed);
        assert!(!slot.header.is_live());
        assert!(slot.value.is_none());
    }
}

#[test]
fn collects_unreachable_reference_cycles() {
    let mut st: State<Obj> = State::new();
    let x = st.allocate(Obj::leaf());
    let y = st.allocate(Obj::with_kids(vec![x]));
    let mutation = st.mutation_context();
    // Close the cycle: x now points back at y.
    x.write(&mutation, &mut st, Obj::with_kids(vec![y]));

    // Reachable through the root, the whole cycle survives.
    let complete = st.do_mark(&Root { kids: vec![x] });
    assert!(complete);
    st.do_sweep();
    assert!(st.header(Gc::as_ptr(x)).is_live());
    assert!(st.header(Gc::as_ptr(y)).is_live());

    // Unreachable, the cycle is collected whole.
    let complete = st.do_mark(&Root { kids: Vec::new() });
    assert!(complete);
    st.do_sweep();
    assert!(st.slots[Gc::as_ptr(x)].freed);
    assert!(st.slots[Gc::as_ptr(y)].freed);
    assert!(st.head.is_none());
}

#[test]
fn write_replaces_the_payload() {
    let mut st: State<Obj> = State::new();
    let y = st.allocate(Obj::leaf());
    let x = st.allocate(Obj::leaf());
    let mutation = st.mutation_context();
    x.write(&mutation, &mut st, Obj::with_kids(vec![y]));
    assert_eq!(x.as_ref(&st).kids.len(), 1);
    assert!(Gc::ptr_eq(x.as_ref(&st).kids[0], y));

    // The new edge is what the next cycle traces: y survives through x.
    let complete = st.do_mark(&Root { kids: vec![x] });
    assert!(complete);
    st.do_sweep();
    assert!(st.header(Gc::as_ptr(y)).is_live());
}

#[test]
fn reports_that_name_nothing_are_ignored() {
    let mut st: State<Obj> = State::new();
    let x = st.allocate(Obj::leaf());
    // A report naming an address outside the arena cannot come from a
    // conforming host; the engine leaves it without effect.
    let forged: Gc<Obj> = Gc::from_ptr(999);
    let complete = st.do_mark(&Root { kids: vec![forged, x] });
    assert!(complete);
    assert_eq!(color_of(&st, x), GcColor::Black);
    st.do_sweep();
    assert!(st.header(Gc::as_ptr(x)).is_live());
    assert_eq!(st.head, Some(Gc::as_ptr(x)));
}

#[test]
fn weak_retention_continues_while_traced() {
    let mut st: State<Obj> = State::new();
    let y = st.allocate(Obj::leaf());
    let x = st.allocate(Obj {
        kids: Vec::new(),
        weaks: vec![y.downgrade()],
        trace_weaks: None,
        abort: None,
    });
    let ya = Gc::as_ptr(y);
    let root = Root { kids: vec![x] };

    // As long as some trace keeps observing the dead target weakly, its
    // record stays on the list, cycle after cycle.
    assert!(st.do_mark(&root));
    st.do_sweep();
    assert!(!st.slots[ya].freed);
    assert!(!st.header(ya).is_live());
    assert!(st.do_mark(&root));
    assert_eq!(st.header(ya).color(), GcColor::WhiteWeak);
    st.do_sweep();
    assert!(!st.slots[ya].freed);
    assert!(!st.header(ya).is_live());
}

#[test]
fn visitor_reports_drive_the_marking() {
    let mut st: State<Obj> = State::new();
    let x = st.allocate(Obj::leaf());
    let y = st.allocate(Obj::leaf());
    let z = st.allocate(Obj::leaf());

    // A report is applied edge by edge: the strong target of a traceable
    // type is queued grey, the weak target is noted, the unreported
    // allocation keeps its color.
    let mut vis = st.visitor_context();
    vis.trace(x);
    vis.trace_weak(y.downgrade());
    st.apply_visitor(&vis);
    assert_eq!(color_of(&st, x), GcColor::Grey);
    assert_eq!(st.grey.len(), 1);
    assert_eq!(st.grey[0], Gc::as_ptr(x));
    assert_eq!(color_of(&st, y), GcColor::WhiteWeak);
    assert_eq!(color_of(&st, z), GcColor::White);

    // An empty report changes nothing.
    let empty = st.visitor_context();
    st.apply_visitor(&empty);
    assert_eq!(color_of(&st, x), GcColor::Grey);
    assert_eq!(color_of(&st, y), GcColor::WhiteWeak);
    assert_eq!(color_of(&st, z), GcColor::White);
    assert_eq!(st.grey.len(), 1);
}

#[test]
fn empty_heap_cycle_is_a_no_op() {
    let mut st: State<Obj> = State::new();
    let complete = st.do_mark(&Root { kids: Vec::new() });
    assert!(complete);
    st.do_sweep();
    assert!(st.head.is_none());
    assert_eq!(st.slots.len(), 0);
}
