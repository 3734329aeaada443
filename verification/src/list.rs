//! The mathematical model of the global allocation list.
//!
//! The list is intrusive and singly linked: each allocation's header names
//! the next allocation by address, and the engine holds the head. Because
//! every allocation is prepended at the head and addresses grow with each
//! allocation, every link points to a strictly smaller address; that is the
//! well-formedness fact `links_ok`, and it makes the list acyclic and every
//! walk of it terminating.
//!
//! `list_from` interprets a head and a slot arena as the sequence of
//! addresses on the list. The lemmas below give the facts the engine needs:
//! the shape of the chain, that the interpretation only depends on the link
//! fields it actually visits, and how the sequence changes when one node's
//! link is redirected (the sweep's unlink).

use vstd::prelude::*;

use crate::ptr::AllocationInner;

verus! {

/// A measure that bounds the length of any walk starting at `node`.
pub open spec fn node_measure(node: Option<usize>) -> int {
    match node {
        Some(i) => i as int + 1,
        None => 0,
    }
}

/// The link of slot `i` points strictly downwards (or nowhere).
pub open spec fn node_ok<T>(s: Seq<AllocationInner<T>>, i: int) -> bool {
    match s[i].header.spec_next() {
        Some(j) => (j as int) < i,
        None => true,
    }
}

/// Every slot's link points strictly downwards.
pub open spec fn links_ok<T>(s: Seq<AllocationInner<T>>) -> bool {
    forall|i: int| 0 <= i < s.len() ==> node_ok(s, i)
}

/// `node` names a slot of the arena (or nothing).
pub open spec fn node_in_range<T>(s: Seq<AllocationInner<T>>, node: Option<usize>) -> bool {
    match node {
        Some(i) => (i as int) < s.len(),
        None => true,
    }
}

/// The addresses on the list headed by `node`, in list order.
///
/// The walk stops early if it would leave the arena or follow a link that
/// does not point downwards; under `links_ok` and `node_in_range` neither
/// happens and the result is the full chain.
pub open spec fn list_from<T>(s: Seq<AllocationInner<T>>, node: Option<usize>) -> Seq<int>
    decreases node_measure(node),
{
    match node {
        None => Seq::empty(),
        Some(i) => {
            if (i as int) < s.len() {
                let nxt = s[i as int].header.spec_next();
                if node_ok(s, i as int) {
                    seq![i as int] + list_from(s, nxt)
                } else {
                    seq![i as int]
                }
            } else {
                seq![i as int]
            }
        },
    }
}

/// The shape of a well-formed chain: it starts at `node`, every member is a
/// slot of the arena, consecutive members are linked, addresses strictly
/// decrease along the chain, and the last member's link is `None`.
pub proof fn lemma_list_from_props<T>(s: Seq<AllocationInner<T>>, node: Option<usize>)
    requires
        links_ok(s),
        node_in_range(s, node),
    ensures
        ({
            let l = list_from(s, node);
            &&& (l.len() == 0 <==> node is None)
            &&& (node is Some ==> l[0] == node.unwrap() as int)
            &&& (forall|k: int| 0 <= k < l.len() ==> 0 <= #[trigger] l[k] < s.len())
            &&& (forall|k: int| 0 <= k < l.len() ==> #[trigger] l[k] <= node_measure(node) - 1)
            &&& (forall|k: int|
                0 <= k && k + 1 < l.len() ==> l[k + 1] < l[k] && s[#[trigger] l[k]].header.spec_next()
                    == Some(l[k + 1] as usize))
            &&& (l.len() > 0 ==> s[l[l.len() - 1]].header.spec_next() is None)
        }),
    decreases node_measure(node),
{
    match node {
        None => {},
        Some(i) => {
            let nxt = s[i as int].header.spec_next();
            lemma_list_from_props(s, nxt);
            let l = list_from(s, node);
            let tail = list_from(s, nxt);
            assert(l == seq![i as int] + tail);
            assert(l[0] == i as int);
            assert forall|k: int| 0 <= k && k + 1 < l.len() implies l[k + 1] < l[k] && s[#[trigger] l[
                k]].header.spec_next() == Some(l[k + 1] as usize) by {
                if k == 0 {
                    assert(tail[0] == l[1]);
                    assert(nxt == Some(l[1] as usize));
                } else {
                    assert(l[k] == tail[k - 1]);
                    assert(l[k + 1] == tail[k]);
                }
            }
        },
    }
}

/// Two arenas that agree on every link below `bound` produce the same chain
/// from any head below `bound`.
pub proof fn lemma_list_from_agree_below<T>(
    s1: Seq<AllocationInner<T>>,
    s2: Seq<AllocationInner<T>>,
    node: Option<usize>,
    bound: int,
)
    requires
        links_ok(s1),
        node_in_range(s1, node),
        bound <= s1.len(),
        bound <= s2.len(),
        node_measure(node) <= bound,
        forall|i: int|
            0 <= i < bound ==> s2[i].header.spec_next() == #[trigger] s1[i].header.spec_next(),
    ensures
        list_from(s2, node) == list_from(s1, node),
    decreases node_measure(node),
{
    match node {
        None => {},
        Some(i) => {
            let nxt = s1[i as int].header.spec_next();
            assert(node_ok(s1, i as int));
            assert(s2[i as int].header.spec_next() == nxt);
            assert(node_ok(s2, i as int));
            lemma_list_from_agree_below(s1, s2, nxt, bound);
        },
    }
}

/// Redirecting the link of the chain member at position `k` truncates the
/// chain right after that member and continues with the new link's own
/// chain.
#[verifier::rlimit(100)]
#[verifier::spinoff_prover]
pub proof fn lemma_list_from_unlink<T>(
    s1: Seq<AllocationInner<T>>,
    s2: Seq<AllocationInner<T>>,
    node: Option<usize>,
    k: int,
)
    requires
        links_ok(s1),
        node_in_range(s1, node),
        0 <= k < list_from(s1, node).len(),
        s1.len() == s2.len(),
        ({
            let p = list_from(s1, node)[k];
            &&& forall|i: int|
                0 <= i < s1.len() && i != p ==> s2[i].header.spec_next() == #[trigger] s1[i].header.spec_next()
            &&& match s2[p].header.spec_next() {
                Some(j) => (j as int) < p,
                None => true,
            }
        }),
    ensures
        ({
            let l1 = list_from(s1, node);
            let p = l1[k];
            list_from(s2, node) == l1.take(k + 1) + list_from(s2, s2[p].header.spec_next())
        }),
    decreases node_measure(node),
{
    lemma_list_from_props(s1, node);
    let l1 = list_from(s1, node);
    let p = l1[k];
    let i = node.unwrap() as int;
    let nxt1 = s1[i].header.spec_next();
    if k == 0 {
        // The head itself is redirected: the chain is the head followed by
        // whatever the new link leads to.
        assert(p == i);
        let nn = s2[p].header.spec_next();
        assert(node_ok(s2, i));
        assert(list_from(s2, node) == seq![i] + list_from(s2, nn));
        assert(l1.take(1) =~= seq![i]);
    } else {
        // The head is kept: peel it off and recurse into the tail.
        let tail1 = list_from(s1, nxt1);
        lemma_list_from_props(s1, nxt1);
        assert(l1 == seq![i] + tail1);
        assert(tail1[k - 1] == l1[k]);
        assert(p <= node_measure(nxt1) - 1);
        assert(p != i);
        assert(s2[i].header.spec_next() == nxt1);
        assert(node_ok(s2, i));
        lemma_list_from_unlink(s1, s2, nxt1, k - 1);
        assert(list_from(s2, node) == seq![i] + list_from(s2, nxt1));
        assert(l1.take(k + 1) =~= seq![i] + tail1.take(k));
        assert(list_from(s2, node) =~= l1.take(k + 1) + list_from(s2, s2[p].header.spec_next()));
    }
}

/// Addresses strictly decrease along a chain, pairwise: each allocation
/// appears on the list at most once.
pub proof fn lemma_list_sorted<T>(s: Seq<AllocationInner<T>>, node: Option<usize>)
    requires
        links_ok(s),
        node_in_range(s, node),
    ensures
        forall|k1: int, k2: int|
            0 <= k1 < k2 < list_from(s, node).len() ==> #[trigger] list_from(s, node)[k2]
                < #[trigger] list_from(s, node)[k1],
    decreases node_measure(node),
{
    match node {
        None => {},
        Some(i) => {
            let nxt = s[i as int].header.spec_next();
            assert(node_ok(s, i as int));
            lemma_list_sorted(s, nxt);
            lemma_list_from_props(s, nxt);
            let l = list_from(s, node);
            let tail = list_from(s, nxt);
            assert(l == seq![i as int] + tail);
            assert forall|k1: int, k2: int|
                0 <= k1 < k2 < l.len() implies #[trigger] l[k2] < #[trigger] l[k1] by {
                assert(l[k2] == tail[k2 - 1]);
                if k1 == 0 {
                    assert(tail[k2 - 1] <= node_measure(nxt) - 1);
                } else {
                    assert(l[k1] == tail[k1 - 1]);
                }
            }
        },
    }
}

} // verus!
