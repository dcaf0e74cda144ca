use vstd::prelude::*;

use crate::lemmas::{lemma_remove_once_at, lemma_rooted_no_self, lemma_subtree_stable};
use crate::model::{
    ancestors_spec, attach_m, chain, descendants_bfs_spec, descendants_spec, detach_m, kid_seq,
    model_inv, remove_once, visit_list, bfs_list, HierarchyModel,
};

verus! {

/// The model after attaching the entities of `cs` under `p`, in order.
pub open spec fn attach_all(m: HierarchyModel, p: u64, cs: Seq<u64>) -> HierarchyModel
    decreases cs.len(),
{
    if cs.len() == 0 {
        m
    } else {
        attach_all(attach_m(m, cs[0], p), p, cs.drop_first())
    }
}

/// Law: attaching a sequence of children in order appends exactly that
/// sequence to the parent's sibling list, so `children(p)` later yields the
/// children in attachment order.
pub proof fn lemma_attach_order(m: HierarchyModel, p: u64, cs: Seq<u64>)
    ensures
        kid_seq(attach_all(m, p, cs).children, p) == kid_seq(m.children, p) + cs,
    decreases cs.len(),
{
    if cs.len() == 0 {
        assert(kid_seq(m.children, p) + cs =~= kid_seq(m.children, p));
    } else {
        let m1 = attach_m(m, cs[0], p);
        assert(kid_seq(m1.children, p) == kid_seq(m.children, p).push(cs[0]));
        lemma_attach_order(m1, p, cs.drop_first());
        assert(kid_seq(m.children, p).push(cs[0]) + cs.drop_first() =~= kid_seq(m.children, p)
            + cs);
    }
}

/// An entity on no sibling list: an entity without a parent occurs in no
/// parent's children sequence.
pub proof fn lemma_unparented_not_listed(m: HierarchyModel, c: u64, q: u64)
    requires
        model_inv(m),
        !m.parent.dom().contains(c),
    ensures
        !kid_seq(m.children, q).contains(c),
{
    if kid_seq(m.children, q).contains(c) {
        let i = choose|i: int|
            0 <= i < kid_seq(m.children, q).len() && kid_seq(m.children, q)[i] == c;
        assert(m.children.dom().contains(q));
        assert(m.parent.dom().contains(m.children[q][i]));
    }
}

/// Removing the sole occurrence from a duplicate-free sibling list removes
/// the entity entirely.
pub proof fn lemma_remove_once_push(s: Seq<u64>, c: u64)
    requires
        !s.contains(c),
    ensures
        remove_once(s.push(c), c) == s,
{
    let s2 = s.push(c);
    assert forall|j: int| 0 <= j < s.len() implies s2[j] != c by {
        if s2[j] == c {
            assert(s[j] == c);
            assert(s.contains(c));
        }
    }
    assert(s2[s.len() as int] == c);
    lemma_remove_once_at(s2, c, s.len() as int);
    assert(s2.subrange(0, s.len() as int) + s2.subrange(s.len() as int + 1, s2.len() as int) =~= s);
}

/// Law (detach-then-reattach round trip): attach `c` under `p1`, detach it,
/// attach it under `p2`. Afterwards `p1`'s children exclude `c`, `p2`'s
/// children end with `c` and held no other occurrence of it, and the
/// ancestors of `c` start with `p2`.
pub proof fn lemma_reattach_round_trip(m: HierarchyModel, c: u64, p1: u64, p2: u64)
    requires
        model_inv(m),
        !m.parent.dom().contains(c),
        p1 != p2,
        c != p1,
    ensures
        ({
            let m3 = attach_m(detach_m(attach_m(m, c, p1), c), c, p2);
            let m2 = detach_m(attach_m(m, c, p1), c);
            &&& !kid_seq(m3.children, p1).contains(c)
            &&& kid_seq(m3.children, p2) == kid_seq(m2.children, p2).push(c)
            &&& !kid_seq(m2.children, p2).contains(c)
            &&& m3.parent.dom().contains(c) && m3.parent[c] == p2
            &&& ancestors_spec(m3, c).len() >= 1 && ancestors_spec(m3, c)[0] == p2
        }),
{
    let m1 = attach_m(m, c, p1);
    let m2 = detach_m(m1, c);
    let m3 = attach_m(m2, c, p2);
    let s1 = kid_seq(m.children, p1);
    lemma_unparented_not_listed(m, c, p1);
    lemma_unparented_not_listed(m, c, p2);
    // the detach removes exactly the occurrence the first attach added
    assert(m1.parent[c] == p1);
    assert(kid_seq(m1.children, p1) == s1.push(c));
    lemma_remove_once_push(s1, c);
    assert(remove_once(kid_seq(m1.children, p1), c) == s1);
    // p1's list is back to its old content, p2's was never touched
    assert(kid_seq(m2.children, p1) =~= s1) by {
        if s1.len() == 0 {
            assert(m2.children == m1.children.remove(p1));
        } else {
            assert(m2.children == m1.children.insert(p1, s1));
        }
    }
    assert(kid_seq(m2.children, p2) == kid_seq(m.children, p2));
    assert(kid_seq(m3.children, p1) == kid_seq(m2.children, p1));
    assert(!kid_seq(m3.children, p1).contains(c));
    assert(kid_seq(m3.children, p2) == kid_seq(m2.children, p2).push(c));
    // the ancestors of `c` now start at `p2`
    assert(m3.parent == m2.parent.insert(c, p2));
    assert(m3.parent[c] == p2);
    assert(chain(m3.parent, c, m3.fuel) == seq![c] + chain(m3.parent, p2, (m3.fuel - 1) as nat))
        by {
        assert(m3.fuel >= 1);
    }
    let tail = chain(m3.parent, p2, (m3.fuel - 1) as nat);
    crate::lemmas::lemma_chain_first(m3.parent, p2, (m3.fuel - 1) as nat);
    assert(ancestors_spec(m3, c) =~= tail);
}

/// Law (subtree survival): detaching `a` leaves the children of `a` — and of
/// every entity other than `a`'s parent — untouched, while `a` disappears
/// from its parent's children.
pub proof fn lemma_detach_keeps_subtree(m: HierarchyModel, a: u64)
    requires
        model_inv(m),
        m.parent.dom().contains(a),
    ensures
        kid_seq(detach_m(m, a).children, a) == kid_seq(m.children, a),
        descendants_spec(detach_m(m, a), a) == descendants_spec(m, a),
        !kid_seq(detach_m(m, a).children, m.parent[a]).contains(a),
        forall|q: u64|
            q != m.parent[a] ==> kid_seq(detach_m(m, a).children, q) == kid_seq(m.children, q),
{
    lemma_subtree_stable(m, a);
    let p = m.parent[a];
    lemma_rooted_no_self(m.parent, a, m.fuel);
    assert(p != a);
    let s = kid_seq(m.children, p);
    assert(m.children.dom().contains(p) && m.children[p].contains(a));
    let i = choose|i: int| 0 <= i < s.len() && s[i] == a;
    assert forall|j: int| 0 <= j < i implies s[j] != a by {
        assert(s[j] != s[i] || j == i);
    }
    lemma_remove_once_at(s, a, i);
    let s2 = remove_once(s, a);
    assert(!s2.contains(a)) by {
        if s2.contains(a) {
            let j = choose|j: int| 0 <= j < s2.len() && s2[j] == a;
            if j < i {
                assert(s2[j] == s[j] && s[j] != s[i]);
            } else {
                assert(s2[j] == s[j + 1] && s[j + 1] != s[i]);
            }
        }
    }
}

/// Law (empty hierarchy): an entity without children yields the empty
/// sequence from every descendant traversal, and the hierarchy allocates no
/// link component for it.
pub proof fn lemma_empty_traversals(m: HierarchyModel, e: u64)
    requires
        !m.children.dom().contains(e),
    ensures
        kid_seq(m.children, e) == Seq::<u64>::empty(),
        descendants_spec(m, e) == Seq::<u64>::empty(),
        descendants_bfs_spec(m, e) == Seq::<u64>::empty(),
{
    assert(kid_seq(m.children, e) =~= Seq::<u64>::empty());
    assert(visit_list(m.children, Set::empty(), kid_seq(m.children, e), m.fuel) == Some(
        Seq::<u64>::empty(),
    ));
    assert(bfs_list(m.children, kid_seq(m.children, e), m.fuel) == Some(Seq::<u64>::empty()));
}

} // verus!
