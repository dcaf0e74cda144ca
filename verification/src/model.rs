use vstd::prelude::*;

verus! {

/// Mathematical model of one hierarchy.
///
/// `children` maps every entity that currently has at least one child to the
/// sequence of its direct children in attachment order; `parent` maps every
/// entity that currently has a parent to that parent; `fuel` is a ghost bound
/// on the length of every ancestor chain, witnessing that the hierarchy is
/// acyclic.
pub ghost struct HierarchyModel {
    pub children: Map<u64, Seq<u64>>,
    pub parent: Map<u64, u64>,
    pub fuel: nat,
}

/// The children of `e`, or the empty sequence if `e` has none.
pub open spec fn kid_seq(ch: Map<u64, Seq<u64>>, e: u64) -> Seq<u64> {
    if ch.dom().contains(e) {
        ch[e]
    } else {
        Seq::empty()
    }
}

/// The ancestor chain starting at `x` itself: `x`, its parent, its
/// grandparent, ..., cut off after `fuel` steps or at the first entity
/// without a parent.
pub open spec fn chain(pm: Map<u64, u64>, x: u64, fuel: nat) -> Seq<u64>
    decreases fuel,
{
    if !pm.dom().contains(x) || fuel == 0 {
        seq![x]
    } else {
        seq![x] + chain(pm, pm[x], (fuel - 1) as nat)
    }
}

/// `x` reaches an entity without a parent within `fuel` steps.
pub open spec fn rooted(pm: Map<u64, u64>, x: u64, fuel: nat) -> bool {
    !pm.dom().contains(chain(pm, x, fuel).last())
}

/// The two maps describe the same forest: every listed child knows its
/// parent, sibling lists hold no duplicates, and every entity with a parent
/// appears in that parent's sibling list.
pub open spec fn coupled(ch: Map<u64, Seq<u64>>, pm: Map<u64, u64>) -> bool {
    &&& forall|p: u64| #[trigger] ch.dom().contains(p) ==> ch[p].len() >= 1
    &&& forall|p: u64, i: int|
        ch.dom().contains(p) && 0 <= i < ch[p].len() ==> {
            &&& pm.dom().contains(#[trigger] ch[p][i])
            &&& pm[ch[p][i]] == p
        }
    &&& forall|p: u64, i: int, j: int|
        #![trigger ch[p][i], ch[p][j]]
        ch.dom().contains(p) && 0 <= i < ch[p].len() && 0 <= j < ch[p].len() && i != j
            ==> ch[p][i] != ch[p][j]
    &&& forall|c: u64| #[trigger] pm.dom().contains(c) ==> ch.dom().contains(pm[c]) && ch[pm[c]].contains(c)
}

/// Validity of a model: the maps are coupled and every entity with a parent
/// reaches a root within `fuel` steps (no cycles).
pub open spec fn model_inv(m: HierarchyModel) -> bool {
    &&& coupled(m.children, m.parent)
    &&& forall|c: u64| #[trigger] m.parent.dom().contains(c) ==> rooted(m.parent, c, m.fuel)
}

/// Model transition of a successful attach: `c` becomes the last child of `p`.
pub open spec fn attach_m(m: HierarchyModel, c: u64, p: u64) -> HierarchyModel {
    HierarchyModel {
        children: m.children.insert(p, kid_seq(m.children, p).push(c)),
        parent: m.parent.insert(c, p),
        fuel: m.fuel * 2 + 1,
    }
}

/// Remove the first occurrence of `x` from `s`.
pub open spec fn remove_once(s: Seq<u64>, x: u64) -> Seq<u64>
    decreases s.len(),
{
    if s.len() == 0 {
        s
    } else if s[0] == x {
        s.drop_first()
    } else {
        seq![s[0]] + remove_once(s.drop_first(), x)
    }
}

/// Model transition of a detach: `c` leaves its parent's sibling list; its
/// own subtree is untouched. Detaching an entity without a parent changes
/// nothing.
pub open spec fn detach_m(m: HierarchyModel, c: u64) -> HierarchyModel {
    if !m.parent.dom().contains(c) {
        m
    } else {
        let p = m.parent[c];
        let s2 = remove_once(kid_seq(m.children, p), c);
        HierarchyModel {
            children: if s2.len() == 0 {
                m.children.remove(p)
            } else {
                m.children.insert(p, s2)
            },
            parent: m.parent.remove(c),
            fuel: m.fuel,
        }
    }
}

/// Pre-order walk of the subtrees rooted at `es`, in order. An entity in
/// `skip` is neither yielded nor descended into. `None` means the fuel did
/// not cover the depth of the forest.
pub open spec fn visit_list(ch: Map<u64, Seq<u64>>, skip: Set<u64>, es: Seq<u64>, fuel: nat) -> Option<
    Seq<u64>,
>
    decreases fuel, es.len(),
{
    if es.len() == 0 {
        Some(Seq::empty())
    } else if skip.contains(es[0]) {
        visit_list(ch, skip, es.drop_first(), fuel)
    } else if fuel == 0 {
        None
    } else {
        match visit_list(ch, skip, kid_seq(ch, es[0]), (fuel - 1) as nat) {
            None => None,
            Some(sub) => match visit_list(ch, skip, es.drop_first(), fuel) {
                None => None,
                Some(rest) => Some(seq![es[0]] + sub + rest),
            },
        }
    }
}

/// Depth-first pre-order walk without pruning.
pub open spec fn dfs_list(ch: Map<u64, Seq<u64>>, es: Seq<u64>, fuel: nat) -> Option<Seq<u64>> {
    visit_list(ch, Set::empty(), es, fuel)
}

/// All children of the entities of `es`, in order.
pub open spec fn kids_concat(ch: Map<u64, Seq<u64>>, es: Seq<u64>) -> Seq<u64>
    decreases es.len(),
{
    if es.len() == 0 {
        Seq::empty()
    } else {
        kid_seq(ch, es[0]) + kids_concat(ch, es.drop_first())
    }
}

/// Level-order walk starting from the frontier `es`.
pub open spec fn bfs_list(ch: Map<u64, Seq<u64>>, es: Seq<u64>, fuel: nat) -> Option<Seq<u64>>
    decreases fuel,
{
    if es.len() == 0 {
        Some(Seq::empty())
    } else if fuel == 0 {
        None
    } else {
        match bfs_list(ch, kids_concat(ch, es), (fuel - 1) as nat) {
            None => None,
            Some(t) => Some(es + t),
        }
    }
}

/// The descendants of `e` in depth-first pre-order, `e` excluded.
pub open spec fn descendants_spec(m: HierarchyModel, e: u64) -> Seq<u64> {
    match dfs_list(m.children, kid_seq(m.children, e), m.fuel) {
        Some(s) => s,
        None => Seq::empty(),
    }
}

/// The descendants of `e` in level order, `e` excluded.
pub open spec fn descendants_bfs_spec(m: HierarchyModel, e: u64) -> Seq<u64> {
    match bfs_list(m.children, kid_seq(m.children, e), m.fuel) {
        Some(s) => s,
        None => Seq::empty(),
    }
}

/// The descendants of `e` in depth-first pre-order with the subtrees of the
/// entities of `skip` pruned (a pruned entity is not yielded either).
pub open spec fn visit_spec(m: HierarchyModel, skip: Set<u64>, e: u64) -> Seq<u64> {
    match visit_list(m.children, skip, kid_seq(m.children, e), m.fuel) {
        Some(s) => s,
        None => Seq::empty(),
    }
}

/// The ancestors of `e`: parent first, the root of `e`'s tree last.
pub open spec fn ancestors_spec(m: HierarchyModel, e: u64) -> Seq<u64> {
    chain(m.parent, e, m.fuel).drop_first()
}

} // verus!
