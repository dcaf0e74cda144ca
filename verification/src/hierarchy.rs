use vstd::prelude::*;

use std::collections::HashMap;

use crate::lemmas::{lemma_chain_first, lemma_chain_stays_live, lemma_attach_model_inv, lemma_detach_model_inv, lemma_remove_once_at, lemma_rooted_submap, lemma_take_push, lemma_visit_members, lemma_visit_parents};
use crate::model::{HierarchyModel, model_inv, kid_seq, chain, rooted, attach_m, detach_m, remove_once, ancestors_spec, descendants_spec};
use crate::store::{live_entities, world_contains, world_despawn, world_spawn_empty};
use crate::HierarchyError;

verus! {

broadcast use vstd::std_specs::hash::group_hash_axioms;

/// Link component of an entity that has a parent: the parent handle and the
/// neighbours in the circular doubly linked sibling list. The only child of a
/// parent has itself as both neighbours.
#[derive(Clone, Copy, Debug, PartialEq, Eq, Structural)]
pub struct ChildLink {
    pub parent: u64,
    pub next: u64,
    pub prev: u64,
}

/// Link component of an entity that has at least one child: the head of the
/// sibling list (the earliest attached child) and the number of children.
#[derive(Clone, Copy, Debug, PartialEq, Eq, Structural)]
pub struct ParentLink {
    pub first_child: u64,
    pub num_children: u64,
}

/// The parent map induced by the child link components.
pub open spec fn pmap(cl: Map<u64, ChildLink>) -> Map<u64, u64> {
    Map::new(|c: u64| cl.dom().contains(c), |c: u64| cl[c].parent)
}

/// The position of the successor of index `i` in a circular list of length `n`.
pub open spec fn next_idx(n: int, i: int) -> int {
    if i + 1 == n {
        0
    } else {
        i + 1
    }
}

/// The position of the predecessor of index `i` in a circular list of length `n`.
pub open spec fn prev_idx(n: int, i: int) -> int {
    if i == 0 {
        n - 1
    } else {
        i - 1
    }
}

/// The `i`-th child in the sibling sequence `s` of parent `p` carries the
/// link component that renders the circular list: parent `p`, and the
/// neighbouring siblings with wrap-around at both ends.
pub open spec fn ring_ok(cl: Map<u64, ChildLink>, p: u64, s: Seq<u64>, i: int) -> bool {
    &&& cl.dom().contains(s[i])
    &&& cl[s[i]] == (ChildLink {
        parent: p,
        next: s[next_idx(s.len() as int, i)],
        prev: s[prev_idx(s.len() as int, i)],
    })
}

/// One tree hierarchy over the entities of a world.
///
/// Entities are identified by the bit representation of their handles. The
/// hierarchy stores a [`ChildLink`] for every entity with a parent and a
/// [`ParentLink`] for every entity with at least one child; `gchildren` is
/// the ghost sibling order of every parent and `gfuel` a ghost bound on the
/// depth, witnessing acyclicity.
pub struct Hierarchy {
    child_links: HashMap<u64, ChildLink>,
    parent_links: HashMap<u64, ParentLink>,
    parent_keys: Vec<u64>,
    gchildren: Ghost<Map<u64, Seq<u64>>>,
    gfuel: Ghost<nat>,
}

impl View for Hierarchy {
    type V = HierarchyModel;

    closed spec fn view(&self) -> HierarchyModel {
        HierarchyModel {
            children: self.gchildren@,
            parent: pmap(self.child_links@),
            fuel: self.gfuel@,
        }
    }
}

impl Hierarchy {
    /// The link components agree with the ghost sibling sequences: every
    /// sibling list is the circular rendering of its sequence, and the two
    /// component maps cover exactly the parents and the children of the model.
    pub closed spec fn links_wf(&self) -> bool {
        let ch = self.gchildren@;
        let cl = self.child_links@;
        let pl = self.parent_links@;
        &&& pl.dom() == ch.dom()
        &&& forall|p: u64| #[trigger] ch.dom().contains(p) ==> ch[p].len() >= 1 && pl[p].first_child
            == ch[p][0] && pl[p].num_children == ch[p].len()
        &&& forall|p: u64, i: int|
            ch.dom().contains(p) && 0 <= i < ch[p].len() ==> #[trigger] ring_ok(cl, p, ch[p], i)
        &&& forall|c: u64| #[trigger] cl.dom().contains(c) ==> ch.dom().contains(cl[c].parent)
            && ch[cl[c].parent].contains(c)
        &&& self.parent_keys@.no_duplicates()
        &&& forall|k: u64| #[trigger] self.parent_keys@.contains(k) <==> ch.dom().contains(k)
    }

    /// Full well-formedness: consistent links and a valid, acyclic model.
    pub closed spec fn wf(&self) -> bool {
        &&& self.links_wf()
        &&& model_inv(self@)
    }

    /// Well-formedness guarantees the model invariant, for reasoning at the
    /// model level.
    pub proof fn lemma_wf_model(&self)
        requires
            self.wf(),
        ensures
            model_inv(self@),
    {
    }

    /// An empty hierarchy: no entity has a parent or a child.
    pub fn new() -> (h: Self)
        ensures
            h.wf(),
            h@.children == Map::<u64, Seq<u64>>::empty(),
            h@.parent == Map::<u64, u64>::empty(),
            h@.fuel == 0,
    {
        let h = Hierarchy {
            child_links: HashMap::new(),
            parent_links: HashMap::new(),
            parent_keys: Vec::new(),
            gchildren: Ghost(Map::empty()),
            gfuel: Ghost(0),
        };
        proof {
            assert(h@.parent =~= Map::<u64, u64>::empty());
        }
        h
    }

    /// The parent of `e` in this hierarchy, if `e` has one.
    pub fn parent(&self, e: u64) -> (r: Option<u64>)
        requires
            self.wf(),
        ensures
            match r {
                Some(p) => self@.parent.dom().contains(e) && self@.parent[e] == p,
                None => !self@.parent.dom().contains(e),
            },
    {
        match self.child_links.get(&e) {
            Some(l) => Some(l.parent),
            None => None,
        }
    }

    /// The link component of `e` as a child: its parent and its two
    /// neighbours in the circular sibling list, present exactly when `e` has
    /// a parent.
    pub fn child_link(&self, e: u64) -> (r: Option<ChildLink>)
        requires
            self.wf(),
        ensures
            match r {
                Some(l) => {
                    &&& self@.parent.dom().contains(e)
                    &&& l.parent == self@.parent[e]
                    &&& exists|i: int|
                        #![trigger kid_seq(self@.children, l.parent)[i]]
                        {
                            let s = kid_seq(self@.children, l.parent);
                            &&& 0 <= i < s.len()
                            &&& s[i] == e
                            &&& l.next == s[next_idx(s.len() as int, i)]
                            &&& l.prev == s[prev_idx(s.len() as int, i)]
                        }
                },
                None => !self@.parent.dom().contains(e),
            },
    {
        match self.child_links.get(&e) {
            Some(l) => {
                proof {
                    let q = l.parent;
                    let s = self@.children[q];
                    assert(self@.children.dom().contains(q) && s.contains(e));
                    let i = choose|i: int| 0 <= i < s.len() && s[i] == e;
                    assert(ring_ok(self.child_links@, q, s, i));
                    assert(kid_seq(self@.children, q) == s);
                    assert(kid_seq(self@.children, q)[i] == e);
                    assert(l.next == s[next_idx(s.len() as int, i)]);
                    assert(l.prev == s[prev_idx(s.len() as int, i)]);
                }
                Some(*l)
            },
            None => None,
        }
    }

    /// The link component of `e` as a parent: the head of its sibling list
    /// and its child count, present exactly when `e` has children.
    pub fn parent_link(&self, e: u64) -> (r: Option<ParentLink>)
        requires
            self.wf(),
        ensures
            match r {
                Some(l) => {
                    &&& self@.children.dom().contains(e)
                    &&& l.first_child == kid_seq(self@.children, e)[0]
                    &&& l.num_children == kid_seq(self@.children, e).len()
                },
                None => !self@.children.dom().contains(e),
            },
    {
        match self.parent_links.get(&e) {
            Some(l) => {
                proof {
                    assert(self.parent_links@.dom().contains(e));
                    assert(self@.children.dom().contains(e));
                }
                Some(*l)
            },
            None => {
                proof {
                    assert(!self.parent_links@.dom().contains(e));
                }
                None
            },
        }
    }

    /// The number of direct children of `e`.
    pub fn num_children(&self, e: u64) -> (r: u64)
        requires
            self.wf(),
        ensures
            r == kid_seq(self@.children, e).len(),
    {
        match self.parent_links.get(&e) {
            Some(l) => {
                proof {
                    assert(self.parent_links@.dom().contains(e));
                    assert(self@.children.dom().contains(e));
                }
                l.num_children
            },
            None => {
                proof {
                    assert(!self.parent_links@.dom().contains(e));
                    assert(!self@.children.dom().contains(e));
                }
                0
            },
        }
    }

    /// The direct children of `parent`, in attachment order, read by walking
    /// the circular sibling list from its head.
    #[verifier::rlimit(100)]
    pub fn children(&self, parent: u64) -> (r: Vec<u64>)
        requires
            self.wf(),
        ensures
            r@ == kid_seq(self@.children, parent),
    {
        let mut r: Vec<u64> = Vec::new();
        let has_links = self.parent_links.contains_key(&parent);
        if !has_links {
            proof {
                assert(kid_seq(self@.children, parent) =~= Seq::<u64>::empty());
            }
            return r;
        }
        let pl = *self.parent_links.get(&parent).unwrap();
        proof {
            assert(self.parent_links@.dom().contains(parent));
            assert(self@.children.dom().contains(parent));
            assert(self.parent_links@[parent].num_children == self@.children[parent].len());
        }
        let ghost s = self@.children[parent];
        let n = pl.num_children;
        let mut cur = pl.first_child;
        let mut i: u64 = 0;
        while i < n
            invariant
                self.wf(),
                self@.children.dom().contains(parent),
                s == self@.children[parent],
                n == s.len(),
                0 <= i <= n,
                r@ == s.subrange(0, i as int),
                i < n ==> cur == s[i as int],
            decreases n - i,
        {
            r.push(cur);
            proof {
                assert(ring_ok(self.child_links@, parent, s, i as int));
            }
            let link = *self.child_links.get(&cur).unwrap();
            cur = link.next;
            i = i + 1;
            proof {
                assert(r@ =~= s.subrange(0, i as int));
            }
        }
        proof {
            assert(r@ =~= s);
        }
        r
    }

    /// The ancestors of `e`: its parent, grandparent, and so on, ending with
    /// the root of `e`'s tree. An entity without a parent has no ancestors.
    #[verifier::rlimit(100)]
    pub fn ancestors(&self, e: u64) -> (r: Vec<u64>)
        requires
            self.wf(),
        ensures
            r@ == ancestors_spec(self@, e),
    {
        let ghost pm = self@.parent;
        let ghost fl0 = self@.fuel;
        let mut r: Vec<u64> = Vec::new();
        let mut cur = e;
        let ghost mut fl = fl0;
        proof {
            if pm.dom().contains(e) {
            } else {
                assert(chain(pm, e, fl) == seq![e]);
            }
            assert(seq![e] + r@ + chain(pm, cur, fl).drop_first() =~= chain(pm, e, fl0));
        }
        while self.child_links.contains_key(&cur)
            invariant
                self.wf(),
                pm == self@.parent,
                fl0 == self@.fuel,
                seq![e] + r@ + chain(pm, cur, fl).drop_first() == chain(pm, e, fl0),
                !pm.dom().contains(chain(pm, cur, fl).last()),
            decreases fl,
        {
            proof {
                assert(pm.dom().contains(cur));
                if fl == 0 {
                    assert(chain(pm, cur, fl) == seq![cur]);
                }
            }
            let link = *self.child_links.get(&cur).unwrap();
            let nxt = link.parent;
            proof {
                assert(nxt == pm[cur]);
                let tail = chain(pm, nxt, (fl - 1) as nat);
                lemma_chain_first(pm, nxt, (fl - 1) as nat);
                assert(chain(pm, cur, fl) == seq![cur] + tail);
                assert(chain(pm, cur, fl).last() == tail.last());
                assert(chain(pm, cur, fl).drop_first() =~= tail);
                assert(tail =~= seq![nxt] + tail.drop_first());
                assert(seq![e] + r@.push(nxt) + tail.drop_first() =~= seq![e] + r@ + (seq![nxt]
                    + tail.drop_first()));
            }
            r.push(nxt);
            cur = nxt;
            proof {
                fl = (fl - 1) as nat;
            }
        }
        proof {
            assert(chain(pm, cur, fl) == seq![cur]);
            assert(chain(pm, e, fl0) =~= seq![e] + r@);
            assert(r@ =~= chain(pm, e, fl0).drop_first());
        }
        r
    }

    /// Whether `target` occurs on the ancestor chain that starts at `from`
    /// itself. Used as the cycle guard of [`Self::attach`].
    #[verifier::rlimit(100)]
    fn chain_contains(&self, from: u64, target: u64) -> (r: bool)
        requires
            self.wf(),
        ensures
            r == chain(self@.parent, from, self@.fuel).contains(target),
    {
        let ghost pm = self@.parent;
        let ghost fl0 = self@.fuel;
        let mut cur = from;
        let ghost mut fl = fl0;
        let ghost mut pre: Seq<u64> = Seq::empty();
        proof {
            if pm.dom().contains(from) {
            } else {
                assert(chain(pm, from, fl) == seq![from]);
            }
            assert(pre + chain(pm, cur, fl) =~= chain(pm, from, fl0));
        }
        while cur != target && self.child_links.contains_key(&cur)
            invariant
                self.wf(),
                pm == self@.parent,
                fl0 == self@.fuel,
                pre + chain(pm, cur, fl) == chain(pm, from, fl0),
                forall|i: int| 0 <= i < pre.len() ==> pre[i] != target,
                !pm.dom().contains(chain(pm, cur, fl).last()),
            decreases fl,
        {
            proof {
                if fl == 0 {
                    assert(chain(pm, cur, fl) == seq![cur]);
                }
            }
            let link = *self.child_links.get(&cur).unwrap();
            let nxt = link.parent;
            proof {
                let tail = chain(pm, nxt, (fl - 1) as nat);
                lemma_chain_first(pm, nxt, (fl - 1) as nat);
                assert(chain(pm, cur, fl) == seq![cur] + tail);
                assert(chain(pm, cur, fl).last() == tail.last());
                assert(pre.push(cur) + tail =~= pre + (seq![cur] + tail));
            }
            proof {
                pre = pre.push(cur);
                fl = (fl - 1) as nat;
            }
            cur = nxt;
        }
        if cur == target {
            proof {
                lemma_chain_first(pm, cur, fl);
                let full = chain(pm, from, fl0);
                assert(full[pre.len() as int] == chain(pm, cur, fl)[0]);
                assert(full.contains(target));
            }
            true
        } else {
            proof {
                assert(!pm.dom().contains(cur));
                assert(chain(pm, cur, fl) == seq![cur]);
                let full = chain(pm, from, fl0);
                assert(full =~= pre.push(cur));
                assert forall|i: int| 0 <= i < full.len() implies full[i] != target by {
                    if i < pre.len() {
                        assert(full[i] == pre[i]);
                    } else {
                        assert(full[i] == cur);
                    }
                }
                assert(!full.contains(target));
            }
            false
        }
    }

    /// Attach `child` as the new last child of `parent`.
    ///
    /// Fails with `NoSuchEntity` if either handle is stale, `AlreadyAttached`
    /// if `child` already has a parent in this hierarchy, and `CycleDetected`
    /// if `parent` is `child` itself or one of its descendants. On success the
    /// model changes exactly by [`attach_m`]; on failure it does not change.
    #[verifier::rlimit(100)]
    pub fn attach(&mut self, world: &hecs::World, child: u64, parent: u64) -> (r: Result<
        (),
        HierarchyError,
    >)
        requires
            old(self).wf(),
        ensures
            final(self).wf(),
            ({
                let m = old(self)@;
                match r {
                    Ok(()) => {
                        &&& live_entities(*world).contains(child)
                        &&& live_entities(*world).contains(parent)
                        &&& !m.parent.dom().contains(child)
                        &&& !chain(m.parent, parent, m.fuel).contains(child)
                        &&& final(self)@ == attach_m(m, child, parent)
                    },
                    Err(HierarchyError::NoSuchEntity) => {
                        &&& !(live_entities(*world).contains(child) && live_entities(
                            *world,
                        ).contains(parent))
                        &&& final(self)@ == m
                    },
                    Err(HierarchyError::AlreadyAttached) => {
                        &&& live_entities(*world).contains(child)
                        &&& live_entities(*world).contains(parent)
                        &&& m.parent.dom().contains(child)
                        &&& final(self)@ == m
                    },
                    Err(HierarchyError::CycleDetected) => {
                        &&& live_entities(*world).contains(child)
                        &&& live_entities(*world).contains(parent)
                        &&& !m.parent.dom().contains(child)
                        &&& chain(m.parent, parent, m.fuel).contains(child)
                        &&& final(self)@ == m
                    },
                }
            }),
    {
        if !world_contains(world, child) || !world_contains(world, parent) {
            return Err(HierarchyError::NoSuchEntity);
        }
        if self.child_links.contains_key(&child) {
            return Err(HierarchyError::AlreadyAttached);
        }
        if self.chain_contains(parent, child) {
            return Err(HierarchyError::CycleDetected);
        }
        let ghost m0 = self@;
        let ghost cl0 = self.child_links@;
        let ghost pl0 = self.parent_links@;
        let ghost keys0 = self.parent_keys@;
        let has_pl = self.parent_links.contains_key(&parent);
        if !has_pl {
            self.parent_links.insert(parent, ParentLink { first_child: child, num_children: 1 });
            self.child_links.insert(child, ChildLink { parent, next: child, prev: child });
            self.parent_keys.push(parent);
            self.gchildren = Ghost(m0.children.insert(parent, seq![child]));
            self.gfuel = Ghost(m0.fuel * 2 + 1);
            proof {
                let ch0 = m0.children;
                let ch2 = self.gchildren@;
                let cl2 = self.child_links@;
                let pl2 = self.parent_links@;
                let pm0 = m0.parent;
                let pm2 = pmap(cl2);
                assert(!ch0.dom().contains(parent));
                assert(!cl0.dom().contains(child));
                assert(pm2 =~= pm0.insert(child, parent));
                // the view realizes the model transition
                assert(kid_seq(ch0, parent).push(child) =~= seq![child]);
                assert(ch2 =~= attach_m(m0, child, parent).children);
                assert(self@ == attach_m(m0, child, parent));
                // the link components render the new model
                assert(pl2.dom() =~= ch2.dom());
                assert forall|p: u64| #[trigger] ch2.dom().contains(p) implies ch2[p].len() >= 1
                    && pl2[p].first_child == ch2[p][0] && pl2[p].num_children == ch2[p].len() by {
                    if p != parent {
                        assert(ch2[p] == ch0[p] && pl2[p] == pl0[p]);
                    }
                }
                assert forall|p: u64, i: int|
                    ch2.dom().contains(p) && 0 <= i < ch2[p].len() implies #[trigger] ring_ok(
                    cl2,
                    p,
                    ch2[p],
                    i,
                ) by {
                    if p == parent {
                        assert(ch2[p] == seq![child] && i == 0);
                        assert(ring_ok(cl2, p, ch2[p], i));
                    } else {
                        assert(ch2[p] == ch0[p]);
                        assert(ring_ok(cl0, p, ch0[p], i));
                        assert(cl0.dom().contains(ch0[p][i]));
                        assert(ch0[p][i] != child);
                        assert(cl2[ch0[p][i]] == cl0[ch0[p][i]]);
                        assert(ring_ok(cl2, p, ch2[p], i));
                    }
                }
                assert forall|c: u64| #[trigger] cl2.dom().contains(c) implies ch2.dom().contains(
                    cl2[c].parent,
                ) && ch2[cl2[c].parent].contains(c) by {
                    if c == child {
                        assert(ch2[parent][0] == child);
                        assert(ch2[parent].contains(child));
                    } else {
                        assert(cl2[c] == cl0[c]);
                        let q = cl0[c].parent;
                        assert(ch0.dom().contains(q) && ch0[q].contains(c));
                        assert(q != parent);
                        assert(ch2[q] == ch0[q]);
                    }
                }
                // the list of parents gains exactly `parent`
                assert(!keys0.contains(parent));
                assert(self.parent_keys@ == keys0.push(parent));
                assert(self.parent_keys@.no_duplicates()) by {
                    assert(forall|i: int|
                        0 <= i < keys0.len() ==> keys0[i] != parent && self.parent_keys@[i]
                            == keys0[i]);
                }
                assert forall|k: u64| #[trigger] self.parent_keys@.contains(k)
                    <==> ch2.dom().contains(k) by {
                    if self.parent_keys@.contains(k) {
                        let i = choose|i: int|
                            0 <= i < self.parent_keys@.len() && self.parent_keys@[i] == k;
                        if i < keys0.len() {
                            assert(keys0.contains(k));
                        }
                    }
                    if ch2.dom().contains(k) {
                        if k == parent {
                            assert(self.parent_keys@[keys0.len() as int] == parent);
                        } else {
                            assert(keys0.contains(k));
                            let i = choose|i: int| 0 <= i < keys0.len() && keys0[i] == k;
                            assert(self.parent_keys@[i] == k);
                        }
                    }
                }
                lemma_attach_model_inv(m0, child, parent);
            }
            Ok(())
        } else {
            let pl = *self.parent_links.get(&parent).unwrap();
            let first = pl.first_child;
            let l_first = *self.child_links.get(&first).unwrap();
            let last = l_first.prev;
            let ghost s = m0.children[parent];
            proof {
                assert(ring_ok(cl0, parent, s, 0));
                assert(first == s[0] && last == s[prev_idx(s.len() as int, 0)]);
                assert(last == s[s.len() - 1]);
            }
            if last == first {
                self.child_links.insert(
                    first,
                    ChildLink { parent, next: child, prev: child },
                );
            } else {
                let l_last = *self.child_links.get(&last).unwrap();
                self.child_links.insert(
                    first,
                    ChildLink { parent, next: l_first.next, prev: child },
                );
                self.child_links.insert(
                    last,
                    ChildLink { parent, next: child, prev: l_last.prev },
                );
            }
            self.child_links.insert(child, ChildLink { parent, next: first, prev: last });
            let total = self.child_links.len();
            proof {
                let s2 = s.push(child);
                assert(s2.no_duplicates()) by {
                    assert(forall|i: int| 0 <= i < s.len() ==> s[i] != child);
                }
                s2.unique_seq_to_set();
                assert(s2.to_set().subset_of(self.child_links@.dom())) by {
                    assert forall|x: u64| s2.to_set().contains(x) implies self.child_links@.dom().contains(
                        x,
                    ) by {
                        assert(s2.contains(x));
                        let i = choose|i: int| 0 <= i < s2.len() && s2[i] == x;
                        if i < s.len() {
                            assert(ring_ok(cl0, parent, s, i));
                            assert(cl0.dom().contains(s[i]));
                        }
                    }
                }
                vstd::set_lib::lemma_len_subset(s2.to_set(), self.child_links@.dom());
                assert(s.len() + 1 <= total);
                assert(pl.num_children < u64::MAX);
            }
            self.parent_links.insert(
                parent,
                ParentLink { first_child: first, num_children: pl.num_children + 1 },
            );
            self.gchildren = Ghost(m0.children.insert(parent, s.push(child)));
            self.gfuel = Ghost(m0.fuel * 2 + 1);
            proof {
                let ch0 = m0.children;
                let ch2 = self.gchildren@;
                let cl2 = self.child_links@;
                let pl2 = self.parent_links@;
                let pm0 = m0.parent;
                let pm2 = pmap(cl2);
                let n = s.len() as int;
                let s2 = s.push(child);
                assert(ch0.dom().contains(parent));
                assert(!cl0.dom().contains(child));
                assert(s[0] == first);
                assert(ring_ok(cl0, parent, s, 0));
                assert(ring_ok(cl0, parent, s, n - 1));
                assert(cl0.dom().contains(first) && cl0[first] == (ChildLink {
                    parent,
                    next: s[next_idx(n, 0)],
                    prev: s[prev_idx(n, 0)],
                }));
                assert(s[n - 1] == last);
                assert(cl0.dom().contains(last) && cl0[last] == (ChildLink {
                    parent,
                    next: s[next_idx(n, n - 1)],
                    prev: s[prev_idx(n, n - 1)],
                }));
                assert(first != child && last != child);
                // the parent map gains exactly the link of `child`
                assert(pm2 =~= pm0.insert(child, parent));
                // the view realizes the model transition
                assert(ch2 =~= attach_m(m0, child, parent).children);
                assert(self@ == attach_m(m0, child, parent));
                // parent links cover the same parents and record head and count
                assert(pl2.dom() =~= ch2.dom());
                assert forall|p: u64| #[trigger] ch2.dom().contains(p) implies ch2[p].len() >= 1
                    && pl2[p].first_child == ch2[p][0] && pl2[p].num_children == ch2[p].len() by {
                    if p == parent {
                        assert(ch2[parent] == s2);
                        assert(s2[0] == s[0]);
                        assert(pl.num_children == s.len());
                    } else {
                        assert(ch2[p] == ch0[p] && pl2[p] == pl0[p]);
                    }
                }
                // each sibling list is the circular rendering of its sequence
                assert forall|p: u64, i: int|
                    ch2.dom().contains(p) && 0 <= i < ch2[p].len() implies #[trigger] ring_ok(
                    cl2,
                    p,
                    ch2[p],
                    i,
                ) by {
                    if p == parent {
                        assert(ch2[parent] == s2);
                        assert(forall|j: int| 0 <= j < n ==> s2[j] == s[j]);
                        assert(s2[n] == child);
                        if i == n {
                            assert(s2[next_idx(n + 1, n)] == s2[0] && s2[0] == first);
                            assert(s2[prev_idx(n + 1, n)] == s2[n - 1] && s2[n - 1] == s[n - 1]);
                            assert(s[n - 1] == last);
                            assert(ring_ok(cl2, p, ch2[p], i));
                        } else {
                            let c = s2[i];
                            assert(c == s[i]);
                            if n == 1 {
                                assert(i == 0 && c == first);
                                assert(ring_ok(cl2, p, ch2[p], i));
                            } else {
                                if i == 0 {
                                    assert(c == first);
                                    assert(cl2[first].next == s[1] && s2[next_idx(n + 1, 0)] == s[1]);
                                    assert(cl2[first].prev == child && s2[prev_idx(n + 1, 0)]
                                        == child);
                                    assert(ring_ok(cl2, p, ch2[p], i));
                                } else if i == n - 1 {
                                    assert(c == last);
                                    assert(first != last);
                                    assert(cl2[last].next == child && s2[next_idx(n + 1, i)]
                                        == child);
                                    assert(cl2[last].prev == s[prev_idx(n, n - 1)] && s[prev_idx(
                                        n,
                                        n - 1,
                                    )] == s[n - 2]);
                                    assert(s2[prev_idx(n + 1, i)] == s[n - 2]);
                                    assert(ring_ok(cl2, p, ch2[p], i));
                                } else {
                                    assert(ring_ok(cl0, parent, s, i));
                                    assert(c != first && c != last && c != child);
                                    assert(cl2[c] == cl0[c]);
                                    assert(cl0[c] == (ChildLink {
                                        parent,
                                        next: s[next_idx(n, i)],
                                        prev: s[prev_idx(n, i)],
                                    }));
                                    assert(next_idx(n, i) == i + 1 && s2[next_idx(n + 1, i)] == s[i
                                        + 1]);
                                    assert(prev_idx(n, i) == i - 1 && s2[prev_idx(n + 1, i)] == s[i
                                        - 1]);
                                    assert(ring_ok(cl2, p, ch2[p], i));
                                }
                            }
                        }
                    } else {
                        assert(ch2[p] == ch0[p]);
                        assert(ring_ok(cl0, p, ch0[p], i));
                        let c = ch0[p][i];
                        assert(cl0.dom().contains(c) && cl0[c].parent == p);
                        assert(c != child && c != first && c != last);
                        assert(cl2[c] == cl0[c]);
                        assert(ring_ok(cl2, p, ch2[p], i));
                    }
                }
                // every linked child appears in its parent's sibling list
                assert forall|c: u64| #[trigger] cl2.dom().contains(c) implies ch2.dom().contains(
                    cl2[c].parent,
                ) && ch2[cl2[c].parent].contains(c) by {
                    if c == child {
                        assert(s2[n] == child);
                        assert(ch2[parent].contains(child));
                    } else {
                        assert(cl0.dom().contains(c));
                        let q = cl0[c].parent;
                        assert(cl2[c].parent == q);
                        assert(ch0.dom().contains(q) && ch0[q].contains(c));
                        if q == parent {
                            let i = choose|i: int| 0 <= i < s.len() && s[i] == c;
                            assert(s2[i] == c);
                            assert(ch2[parent].contains(c));
                        } else {
                            assert(ch2[q] == ch0[q]);
                        }
                    }
                }
                // the set of parents did not change
                assert(ch2.dom() =~= ch0.dom());
                lemma_attach_model_inv(m0, child, parent);
            }
            Ok(())
        }
    }

    /// The roots of this hierarchy: every entity that currently has children
    /// but no parent. The order is unspecified.
    pub fn roots(&self) -> (r: Vec<u64>)
        requires
            self.wf(),
        ensures
            r@.no_duplicates(),
            forall|x: u64| #[trigger] r@.contains(x) <==> (self@.children.dom().contains(x)
                && !self@.parent.dom().contains(x)),
    {
        let ghost keys = self.parent_keys@;
        let mut r: Vec<u64> = Vec::new();
        let mut i: usize = 0;
        while i < self.parent_keys.len()
            invariant
                self.wf(),
                keys == self.parent_keys@,
                0 <= i <= keys.len(),
                r@.no_duplicates(),
                forall|x: u64| #[trigger] r@.contains(x) <==> exists|j: int|
                    0 <= j < i && keys[j] == x && !self@.parent.dom().contains(x),
            decreases keys.len() - i,
        {
            let k = self.parent_keys[i];
            let is_child = self.child_links.contains_key(&k);
            let ghost r0 = r@;
            if !is_child {
                proof {
                    assert(!r0.contains(k)) by {
                        if r0.contains(k) {
                            let j = choose|j: int|
                                0 <= j < i && keys[j] == k && !self@.parent.dom().contains(k);
                            assert(keys[j] == keys[i as int]);
                        }
                    }
                }
                r.push(k);
                proof {
                    assert(forall|j: int| 0 <= j < r0.len() ==> r@[j] == r0[j]);
                    assert(r@[r0.len() as int] == k);
                    assert forall|x: u64| #[trigger] r@.contains(x) implies (r0.contains(x) || x
                        == k) by {
                        let j = choose|j: int| 0 <= j < r@.len() && r@[j] == x;
                        if j < r0.len() {
                            assert(r0[j] == x);
                        }
                    }
                    assert(r@.no_duplicates());
                }
            }
            i = i + 1;
            proof {
                assert forall|x: u64| #[trigger] r@.contains(x) implies exists|j: int|
                    0 <= j < i && keys[j] == x && !self@.parent.dom().contains(x) by {
                    if r0.contains(x) {
                        let j = choose|j: int|
                            0 <= j < i - 1 && keys[j] == x && !self@.parent.dom().contains(x);
                        assert(0 <= j < i && keys[j] == x);
                    } else {
                        assert(x == keys[i - 1]);
                    }
                }
                assert forall|x: u64|
                    exists|j: int|
                        0 <= j < i && keys[j] == x && !self@.parent.dom().contains(
                            x,
                        ) implies #[trigger] r@.contains(x) by {
                    let j = choose|j: int|
                        0 <= j < i && keys[j] == x && !self@.parent.dom().contains(x);
                    if j < i - 1 {
                        assert(r0.contains(x));
                        assert(r@.contains(x)) by {
                            let jj = choose|jj: int| 0 <= jj < r0.len() && r0[jj] == x;
                            assert(r@[jj] == x);
                        }
                    } else {
                        assert(keys[i - 1] == x);
                    }
                }
            }
        }
        proof {
            assert forall|x: u64| #[trigger] r@.contains(x) <==> (self@.children.dom().contains(x)
                && !self@.parent.dom().contains(x)) by {
                if r@.contains(x) {
                    let j = choose|j: int|
                        0 <= j < keys.len() && keys[j] == x && !self@.parent.dom().contains(x);
                    assert(keys.contains(x));
                }
                if self@.children.dom().contains(x) && !self@.parent.dom().contains(x) {
                    assert(keys.contains(x));
                    let j = choose|j: int| 0 <= j < keys.len() && keys[j] == x;
                }
            }
        }
        r
    }

    /// Spawn a fresh, empty entity in the world and attach it under `parent`.
    ///
    /// Returns the new entity's handle. Fails with `NoSuchEntity` when
    /// `parent` is stale, in which case nothing is spawned. Whenever every
    /// entity recorded in the hierarchy is live in the given world — the
    /// ordinary case — a live parent guarantees success: the fresh handle can
    /// collide with nothing. The collision errors can only arise when the
    /// hierarchy holds stale members, and then the spawned entity stays in
    /// the world while the hierarchy is unchanged.
    pub fn attach_new(&mut self, world: &mut hecs::World, parent: u64) -> (r: Result<
        u64,
        HierarchyError,
    >)
        requires
            old(self).wf(),
        ensures
            final(self).wf(),
            ({
                let m = old(self)@;
                match r {
                    Ok(e) => {
                        &&& !live_entities(*old(world)).contains(e)
                        &&& live_entities(*final(world)) == live_entities(*old(world)).insert(e)
                        &&& live_entities(*old(world)).contains(parent)
                        &&& !m.parent.dom().contains(e)
                        &&& !chain(m.parent, parent, m.fuel).contains(e)
                        &&& final(self)@ == attach_m(m, e, parent)
                    },
                    Err(HierarchyError::NoSuchEntity) => {
                        &&& !live_entities(*old(world)).contains(parent)
                        &&& live_entities(*final(world)) == live_entities(*old(world))
                        &&& final(self)@ == m
                    },
                    Err(HierarchyError::AlreadyAttached) => {
                        &&& live_entities(*old(world)).contains(parent)
                        &&& final(self)@ == m
                        &&& exists|e: u64|
                            {
                                &&& !live_entities(*old(world)).contains(e)
                                &&& live_entities(*final(world)) == live_entities(
                                    *old(world),
                                ).insert(e)
                                &&& #[trigger] m.parent.dom().contains(e)
                            }
                    },
                    Err(HierarchyError::CycleDetected) => {
                        &&& live_entities(*old(world)).contains(parent)
                        &&& final(self)@ == m
                        &&& exists|e: u64|
                            {
                                &&& !live_entities(*old(world)).contains(e)
                                &&& live_entities(*final(world)) == live_entities(
                                    *old(world),
                                ).insert(e)
                                &&& #[trigger] chain(m.parent, parent, m.fuel).contains(e)
                            }
                    },
                }
            }),
            // success is owed whenever the inputs alone decide: a live parent
            // and no stale member in the hierarchy
            (live_entities(*old(world)).contains(parent) && (forall|q: u64| #[trigger] old(
                self,
            )@.children.dom().contains(q) ==> live_entities(*old(world)).contains(q)) && (
            forall|q: u64| #[trigger] old(self)@.parent.dom().contains(q) ==> live_entities(
                *old(world),
            ).contains(q))) ==> r is Ok,
    {
        if !world_contains(world, parent) {
            return Err(HierarchyError::NoSuchEntity);
        }
        let e = world_spawn_empty(world);
        match self.attach(world, e, parent) {
            Ok(()) => Ok(e),
            Err(err) => {
                proof {
                    let m = old(self)@;
                    let live0 = live_entities(*old(world));
                    assert(live_entities(*world).contains(e) && live_entities(*world).contains(
                        parent,
                    ));
                    assert(err != HierarchyError::NoSuchEntity);
                    // under an all-live hierarchy the fresh handle collides
                    // with nothing, so neither error can arise
                    if live0.contains(parent) && (forall|q: u64| #[trigger] m.children.dom().contains(
                        q,
                    ) ==> live0.contains(q)) && (forall|q: u64| #[trigger] m.parent.dom().contains(
                        q,
                    ) ==> live0.contains(q)) {
                        assert(!m.parent.dom().contains(e));
                        lemma_chain_stays_live(
                            m.parent,
                            m.children,
                            live0,
                            parent,
                            e,
                            m.fuel,
                        );
                        assert(false);
                    }
                }
                Err(err)
            },
        }
    }

    /// Detach `e` from its parent, leaving `e`'s own subtree untouched.
    ///
    /// Detaching an entity that has no parent is a successful no-op. The only
    /// error is a stale handle. On success the model changes exactly by
    /// [`detach_m`].
    pub fn detach(&mut self, world: &hecs::World, e: u64) -> (r: Result<(), HierarchyError>)
        requires
            old(self).wf(),
        ensures
            final(self).wf(),
            ({
                let m = old(self)@;
                match r {
                    Ok(()) => live_entities(*world).contains(e) && final(self)@ == detach_m(m, e),
                    Err(HierarchyError::NoSuchEntity) => !live_entities(*world).contains(e)
                        && final(self)@ == m,
                    _ => false,
                }
            }),
    {
        if !world_contains(world, e) {
            return Err(HierarchyError::NoSuchEntity);
        }
        self.detach_links(e);
        Ok(())
    }

    /// Remove every link component of `x`, without restoring well-formedness:
    /// a building block of the subtree removal of [`Self::despawn_all`].
    fn strip_links(&mut self, x: u64)
        requires
            old(self).parent_keys@.no_duplicates(),
            forall|k: u64| #[trigger] old(self).parent_keys@.contains(k) <==> old(self).parent_links@.dom().contains(k),
        ensures
            final(self).child_links@ == old(self).child_links@.remove(x),
            final(self).parent_links@ == old(self).parent_links@.remove(x),
            final(self).gchildren@ == old(self).gchildren@.remove(x),
            final(self).gfuel@ == old(self).gfuel@,
            final(self).parent_keys@.no_duplicates(),
            forall|k: u64| #[trigger] final(self).parent_keys@.contains(k) <==> final(self).parent_links@.dom().contains(k),
    {
        self.child_links.remove(&x);
        let has_pl = self.parent_links.contains_key(&x);
        if has_pl {
            self.parent_links.remove(&x);
            remove_parent_key(&mut self.parent_keys, x);
        } else {
            proof {
                assert(self.parent_links@.remove(x) =~= self.parent_links@);
            }
        }
        self.gchildren = Ghost(self.gchildren@.remove(x));
    }

    /// Despawn `e` and its whole subtree: detach `e` from its parent, then
    /// remove every member of the subtree from the hierarchy and destroy it
    /// in the world.
    ///
    /// The only error is a stale root handle. On success the model loses
    /// exactly the subtree of `e` (in the detached state `detach_m(m, e)`,
    /// whose subtree equals the original one), and the world loses exactly
    /// those entities.
    #[verifier::rlimit(100)]
    pub fn despawn_all(&mut self, world: &mut hecs::World, e: u64) -> (r: Result<
        (),
        HierarchyError,
    >)
        requires
            old(self).wf(),
        ensures
            final(self).wf(),
            ({
                let m = old(self)@;
                let m1 = detach_m(m, e);
                let gone = descendants_spec(m, e).to_set().insert(e);
                match r {
                    Ok(()) => {
                        &&& live_entities(*old(world)).contains(e)
                        &&& live_entities(*final(world)) == live_entities(*old(world)).difference(
                            gone,
                        )
                        &&& final(self)@.children == m1.children.remove_keys(gone)
                        &&& final(self)@.parent == m1.parent.remove_keys(gone)
                        &&& final(self)@.fuel == m.fuel
                    },
                    Err(HierarchyError::NoSuchEntity) => {
                        &&& !live_entities(*old(world)).contains(e)
                        &&& live_entities(*final(world)) == live_entities(*old(world))
                        &&& final(self)@ == m
                    },
                    _ => false,
                }
            }),
    {
        let ghost live0 = live_entities(*world);
        let was_live = world_despawn(world, e);
        if !was_live {
            proof {
                assert(live_entities(*world) =~= live0);
            }
            return Err(HierarchyError::NoSuchEntity);
        }
        self.detach_links(e);
        let desc = self.descendants_depth_first(e);
        let ghost m1 = self@;
        let ghost dseq = desc@;
        let ghost gone = dseq.to_set().insert(e);
        let ghost clb = self.child_links@;
        let ghost plb = self.parent_links@;
        let ghost chb = m1.children;
        let ghost liveb = live_entities(*world);
        proof {
            self.lemma_wf_model();
            crate::lemmas::lemma_subtree_stable(old(self)@, e);
            assert(dseq == descendants_spec(old(self)@, e));
            lemma_visit_members(m1.children, kid_seq(m1.children, e), m1.fuel, dseq);
            assert forall|i: int| 0 <= i < kid_seq(m1.children, e).len() implies m1.parent.dom().contains(
                #[trigger] kid_seq(m1.children, e)[i],
            ) && m1.parent[kid_seq(m1.children, e)[i]] == e by {
                assert(m1.children.dom().contains(e));
            }
            lemma_visit_parents(
                m1.children,
                m1.parent,
                kid_seq(m1.children, e),
                m1.fuel,
                dseq,
                e,
            );
            // `e` itself is no longer linked as a child
            assert(!self.child_links@.dom().contains(e)) by {
                if m1.parent.dom().contains(e) {
                    assert(detach_m(old(self)@, e).parent == old(self)@.parent.remove(e));
                }
            }
        }
        self.strip_links(e);
        proof {
            assert(self.child_links@ =~= clb);
            assert(self.child_links@ =~= clb.remove_keys(dseq.take(0).to_set()));
            assert(self.parent_links@ =~= plb.remove(e).remove_keys(dseq.take(0).to_set()));
            assert(self.gchildren@ =~= chb.remove(e).remove_keys(dseq.take(0).to_set()));
        }
        let ghost plc = plb.remove(e);
        let ghost chc = chb.remove(e);
        let mut i: usize = 0;
        while i < desc.len()
            invariant
                0 <= i <= dseq.len(),
                dseq == desc@,
                self.child_links@ == clb.remove_keys(dseq.take(i as int).to_set()),
                self.parent_links@ == plc.remove_keys(dseq.take(i as int).to_set()),
                self.gchildren@ == chc.remove_keys(dseq.take(i as int).to_set()),
                self.gfuel@ == m1.fuel,
                self.parent_keys@.no_duplicates(),
                forall|k: u64| #[trigger] self.parent_keys@.contains(k)
                    <==> self.parent_links@.dom().contains(k),
                live_entities(*world) == liveb.difference(dseq.take(i as int).to_set()),
            decreases dseq.len() - i,
        {
            let x = desc[i];
            let ghost t0 = dseq.take(i as int).to_set();
            self.strip_links(x);
            let was = world_despawn(world, x);
            i = i + 1;
            proof {
                lemma_take_push(dseq, i - 1);
                let t1 = dseq.take(i as int).to_set();
                assert(t1 =~= t0.insert(x));
                assert(clb.remove_keys(t0).remove(x) =~= clb.remove_keys(t1));
                assert(plc.remove_keys(t0).remove(x) =~= plc.remove_keys(t1));
                assert(chc.remove_keys(t0).remove(x) =~= chc.remove_keys(t1));
                assert(liveb.difference(t0).remove(x) =~= liveb.difference(t1));
            }
        }
        proof {
            assert(dseq.take(dseq.len() as int) =~= dseq);
            let t = dseq.to_set();
            let cl2 = self.child_links@;
            let pl2 = self.parent_links@;
            let ch2 = self.gchildren@;
            let pm1 = m1.parent;
            let pm2 = pmap(cl2);
            // the final maps are the detached maps without the subtree
            assert(cl2 == clb.remove_keys(t));
            assert(ch2 =~= chb.remove_keys(gone));
            assert(pl2 =~= plb.remove_keys(gone));
            assert(pm2 =~= pm1.remove_keys(gone)) by {
                assert(!clb.dom().contains(e));
                assert(forall|c: u64| #[trigger] cl2.dom().contains(c) ==> clb.dom().contains(c)
                    && cl2[c] == clb[c]);
            }
            assert(self@.children == detach_m(old(self)@, e).children.remove_keys(gone));
            assert(self@.parent == detach_m(old(self)@, e).parent.remove_keys(gone));
            // world: both removal passes together delete exactly the subtree
            assert(live_entities(*world) =~= live0.difference(gone)) by {
                assert(live_entities(*world) == liveb.difference(t));
                assert(liveb == live0.remove(e));
            }
            // remaining sibling lists never reach into the removed subtree
            assert forall|q: u64, c: u64|
                ch2.dom().contains(q) && #[trigger] chb[q].contains(c) && #[trigger] gone.contains(
                c,
            ) implies false by {
                assert(chb[q] == m1.children[q]);
                assert(clb.dom().contains(c));
                assert(c != e);
                assert(dseq.contains(c));
                assert(pm1.dom().contains(c) && (pm1[c] == e || dseq.contains(pm1[c])));
                assert(pm1[c] == q);
                assert(!gone.contains(q));
            }
            // well-formedness of the stripped state
            assert(pl2.dom() =~= ch2.dom());
            assert forall|q: u64| #[trigger] ch2.dom().contains(q) implies ch2[q].len() >= 1
                && pl2[q].first_child == ch2[q][0] && pl2[q].num_children == ch2[q].len() by {
                assert(ch2[q] == chb[q] && pl2[q] == plb[q]);
            }
            assert forall|q: u64, j: int|
                ch2.dom().contains(q) && 0 <= j < ch2[q].len() implies #[trigger] ring_ok(
                cl2,
                q,
                ch2[q],
                j,
            ) by {
                assert(ch2[q] == chb[q]);
                assert(ring_ok(clb, q, chb[q], j));
                let c = chb[q][j];
                assert(chb[q].contains(c));
                assert(!gone.contains(c));
                assert(cl2[c] == clb[c]);
                assert(ring_ok(cl2, q, ch2[q], j));
            }
            assert forall|c: u64| #[trigger] cl2.dom().contains(c) implies ch2.dom().contains(
                cl2[c].parent,
            ) && ch2[cl2[c].parent].contains(c) by {
                let q = clb[c].parent;
                assert(cl2[c] == clb[c]);
                assert(chb.dom().contains(q) && chb[q].contains(c));
                assert(!gone.contains(q)) by {
                    if q == e {
                        assert(kid_seq(m1.children, e).contains(c)) by {
                            assert(m1.children.dom().contains(e));
                        }
                        let j = choose|j: int|
                            0 <= j < kid_seq(m1.children, e).len() && kid_seq(m1.children, e)[j]
                                == c;
                        assert(dseq.contains(kid_seq(m1.children, e)[j]));
                        assert(gone.contains(c));
                        assert(!dseq.to_set().contains(c) && c != e);
                    }
                    if q != e && dseq.contains(q) {
                        let j = choose|j: int|
                            0 <= j < kid_seq(m1.children, q).len() && kid_seq(m1.children, q)[j]
                                == c;
                        assert(dseq.contains(kid_seq(m1.children, q)[j]));
                        assert(!dseq.to_set().contains(c) && c != e);
                    }
                }
                assert(ch2[q] == chb[q]);
            }
            // model invariant of the stripped state
            assert forall|q: u64, j: int|
                ch2.dom().contains(q) && 0 <= j < ch2[q].len() implies {
                &&& pm2.dom().contains(#[trigger] ch2[q][j])
                &&& pm2[ch2[q][j]] == q
            } by {
                assert(ch2[q] == chb[q]);
                let c = chb[q][j];
                assert(chb[q].contains(c));
                assert(!gone.contains(c));
                assert(pm1.dom().contains(c) && pm1[c] == q);
            }
            assert forall|q: u64, j: int, k: int|
                #![trigger ch2[q][j], ch2[q][k]]
                ch2.dom().contains(q) && 0 <= j < ch2[q].len() && 0 <= k < ch2[q].len() && j
                    != k implies ch2[q][j] != ch2[q][k] by {
                assert(ch2[q] == chb[q]);
            }
            assert forall|c: u64| #[trigger] pm2.dom().contains(c) implies rooted(
                pm2,
                c,
                self@.fuel,
            ) by {
                assert(pm1.dom().contains(c) && rooted(pm1, c, m1.fuel));
                lemma_rooted_submap(pm1, pm2, c, m1.fuel);
            }
        }
        Ok(())
    }

    /// Unlink `e` from its parent's circular sibling list; a no-op if `e`
    /// has no parent.
    #[verifier::rlimit(100)]
    fn detach_links(&mut self, e: u64)
        requires
            old(self).wf(),
        ensures
            final(self).wf(),
            final(self)@ == detach_m(old(self)@, e),
    {
        let ghost m0 = self@;
        let ghost cl0 = self.child_links@;
        let ghost pl0 = self.parent_links@;
        let has_link = self.child_links.contains_key(&e);
        if !has_link {
            proof {
                assert(self@ == detach_m(m0, e));
            }
            return ;
        }
        let l = *self.child_links.get(&e).unwrap();
        let p = l.parent;
        proof {
            assert(m0.children.dom().contains(p) && m0.children[p].contains(e));
        }
        let pl = *self.parent_links.get(&p).unwrap();
        let ghost s = m0.children[p];
        let ghost i = choose|j: int| 0 <= j < s.len() && s[j] == e;
        proof {
            assert forall|j: int| 0 <= j < s.len() && s[j] == e implies j == i by {
                if j != i {
                    assert(s[j] != s[i]);
                }
            }
            lemma_remove_once_at(s, e, i);
        }
        let ghost s2 = remove_once(s, e);
        if pl.num_children == 1 {
            proof {
                assert(s.len() == 1 && i == 0);
                assert(s2 =~= Seq::<u64>::empty());
            }
            self.child_links.remove(&e);
            self.parent_links.remove(&p);
            remove_parent_key(&mut self.parent_keys, p);
            self.gchildren = Ghost(m0.children.remove(p));
            proof {
                let ch0 = m0.children;
                let ch2 = self.gchildren@;
                let cl2 = self.child_links@;
                let pl2 = self.parent_links@;
                let pm2 = pmap(cl2);
                assert(pm2 =~= m0.parent.remove(e));
                assert(self@ == detach_m(m0, e));
                assert(pl2.dom() =~= ch2.dom());
                assert forall|q: u64| #[trigger] ch2.dom().contains(q) implies ch2[q].len() >= 1
                    && pl2[q].first_child == ch2[q][0] && pl2[q].num_children == ch2[q].len() by {
                    assert(ch2[q] == ch0[q] && pl2[q] == pl0[q]);
                }
                assert forall|q: u64, j: int|
                    ch2.dom().contains(q) && 0 <= j < ch2[q].len() implies #[trigger] ring_ok(
                    cl2,
                    q,
                    ch2[q],
                    j,
                ) by {
                    assert(q != p && ch2[q] == ch0[q]);
                    assert(ring_ok(cl0, q, ch0[q], j));
                    let c = ch0[q][j];
                    assert(cl0.dom().contains(c) && cl0[c].parent == q);
                    assert(c != e) by {
                        if c == e {
                            assert(cl0[e].parent == p);
                        }
                    }
                    assert(cl2[c] == cl0[c]);
                    assert(ring_ok(cl2, q, ch2[q], j));
                }
                assert forall|c: u64| #[trigger] cl2.dom().contains(c) implies ch2.dom().contains(
                    cl2[c].parent,
                ) && ch2[cl2[c].parent].contains(c) by {
                    let q = cl0[c].parent;
                    assert(c != e && cl2[c] == cl0[c]);
                    assert(ch0.dom().contains(q) && ch0[q].contains(c));
                    assert(q != p) by {
                        if q == p {
                            let j = choose|j: int| 0 <= j < s.len() && s[j] == c;
                            assert(s[j] == c && s.len() == 1);
                        }
                    }
                    assert(ch2[q] == ch0[q]);
                }
                lemma_detach_model_inv(m0, e);
            }
        } else {
            let nxt = l.next;
            let prv = l.prev;
            let ghost n = s.len() as int;
            proof {
                assert(ring_ok(cl0, p, s, i));
                assert(nxt == s[next_idx(n, i)] && prv == s[prev_idx(n, i)]);
                assert(s.len() >= 2) by {
                    assert(pl.num_children == s.len());
                }
                if nxt == prv {
                    // with three or more entries the two neighbours differ
                    assert(next_idx(n, i) == prev_idx(n, i) ==> n == 2) by {
                        if next_idx(n, i) == prev_idx(n, i) && n != 2 {
                            assert(n >= 3);
                        }
                    }
                    if next_idx(n, i) != prev_idx(n, i) {
                        assert(s[next_idx(n, i)] != s[prev_idx(n, i)]);
                    }
                    assert(n == 2);
                } else {
                    assert(n >= 3) by {
                        if n == 2 {
                            assert(next_idx(2, i) == prev_idx(2, i));
                        }
                    }
                }
            }
            if nxt == prv {
                let ln = *self.child_links.get(&nxt).unwrap();
                self.child_links.insert(
                    nxt,
                    ChildLink { parent: ln.parent, next: nxt, prev: nxt },
                );
            } else {
                let ln = *self.child_links.get(&nxt).unwrap();
                let lp = *self.child_links.get(&prv).unwrap();
                self.child_links.insert(
                    nxt,
                    ChildLink { parent: ln.parent, next: ln.next, prev: prv },
                );
                self.child_links.insert(
                    prv,
                    ChildLink { parent: lp.parent, next: nxt, prev: lp.prev },
                );
            }
            self.child_links.remove(&e);
            let newf = if pl.first_child == e {
                nxt
            } else {
                pl.first_child
            };
            self.parent_links.insert(
                p,
                ParentLink { first_child: newf, num_children: pl.num_children - 1 },
            );
            self.gchildren = Ghost(m0.children.insert(p, s2));
            proof {
                let ch0 = m0.children;
                let ch2 = self.gchildren@;
                let cl2 = self.child_links@;
                let pl2 = self.parent_links@;
                let pm2 = pmap(cl2);
                let n2 = s2.len() as int;
                assert(n2 == n - 1);
                assert(forall|k: int| 0 <= k < i ==> s2[k] == s[k]);
                assert(forall|k: int| i <= k < n2 ==> s2[k] == s[k + 1]);
                assert(ring_ok(cl0, p, s, next_idx(n, i)));
                assert(ring_ok(cl0, p, s, prev_idx(n, i)));
                assert(nxt != e && prv != e) by {
                    if next_idx(n, i) == i || prev_idx(n, i) == i {
                        assert(n == 1);
                    }
                    assert(s[next_idx(n, i)] != s[i] && s[prev_idx(n, i)] != s[i]);
                }
                assert(pm2 =~= m0.parent.remove(e));
                assert(self@ == detach_m(m0, e));
                assert(pl2.dom() =~= ch2.dom());
                assert(ch2.dom() =~= ch0.dom());
                assert forall|q: u64| #[trigger] ch2.dom().contains(q) implies ch2[q].len() >= 1
                    && pl2[q].first_child == ch2[q][0] && pl2[q].num_children == ch2[q].len() by {
                    if q == p {
                        assert(ch2[p] == s2);
                        if i == 0 {
                            assert(pl.first_child == s[0] && s[0] == e);
                            assert(newf == nxt && next_idx(n, 0) == 1);
                            assert(s2[0] == s[1]);
                        } else {
                            assert(pl.first_child == s[0] && s[0] != e);
                            assert(s2[0] == s[0]);
                        }
                    } else {
                        assert(ch2[q] == ch0[q] && pl2[q] == pl0[q]);
                    }
                }
                assert forall|q: u64, j2: int|
                    ch2.dom().contains(q) && 0 <= j2 < ch2[q].len() implies #[trigger] ring_ok(
                    cl2,
                    q,
                    ch2[q],
                    j2,
                ) by {
                    if q == p {
                        assert(ch2[p] == s2);
                        let j = if j2 < i {
                            j2
                        } else {
                            j2 + 1
                        };
                        let c = s2[j2];
                        assert(c == s[j] && c != e);
                        assert(ring_ok(cl0, p, s, j));
                        if n == 2 {
                            assert(n2 == 1 && j2 == 0);
                            assert(c == nxt);
                            assert(cl2[c] == (ChildLink { parent: p, next: c, prev: c }));
                            assert(ring_ok(cl2, p, s2, j2));
                        } else {
                            if c == nxt {
                                assert(j == next_idx(n, i));
                                assert(cl2[c] == (ChildLink {
                                    parent: p,
                                    next: s[next_idx(n, next_idx(n, i))],
                                    prev: prv,
                                }));
                                if i < n - 1 {
                                    assert(j == i + 1 && j2 == i);
                                } else {
                                    assert(j == 0 && j2 == 0);
                                }
                                assert(s2[next_idx(n2, j2)] == s[next_idx(n, next_idx(n, i))]);
                                assert(s2[prev_idx(n2, j2)] == s[prev_idx(n, i)]);
                                assert(ring_ok(cl2, p, s2, j2));
                            } else if c == prv {
                                assert(j == prev_idx(n, i));
                                assert(cl2[c] == (ChildLink {
                                    parent: p,
                                    next: nxt,
                                    prev: s[prev_idx(n, prev_idx(n, i))],
                                }));
                                if i >= 1 {
                                    assert(j == i - 1 && j2 == i - 1);
                                } else {
                                    assert(j == n - 1 && j2 == n - 2);
                                }
                                assert(s2[next_idx(n2, j2)] == s[next_idx(n, i)]);
                                assert(s2[prev_idx(n2, j2)] == s[prev_idx(n, prev_idx(n, i))]);
                                assert(ring_ok(cl2, p, s2, j2));
                            } else {
                                assert(cl2[c] == cl0[c]);
                                assert(cl0[c] == (ChildLink {
                                    parent: p,
                                    next: s[next_idx(n, j)],
                                    prev: s[prev_idx(n, j)],
                                }));
                                assert(j != next_idx(n, i) && j != prev_idx(n, i));
                                assert(next_idx(n, j) != i) by {
                                    if next_idx(n, j) == i {
                                        assert(j == prev_idx(n, i));
                                        assert(s[j] == prv);
                                    }
                                }
                                assert(prev_idx(n, j) != i) by {
                                    if prev_idx(n, j) == i {
                                        assert(j == next_idx(n, i));
                                        assert(s[j] == nxt);
                                    }
                                }
                                assert(s2[next_idx(n2, j2)] == s[next_idx(n, j)]);
                                assert(s2[prev_idx(n2, j2)] == s[prev_idx(n, j)]);
                                assert(ring_ok(cl2, p, s2, j2));
                            }
                        }
                    } else {
                        assert(ch2[q] == ch0[q]);
                        assert(ring_ok(cl0, q, ch0[q], j2));
                        let c = ch0[q][j2];
                        assert(cl0.dom().contains(c) && cl0[c].parent == q);
                        assert(c != e && c != nxt && c != prv);
                        assert(cl2[c] == cl0[c]);
                        assert(ring_ok(cl2, q, ch2[q], j2));
                    }
                }
                assert forall|c: u64| #[trigger] cl2.dom().contains(c) implies ch2.dom().contains(
                    cl2[c].parent,
                ) && ch2[cl2[c].parent].contains(c) by {
                    let q = cl0[c].parent;
                    assert(c != e);
                    assert(cl2[c].parent == q);
                    assert(ch0.dom().contains(q) && ch0[q].contains(c));
                    if q == p {
                        let j = choose|j: int| 0 <= j < s.len() && s[j] == c;
                        assert(j != i);
                        if j < i {
                            assert(s2[j] == c);
                        } else {
                            assert(s2[j - 1] == c);
                        }
                        assert(ch2[p].contains(c));
                    } else {
                        assert(ch2[q] == ch0[q]);
                    }
                }
                lemma_detach_model_inv(m0, e);
            }
        }
    }
}

/// Remove the single occurrence of `p` from a duplicate-free list of keys.
fn remove_parent_key(keys: &mut Vec<u64>, p: u64)
    requires
        old(keys)@.no_duplicates(),
        old(keys)@.contains(p),
    ensures
        final(keys)@.no_duplicates(),
        forall|k: u64| #[trigger] final(keys)@.contains(k) <==> (old(keys)@.contains(k) && k != p),
{
    let ghost s0 = keys@;
    let mut idx: usize = 0;
    while idx < keys.len() && keys[idx] != p
        invariant
            keys@ == s0,
            0 <= idx <= s0.len(),
            forall|j: int| 0 <= j < idx ==> s0[j] != p,
        decreases s0.len() - idx,
    {
        idx = idx + 1;
    }
    proof {
        if idx == s0.len() {
            let w = choose|w: int| 0 <= w < s0.len() && s0[w] == p;
            assert(false);
        }
        assert(s0[idx as int] == p);
    }
    keys.remove(idx);
    proof {
        let s2 = keys@;
        assert(s2 =~= s0.subrange(0, idx as int) + s0.subrange(idx as int + 1, s0.len() as int));
        assert(forall|j: int| 0 <= j < idx ==> s2[j] == s0[j]);
        assert(forall|j: int| idx <= j < s2.len() ==> s2[j] == s0[j + 1]);
        assert forall|j: int, k: int|
            0 <= j < s2.len() && 0 <= k < s2.len() && j != k implies s2[j] != s2[k] by {
            let oj = if j < idx {
                j
            } else {
                j + 1
            };
            let ok = if k < idx {
                k
            } else {
                k + 1
            };
            assert(s2[j] == s0[oj] && s2[k] == s0[ok] && oj != ok);
        }
        assert(s2.no_duplicates());
        assert forall|k: u64| #[trigger] s2.contains(k) <==> (s0.contains(k) && k != p) by {
            if s2.contains(k) {
                let j = choose|j: int| 0 <= j < s2.len() && s2[j] == k;
                let oj = if j < idx {
                    j
                } else {
                    j + 1
                };
                assert(s0[oj] == k);
                assert(k != p) by {
                    if oj != idx {
                        assert(s0[oj] != s0[idx as int]);
                    }
                }
            }
            if s0.contains(k) && k != p {
                let j = choose|j: int| 0 <= j < s0.len() && s0[j] == k;
                assert(j != idx);
                if j < idx {
                    assert(s2[j] == k);
                } else {
                    assert(s2[j - 1] == k);
                }
            }
        }
    }
}

} // verus!
