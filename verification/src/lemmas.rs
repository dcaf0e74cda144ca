use vstd::prelude::*;

use crate::model::{HierarchyModel, model_inv, coupled, kid_seq, chain, rooted, attach_m, detach_m, remove_once, visit_list, kids_concat, bfs_list, descendants_spec};

verus! {

/// An ancestor chain is never empty and starts at its origin.
pub proof fn lemma_chain_first(pm: Map<u64, u64>, x: u64, f: nat)
    ensures
        chain(pm, x, f).len() >= 1,
        chain(pm, x, f)[0] == x,
{
    if !pm.dom().contains(x) || f == 0 {
    } else {
        assert(chain(pm, x, f) == seq![x] + chain(pm, pm[x], (f - 1) as nat));
    }
}

/// An ancestor chain cut off after `f` steps has at most `f + 1` entries.
pub proof fn lemma_chain_len(pm: Map<u64, u64>, x: u64, f: nat)
    ensures
        chain(pm, x, f).len() <= f + 1,
    decreases f,
{
    if !pm.dom().contains(x) || f == 0 {
    } else {
        lemma_chain_len(pm, pm[x], (f - 1) as nat);
    }
}

/// Unfolding a rooted chain one step: an entity with a parent is rooted
/// within `f` steps exactly when its parent is rooted within `f - 1`.
pub proof fn lemma_rooted_step(pm: Map<u64, u64>, x: u64, f: nat)
    requires
        rooted(pm, x, f),
        pm.dom().contains(x),
    ensures
        f >= 1,
        rooted(pm, pm[x], (f - 1) as nat),
{
    if f == 0 {
        assert(chain(pm, x, f) == seq![x]);
    } else {
        let tail = chain(pm, pm[x], (f - 1) as nat);
        lemma_chain_first(pm, pm[x], (f - 1) as nat);
        assert(chain(pm, x, f) == seq![x] + tail);
        assert(chain(pm, x, f).last() == tail.last());
    }
}

/// Folding one step back: a parent rooted within `f - 1` steps makes the
/// child rooted within `f`.
pub proof fn lemma_rooted_fold(pm: Map<u64, u64>, x: u64, f: nat)
    requires
        pm.dom().contains(x),
        f >= 1,
        rooted(pm, pm[x], (f - 1) as nat),
    ensures
        rooted(pm, x, f),
{
    let tail = chain(pm, pm[x], (f - 1) as nat);
    lemma_chain_first(pm, pm[x], (f - 1) as nat);
    assert(chain(pm, x, f) == seq![x] + tail);
    assert(chain(pm, x, f).last() == tail.last());
}

/// Beyond the fuel needed to reach a root, the chain no longer changes.
pub proof fn lemma_chain_fuel(pm: Map<u64, u64>, x: u64, f: nat, g: nat)
    requires
        rooted(pm, x, f),
        f <= g,
    ensures
        chain(pm, x, g) == chain(pm, x, f),
        rooted(pm, x, g),
    decreases f,
{
    if !pm.dom().contains(x) {
        assert(chain(pm, x, g) == seq![x]);
        assert(chain(pm, x, f) == seq![x]);
    } else {
        lemma_rooted_step(pm, x, f);
        lemma_chain_fuel(pm, pm[x], (f - 1) as nat, (g - 1) as nat);
        assert(chain(pm, x, f) == seq![x] + chain(pm, pm[x], (f - 1) as nat));
        assert(chain(pm, x, g) == seq![x] + chain(pm, pm[x], (g - 1) as nat));
        lemma_chain_first(pm, pm[x], (f - 1) as nat);
        assert(chain(pm, x, g).last() == chain(pm, pm[x], (g - 1) as nat).last());
    }
}

/// Adding a parent link for `c` does not change any chain that avoids `c`.
pub proof fn lemma_chain_insert_avoid(pm: Map<u64, u64>, x: u64, f: nat, c: u64, p: u64)
    requires
        !chain(pm, x, f).contains(c),
    ensures
        chain(pm.insert(c, p), x, f) == chain(pm, x, f),
    decreases f,
{
    let pm2 = pm.insert(c, p);
    lemma_chain_first(pm, x, f);
    assert(x != c) by {
        if x == c {
            assert(chain(pm, x, f)[0] == c);
        }
    }
    if !pm.dom().contains(x) || f == 0 {
        assert(chain(pm2, x, f) == seq![x]);
    } else {
        let tail = chain(pm, pm[x], (f - 1) as nat);
        assert(chain(pm, x, f) == seq![x] + tail);
        assert(!tail.contains(c)) by {
            if tail.contains(c) {
                let i = choose|i: int| 0 <= i < tail.len() && tail[i] == c;
                assert(chain(pm, x, f)[i + 1] == c);
            }
        }
        lemma_chain_insert_avoid(pm, pm[x], (f - 1) as nat, c, p);
        assert(chain(pm2, x, f) == seq![x] + chain(pm2, pm2[x], (f - 1) as nat));
    }
}

/// Adding a parent link for a previously parentless entity `c` keeps every
/// other entity rooted, with the fuel of both chains combined.
pub proof fn lemma_rooted_insert(pm: Map<u64, u64>, x: u64, f: nat, c: u64, p: u64, g: nat)
    requires
        rooted(pm, x, f),
        !pm.dom().contains(c),
        rooted(pm.insert(c, p), c, g),
    ensures
        rooted(pm.insert(c, p), x, f + g),
    decreases f,
{
    let pm2 = pm.insert(c, p);
    if !pm.dom().contains(x) {
        if x == c {
            lemma_chain_fuel(pm2, c, g, f + g);
        } else {
            assert(chain(pm2, x, f + g) == seq![x]);
        }
    } else {
        lemma_rooted_step(pm, x, f);
        lemma_rooted_insert(pm, pm[x], (f - 1) as nat, c, p, g);
        assert(pm2[x] == pm[x]);
        lemma_rooted_fold(pm2, x, f + g);
    }
}

/// Restricting the parent map (detaching or despawning entities) keeps every
/// remaining entity rooted within the same fuel.
pub proof fn lemma_rooted_submap(pm1: Map<u64, u64>, pm2: Map<u64, u64>, x: u64, f: nat)
    requires
        forall|k: u64| #[trigger] pm2.dom().contains(k) ==> pm1.dom().contains(k) && pm2[k] == pm1[k],
        rooted(pm1, x, f),
    ensures
        rooted(pm2, x, f),
    decreases f,
{
    if !pm2.dom().contains(x) {
        assert(chain(pm2, x, f) == seq![x]);
    } else {
        lemma_rooted_step(pm1, x, f);
        lemma_rooted_submap(pm1, pm2, pm1[x], (f - 1) as nat);
        lemma_rooted_fold(pm2, x, f);
    }
}

/// In a coupled, everywhere-rooted forest, a pre-order walk completes
/// whenever its fuel covers the remaining depth under the start frontier.
pub proof fn lemma_visit_completes(
    ch: Map<u64, Seq<u64>>,
    pm: Map<u64, u64>,
    skip: Set<u64>,
    es: Seq<u64>,
    f: nat,
    fl: nat,
)
    requires
        coupled(ch, pm),
        forall|x: u64| #[trigger] pm.dom().contains(x) ==> rooted(pm, x, fl),
        forall|i: int|
            0 <= i < es.len() ==> pm.dom().contains(#[trigger] es[i]) && f + chain(
                pm,
                es[i],
                fl,
            ).len() >= fl + 2,
    ensures
        visit_list(ch, skip, es, f).is_some(),
    decreases f, es.len(),
{
    if es.len() == 0 {
    } else if skip.contains(es[0]) {
        let es2 = es.drop_first();
        assert(forall|i: int| 0 <= i < es2.len() ==> es2[i] == es[i + 1]);
        lemma_visit_completes(ch, pm, skip, es2, f, fl);
    } else {
        let h = es[0];
        lemma_chain_len(pm, h, fl);
        assert(f >= 1);
        let ks = kid_seq(ch, h);
        assert forall|j: int| 0 <= j < ks.len() implies pm.dom().contains(ks[j]) && (f - 1)
            + chain(pm, ks[j], fl).len() >= fl + 2 by {
            let k = ks[j];
            assert(pm.dom().contains(k) && pm[k] == h);
            lemma_rooted_step(pm, k, fl);
            assert(chain(pm, k, fl) == seq![k] + chain(pm, h, (fl - 1) as nat));
            lemma_chain_fuel(pm, h, (fl - 1) as nat, fl);
        }
        lemma_visit_completes(ch, pm, skip, ks, (f - 1) as nat, fl);
        let es2 = es.drop_first();
        assert(forall|i: int| 0 <= i < es2.len() ==> es2[i] == es[i + 1]);
        lemma_visit_completes(ch, pm, skip, es2, f, fl);
    }
}

/// Every member of `kids_concat(ch, es)` is a child of some member of `es`.
pub proof fn lemma_kids_concat_mem(ch: Map<u64, Seq<u64>>, es: Seq<u64>, x: u64)
    requires
        kids_concat(ch, es).contains(x),
    ensures
        exists|i: int| 0 <= i < es.len() && kid_seq(ch, #[trigger] es[i]).contains(x),
    decreases es.len(),
{
    let hk = kid_seq(ch, es[0]);
    let rest = kids_concat(ch, es.drop_first());
    if hk.contains(x) {
        assert(kid_seq(ch, es[0]).contains(x));
    } else {
        assert(rest.contains(x)) by {
            let j = choose|j: int| 0 <= j < kids_concat(ch, es).len() && kids_concat(ch, es)[j] == x;
            assert(kids_concat(ch, es) == hk + rest);
            if j < hk.len() {
                assert(hk[j] == x);
            } else {
                assert(rest[j - hk.len()] == x);
            }
        }
        lemma_kids_concat_mem(ch, es.drop_first(), x);
        let i = choose|i: int|
            0 <= i < es.drop_first().len() && kid_seq(ch, es.drop_first()[i]).contains(x);
        assert(es.drop_first()[i] == es[i + 1]);
        assert(kid_seq(ch, es[i + 1]).contains(x));
    }
}

/// Level-order analogue of `lemma_visit_completes`.
pub proof fn lemma_bfs_completes(
    ch: Map<u64, Seq<u64>>,
    pm: Map<u64, u64>,
    es: Seq<u64>,
    f: nat,
    fl: nat,
)
    requires
        coupled(ch, pm),
        forall|x: u64| #[trigger] pm.dom().contains(x) ==> rooted(pm, x, fl),
        forall|i: int|
            0 <= i < es.len() ==> pm.dom().contains(#[trigger] es[i]) && f + chain(
                pm,
                es[i],
                fl,
            ).len() >= fl + 2,
    ensures
        bfs_list(ch, es, f).is_some(),
    decreases f,
{
    if es.len() == 0 {
    } else {
        lemma_chain_len(pm, es[0], fl);
        assert(f >= 1);
        let nxt = kids_concat(ch, es);
        assert forall|j: int| 0 <= j < nxt.len() implies pm.dom().contains(nxt[j]) && (f - 1)
            + chain(pm, nxt[j], fl).len() >= fl + 2 by {
            let k = nxt[j];
            assert(nxt.contains(k));
            lemma_kids_concat_mem(ch, es, k);
            let i = choose|i: int| 0 <= i < es.len() && kid_seq(ch, #[trigger] es[i]).contains(k);
            let h = es[i];
            assert(pm.dom().contains(k) && pm[k] == h);
            lemma_rooted_step(pm, k, fl);
            assert(chain(pm, k, fl) == seq![k] + chain(pm, h, (fl - 1) as nat));
            lemma_chain_fuel(pm, h, (fl - 1) as nat, fl);
        }
        lemma_bfs_completes(ch, pm, nxt, (f - 1) as nat, fl);
    }
}

/// `kids_concat` distributes over concatenation of frontiers.
pub proof fn lemma_kids_concat_app(ch: Map<u64, Seq<u64>>, a: Seq<u64>, b: Seq<u64>)
    ensures
        kids_concat(ch, a + b) == kids_concat(ch, a) + kids_concat(ch, b),
    decreases a.len(),
{
    if a.len() == 0 {
        assert(a + b =~= b);
        assert(kids_concat(ch, a) + kids_concat(ch, b) =~= kids_concat(ch, b));
    } else {
        assert((a + b).drop_first() =~= a.drop_first() + b);
        lemma_kids_concat_app(ch, a.drop_first(), b);
        assert(kids_concat(ch, a + b) == kid_seq(ch, a[0]) + (kids_concat(ch, a.drop_first())
            + kids_concat(ch, b)));
        assert(kid_seq(ch, a[0]) + (kids_concat(ch, a.drop_first()) + kids_concat(ch, b)) =~= (
        kid_seq(ch, a[0]) + kids_concat(ch, a.drop_first())) + kids_concat(ch, b));
    }
}

/// Consuming the leading part `a` of a level-order frontier: its entities
/// move to the output and their children join the back of the frontier.
pub proof fn lemma_bfs_shift(ch: Map<u64, Seq<u64>>, a: Seq<u64>, b: Seq<u64>, f: nat, x: Seq<u64>)
    requires
        bfs_list(ch, a + b, f) == Some(x),
    ensures
        bfs_list(ch, b + kids_concat(ch, a), f) == Some(x.skip(a.len() as int)),
    decreases f,
{
    let ab = a + b;
    let kca = kids_concat(ch, a);
    let kcb = kids_concat(ch, b);
    lemma_kids_concat_app(ch, a, b);
    if ab.len() == 0 {
        assert(a =~= Seq::<u64>::empty());
        assert(b =~= Seq::<u64>::empty());
        assert(kca =~= Seq::<u64>::empty());
        assert(b + kca =~= Seq::<u64>::empty());
        assert(x =~= Seq::<u64>::empty());
        assert(x.skip(0) =~= x);
    } else {
        let t = bfs_list(ch, kca + kcb, (f - 1) as nat);
        assert(bfs_list(ch, kids_concat(ch, ab), (f - 1) as nat) is Some);
        let tv = bfs_list(ch, kids_concat(ch, ab), (f - 1) as nat).unwrap();
        assert(x == ab + tv);
        assert(kids_concat(ch, ab) == kca + kcb);
        lemma_bfs_shift(ch, kca, kcb, (f - 1) as nat, tv);
        // bfs_list(ch, kcb + kids_concat(ch, kca), f - 1) == Some(tv.skip(|kca|))
        if (b + kca).len() == 0 {
            assert(b =~= Seq::<u64>::empty());
            assert(kca =~= Seq::<u64>::empty());
            assert(kca + kcb =~= kcb);
            assert(kcb =~= kids_concat(ch, ab)) by {
                assert(ab =~= a + b);
                assert(b =~= Seq::<u64>::empty());
                assert(a + b =~= a);
                assert(kids_concat(ch, ab) == kca + kcb);
                assert(kca + kcb =~= kcb);
            }
            // frontier b + kca is empty, so the walk yields the empty sequence
            assert(bfs_list(ch, b + kca, f) == Some(Seq::<u64>::empty()));
            // and x consists of ab alone followed by tv
            assert(kids_concat(ch, Seq::<u64>::empty()) == Seq::<u64>::empty());
            assert(x.skip(a.len() as int) =~= b + tv.skip(kca.len() as int)) by {
                assert(x == ab + tv);
            }
            assert(tv.skip(0) =~= tv);
            assert(bfs_list(ch, kcb + kids_concat(ch, kca), (f - 1) as nat) == Some(
                tv.skip(kca.len() as int),
            ));
            assert(kcb + kids_concat(ch, kca) =~= kids_concat(ch, ab) + kids_concat(
                ch,
                Seq::<u64>::empty(),
            ));
            assert(kids_concat(ch, ab) + kids_concat(ch, Seq::<u64>::empty()) =~= kids_concat(
                ch,
                ab,
            ));
            assert(tv.skip(kca.len() as int) =~= tv);
            assert(x.skip(a.len() as int) =~= tv);
        } else {
            assert(kids_concat(ch, b + kca) == kcb + kids_concat(ch, kca)) by {
                lemma_kids_concat_app(ch, b, kca);
            }
            assert(bfs_list(ch, b + kca, f) == Some((b + kca) + tv.skip(kca.len() as int)));
            // tv starts with kca
            assert(kca + tv.skip(kca.len() as int) =~= tv) by {
                if (kca + kcb).len() == 0 {
                    assert(kca =~= Seq::<u64>::empty());
                    assert(tv =~= Seq::<u64>::empty());
                } else {
                    let t3 = bfs_list(ch, kids_concat(ch, kca + kcb), (f - 2) as nat).unwrap();
                    assert(tv == (kca + kcb) + t3);
                    assert(forall|i: int| 0 <= i < kca.len() ==> tv[i] == kca[i]);
                }
            }
            assert((b + kca) + tv.skip(kca.len() as int) =~= b + tv);
            assert(x.skip(a.len() as int) =~= b + tv) by {
                assert(x == (a + b) + tv);
            }
        }
    }
}

/// Removing the first occurrence cuts the sequence at that position.
pub proof fn lemma_remove_once_at(s: Seq<u64>, x: u64, i: int)
    requires
        0 <= i < s.len(),
        s[i] == x,
        forall|j: int| 0 <= j < i ==> s[j] != x,
    ensures
        remove_once(s, x) == s.subrange(0, i) + s.subrange(i + 1, s.len() as int),
    decreases i,
{
    if i == 0 {
        assert(remove_once(s, x) == s.drop_first());
        assert(s.drop_first() =~= s.subrange(0, 0) + s.subrange(1, s.len() as int));
    } else {
        let t = s.drop_first();
        assert(forall|j: int| 0 <= j < i - 1 ==> t[j] == s[j + 1]);
        lemma_remove_once_at(t, x, i - 1);
        assert(remove_once(s, x) == seq![s[0]] + remove_once(t, x));
        assert(seq![s[0]] + (t.subrange(0, i - 1) + t.subrange(i, t.len() as int)) =~= s.subrange(
            0,
            i,
        ) + s.subrange(i + 1, s.len() as int));
    }
}

/// A detach preserves the model invariant.
pub proof fn lemma_detach_model_inv(m0: HierarchyModel, e: u64)
    requires
        model_inv(m0),
    ensures
        model_inv(detach_m(m0, e)),
{
    let m2 = detach_m(m0, e);
    if !m0.parent.dom().contains(e) {
    } else {
        let p = m0.parent[e];
        let s = kid_seq(m0.children, p);
        let ch0 = m0.children;
        let ch2 = m2.children;
        let pm0 = m0.parent;
        let pm2 = m2.parent;
        assert(ch0.dom().contains(p) && ch0[p].contains(e));
        let i = choose|i: int| 0 <= i < s.len() && s[i] == e;
        assert(forall|j: int| 0 <= j < i ==> s[j] != e);
        lemma_remove_once_at(s, e, i);
        let s2 = remove_once(s, e);
        assert(s2.len() == s.len() - 1);
        assert(forall|j: int| 0 <= j < i ==> s2[j] == s[j]);
        assert(forall|j: int| i <= j < s2.len() ==> s2[j] == s[j + 1]);
        assert forall|q: u64, j: int|
            ch2.dom().contains(q) && 0 <= j < ch2[q].len() implies {
            &&& pm2.dom().contains(#[trigger] ch2[q][j])
            &&& pm2[ch2[q][j]] == q
        } by {
            if q == p && s2.len() > 0 {
                assert(ch2[q] == s2);
                let c = s2[j];
                assert(c == s[if j < i {
                    j
                } else {
                    j + 1
                }]);
                assert(pm0.dom().contains(c) && pm0[c] == p);
                assert(c != e);
            } else {
                assert(ch2[q] == ch0[q]);
                assert(pm0.dom().contains(ch0[q][j]) && pm0[ch0[q][j]] == q);
                assert(ch0[q][j] != e) by {
                    if ch0[q][j] == e {
                        assert(pm0[e] == q && q != p);
                    }
                }
            }
        }
        assert forall|q: u64, j: int, k: int|
            #![trigger ch2[q][j], ch2[q][k]]
            ch2.dom().contains(q) && 0 <= j < ch2[q].len() && 0 <= k < ch2[q].len() && j
                != k implies ch2[q][j] != ch2[q][k] by {
            if q == p && s2.len() > 0 {
                let oj = if j < i {
                    j
                } else {
                    j + 1
                };
                let ok = if k < i {
                    k
                } else {
                    k + 1
                };
                assert(ch2[q][j] == s[oj] && ch2[q][k] == s[ok] && oj != ok);
            } else {
                assert(ch2[q] == ch0[q]);
            }
        }
        assert forall|c: u64| #[trigger] pm2.dom().contains(c) implies ch2.dom().contains(pm2[c])
            && ch2[pm2[c]].contains(c) by {
            assert(c != e);
            let q = pm0[c];
            assert(ch0.dom().contains(q) && ch0[q].contains(c));
            if q == p {
                let j = choose|j: int| 0 <= j < s.len() && s[j] == c;
                assert(j != i);
                if j < i {
                    assert(s2[j] == c);
                } else {
                    assert(s2[j - 1] == c);
                }
                assert(s2.contains(c));
                assert(s2.len() > 0);
            } else {
                assert(ch2[q] == ch0[q]);
            }
        }
        assert forall|c: u64| #[trigger] pm2.dom().contains(c) implies rooted(pm2, c, m2.fuel) by {
            assert(pm0.dom().contains(c) && rooted(pm0, c, m0.fuel));
            lemma_rooted_submap(pm0, pm2, c, m0.fuel);
        }
    }
}

/// An entity that is rooted is not its own parent.
pub proof fn lemma_rooted_no_self(pm: Map<u64, u64>, a: u64, f: nat)
    requires
        pm.dom().contains(a),
        rooted(pm, a, f),
    ensures
        pm[a] != a,
    decreases f,
{
    lemma_rooted_step(pm, a, f);
    if pm[a] == a {
        lemma_rooted_no_self(pm, a, (f - 1) as nat);
    }
}

/// An ancestor chain that starts at a live entity stays within the live set
/// whenever every entity with children is live, so it never reaches a handle
/// outside that set.
pub proof fn lemma_chain_stays_live(
    pm: Map<u64, u64>,
    ch: Map<u64, Seq<u64>>,
    live: Set<u64>,
    x: u64,
    e: u64,
    f: nat,
)
    requires
        coupled(ch, pm),
        live.contains(x),
        forall|q: u64| #[trigger] ch.dom().contains(q) ==> live.contains(q),
        !live.contains(e),
    ensures
        !chain(pm, x, f).contains(e),
    decreases f,
{
    if !pm.dom().contains(x) || f == 0 {
        if chain(pm, x, f).contains(e) {
            assert(chain(pm, x, f) == seq![x]);
            let i = choose|i: int| 0 <= i < chain(pm, x, f).len() && chain(pm, x, f)[i] == e;
            assert(e == x);
        }
    } else {
        assert(ch.dom().contains(pm[x]) && ch[pm[x]].contains(x));
        lemma_chain_stays_live(pm, ch, live, pm[x], e, (f - 1) as nat);
        let tail = chain(pm, pm[x], (f - 1) as nat);
        assert(chain(pm, x, f) == seq![x] + tail);
        if chain(pm, x, f).contains(e) {
            let i = choose|i: int| 0 <= i < chain(pm, x, f).len() && chain(pm, x, f)[i] == e;
            if i == 0 {
                assert(e == x);
            } else {
                assert(tail[i - 1] == e);
                assert(tail.contains(e));
            }
        }
    }
}

/// A set of entities whose parents all lie in the set again can never reach
/// a root.
pub proof fn lemma_stuck(pm: Map<u64, u64>, s: Set<u64>, x: u64, f: nat)
    requires
        forall|y: u64| #[trigger] s.contains(y) ==> pm.dom().contains(y) && s.contains(pm[y]),
        s.contains(x),
    ensures
        !rooted(pm, x, f),
    decreases f,
{
    if rooted(pm, x, f) {
        lemma_rooted_step(pm, x, f);
        lemma_stuck(pm, s, pm[x], (f - 1) as nat);
    }
}

/// A pre-order walk reads only the children of the entities it yields: over
/// a second children map that agrees on all of them it yields the same.
pub proof fn lemma_visit_same(
    ch: Map<u64, Seq<u64>>,
    ch2: Map<u64, Seq<u64>>,
    es: Seq<u64>,
    f: nat,
    d: Seq<u64>,
)
    requires
        visit_list(ch, Set::empty(), es, f) == Some(d),
        forall|y: u64| d.contains(y) ==> kid_seq(ch2, y) == kid_seq(ch, y),
    ensures
        visit_list(ch2, Set::empty(), es, f) == Some(d),
    decreases f, es.len(),
{
    if es.len() == 0 {
    } else {
        let h = es[0];
        assert(!Set::<u64>::empty().contains(h));
        assert(f >= 1) by {
            if f == 0 {
                assert(visit_list(ch, Set::empty(), es, f) is None);
            }
        }
        let sub = visit_list(ch, Set::empty(), kid_seq(ch, h), (f - 1) as nat);
        let rest = visit_list(ch, Set::empty(), es.drop_first(), f);
        assert(sub is Some && rest is Some);
        let sv = sub.unwrap();
        let rv = rest.unwrap();
        assert(d == seq![h] + sv + rv);
        assert((seq![h] + sv)[0] == h);
        assert(d[0] == h);
        assert(d.contains(h));
        assert forall|x: u64| sv.contains(x) implies d.contains(x) by {
            let j = choose|j: int| 0 <= j < sv.len() && sv[j] == x;
            assert(d[1 + j] == x);
        }
        assert forall|x: u64| rv.contains(x) implies d.contains(x) by {
            let j = choose|j: int| 0 <= j < rv.len() && rv[j] == x;
            assert(d[1 + sv.len() + j] == x);
        }
        lemma_visit_same(ch, ch2, kid_seq(ch, h), (f - 1) as nat, sv);
        lemma_visit_same(ch, ch2, es.drop_first(), f, rv);
        assert(kid_seq(ch2, h) == kid_seq(ch, h));
    }
}

/// Under a valid model, the walk of any entity's descendants completes.
pub proof fn lemma_descendants_complete(m: HierarchyModel, skip: Set<u64>, e: u64)
    requires
        model_inv(m),
    ensures
        visit_list(m.children, skip, kid_seq(m.children, e), m.fuel).is_some(),
{
    let ch = m.children;
    let pm = m.parent;
    let fl = m.fuel;
    assert forall|i: int| 0 <= i < kid_seq(ch, e).len() implies pm.dom().contains(
        #[trigger] kid_seq(ch, e)[i],
    ) && fl + chain(pm, kid_seq(ch, e)[i], fl).len() >= fl + 2 by {
        let k = kid_seq(ch, e)[i];
        assert(ch.dom().contains(e));
        assert(pm.dom().contains(k) && pm[k] == e);
        lemma_rooted_step(pm, k, fl);
        assert(chain(pm, k, fl) == seq![k] + chain(pm, pm[k], (fl - 1) as nat));
    }
    lemma_visit_completes(ch, pm, skip, kid_seq(ch, e), fl, fl);
}

/// Law (subtree survival under detach): detaching an entity leaves its whole
/// subtree in place — the depth-first descendants of the detached entity are
/// the same before and after.
pub proof fn lemma_subtree_stable(m: HierarchyModel, e: u64)
    requires
        model_inv(m),
    ensures
        kid_seq(detach_m(m, e).children, e) == kid_seq(m.children, e),
        descendants_spec(detach_m(m, e), e) == descendants_spec(m, e),
        visit_list(
            detach_m(m, e).children,
            Set::empty(),
            kid_seq(detach_m(m, e).children, e),
            detach_m(m, e).fuel,
        ).is_some(),
{
    let m1 = detach_m(m, e);
    if !m.parent.dom().contains(e) {
        lemma_descendants_complete(m, Set::empty(), e);
    } else {
        let pm = m.parent;
        let ch = m.children;
        let fl = m.fuel;
        let p0 = pm[e];
        lemma_rooted_no_self(pm, e, fl);
        assert(p0 != e);
        lemma_descendants_complete(m, Set::empty(), e);
        let d = descendants_spec(m, e);
        assert(visit_list(ch, Set::empty(), kid_seq(ch, e), fl) == Some(d));
        assert forall|i: int| 0 <= i < kid_seq(ch, e).len() implies pm.dom().contains(
            #[trigger] kid_seq(ch, e)[i],
        ) && pm[kid_seq(ch, e)[i]] == e by {
            assert(ch.dom().contains(e));
        }
        lemma_visit_parents(ch, pm, kid_seq(ch, e), fl, d, e);
        // the detached entity's parent is not among its own descendants
        assert(!d.contains(p0)) by {
            if d.contains(p0) {
                let s = d.to_set().insert(e);
                assert forall|y: u64| #[trigger] s.contains(y) implies pm.dom().contains(y)
                    && s.contains(pm[y]) by {
                    if y == e {
                        assert(d.to_set().contains(p0));
                    } else {
                        assert(d.contains(y));
                        if pm[y] == e {
                        } else {
                            assert(d.contains(pm[y]));
                        }
                    }
                }
                lemma_stuck(pm, s, e, fl);
            }
        }
        // the only changed children entry is that of the parent
        assert forall|y: u64| d.contains(y) implies kid_seq(m1.children, y) == kid_seq(ch, y) by {
            assert(y != p0);
        }
        lemma_visit_same(ch, m1.children, kid_seq(ch, e), fl, d);
        assert(kid_seq(m1.children, e) == kid_seq(ch, e));
    }
}

/// Taking one more element adds exactly that element to the prefix set.
pub proof fn lemma_take_push(s: Seq<u64>, i: int)
    requires
        0 <= i < s.len(),
    ensures
        s.take(i + 1).to_set() =~= s.take(i).to_set().insert(s[i]),
{
    assert forall|z: u64| s.take(i + 1).to_set().contains(z) implies s.take(i).to_set().insert(
        s[i],
    ).contains(z) by {
        let j = choose|j: int| 0 <= j < s.take(i + 1).len() && #[trigger] s.take(i + 1)[j] == z;
        if j < i {
            assert(s.take(i)[j] == z);
            assert(s.take(i).contains(z));
        } else {
            assert(z == s[i]);
        }
    }
    assert forall|z: u64| s.take(i).to_set().insert(s[i]).contains(z) implies s.take(
        i + 1,
    ).to_set().contains(z) by {
        if z == s[i] {
            assert(s.take(i + 1)[i] == z);
            assert(s.take(i + 1).contains(z));
        } else {
            assert(s.take(i).contains(z));
            let j = choose|j: int| 0 <= j < s.take(i).len() && #[trigger] s.take(i)[j] == z;
            assert(s.take(i + 1)[j] == z);
            assert(s.take(i + 1).contains(z));
        }
    }
}

/// An unpruned pre-order walk yields its whole frontier, and is closed under
/// taking children.
pub proof fn lemma_visit_members(ch: Map<u64, Seq<u64>>, es: Seq<u64>, f: nat, d: Seq<u64>)
    requires
        visit_list(ch, Set::empty(), es, f) == Some(d),
    ensures
        forall|i: int| 0 <= i < es.len() ==> d.contains(#[trigger] es[i]),
        forall|y: u64, j: int|
            d.contains(y) && 0 <= j < kid_seq(ch, y).len() ==> d.contains(
                #[trigger] kid_seq(ch, y)[j],
            ),
    decreases f, es.len(),
{
    if es.len() == 0 {
    } else {
        let h = es[0];
        assert(!Set::<u64>::empty().contains(h));
        assert(f >= 1) by {
            if f == 0 {
                assert(visit_list(ch, Set::empty(), es, f) is None);
            }
        }
        let sub = visit_list(ch, Set::empty(), kid_seq(ch, h), (f - 1) as nat);
        let rest = visit_list(ch, Set::empty(), es.drop_first(), f);
        assert(sub is Some && rest is Some);
        let sv = sub.unwrap();
        let rv = rest.unwrap();
        assert(d == seq![h] + sv + rv);
        lemma_visit_members(ch, kid_seq(ch, h), (f - 1) as nat, sv);
        lemma_visit_members(ch, es.drop_first(), f, rv);
        assert(d[0] == h);
        assert(d.contains(h));
        assert forall|x: u64| sv.contains(x) implies d.contains(x) by {
            let j = choose|j: int| 0 <= j < sv.len() && sv[j] == x;
            assert(d[1 + j] == x);
        }
        assert forall|x: u64| rv.contains(x) implies d.contains(x) by {
            let j = choose|j: int| 0 <= j < rv.len() && rv[j] == x;
            assert(d[1 + sv.len() + j] == x);
        }
        assert forall|i: int| 0 <= i < es.len() implies d.contains(#[trigger] es[i]) by {
            if i > 0 {
                assert(es.drop_first()[i - 1] == es[i]);
                assert(rv.contains(es[i]));
            }
        }
        assert forall|y: u64, j: int|
            d.contains(y) && 0 <= j < kid_seq(ch, y).len() implies d.contains(
            #[trigger] kid_seq(ch, y)[j],
        ) by {
            let k = choose|k: int| 0 <= k < d.len() && d[k] == y;
            if k == 0 {
                assert(y == h);
                assert(sv.contains(kid_seq(ch, h)[j]));
            } else if k <= sv.len() {
                assert(sv[k - 1] == y);
                assert(sv.contains(y));
                assert(sv.contains(kid_seq(ch, y)[j]));
            } else {
                assert(rv[k - 1 - sv.len()] == y);
                assert(rv.contains(y));
                assert(rv.contains(kid_seq(ch, y)[j]));
            }
        }
    }
}

/// Every entity yielded by an unpruned pre-order walk has a parent, and that
/// parent is `top` (the common parent of the frontier) or itself yielded.
pub proof fn lemma_visit_parents(
    ch: Map<u64, Seq<u64>>,
    pm: Map<u64, u64>,
    es: Seq<u64>,
    f: nat,
    d: Seq<u64>,
    top: u64,
)
    requires
        coupled(ch, pm),
        visit_list(ch, Set::empty(), es, f) == Some(d),
        forall|i: int| 0 <= i < es.len() ==> pm.dom().contains(#[trigger] es[i]) && pm[es[i]] == top,
    ensures
        forall|y: u64| #[trigger]
            d.contains(y) ==> pm.dom().contains(y) && (pm[y] == top || d.contains(pm[y])),
    decreases f, es.len(),
{
    if es.len() == 0 {
    } else {
        let h = es[0];
        assert(!Set::<u64>::empty().contains(h));
        assert(f >= 1) by {
            if f == 0 {
                assert(visit_list(ch, Set::empty(), es, f) is None);
            }
        }
        let sub = visit_list(ch, Set::empty(), kid_seq(ch, h), (f - 1) as nat);
        let rest = visit_list(ch, Set::empty(), es.drop_first(), f);
        assert(sub is Some && rest is Some);
        let sv = sub.unwrap();
        let rv = rest.unwrap();
        assert(d == seq![h] + sv + rv);
        assert forall|i: int| 0 <= i < kid_seq(ch, h).len() implies pm.dom().contains(
            #[trigger] kid_seq(ch, h)[i],
        ) && pm[kid_seq(ch, h)[i]] == h by {
            assert(ch.dom().contains(h));
        }
        lemma_visit_parents(ch, pm, kid_seq(ch, h), (f - 1) as nat, sv, h);
        assert(forall|i: int|
            0 <= i < es.drop_first().len() ==> pm.dom().contains(#[trigger] es.drop_first()[i])
                && pm[es.drop_first()[i]] == top);
        lemma_visit_parents(ch, pm, es.drop_first(), f, rv, top);
        assert(d[0] == h);
        assert forall|x: u64| sv.contains(x) implies d.contains(x) by {
            let j = choose|j: int| 0 <= j < sv.len() && sv[j] == x;
            assert(d[1 + j] == x);
        }
        assert forall|x: u64| rv.contains(x) implies d.contains(x) by {
            let j = choose|j: int| 0 <= j < rv.len() && rv[j] == x;
            assert(d[1 + sv.len() + j] == x);
        }
        assert forall|y: u64| #[trigger] d.contains(y) implies pm.dom().contains(y) && (pm[y] == top
            || d.contains(pm[y])) by {
            let k = choose|k: int| 0 <= k < d.len() && d[k] == y;
            if k == 0 {
            } else if k <= sv.len() {
                assert(sv[k - 1] == y);
                assert(sv.contains(y));
                assert(d.contains(h));
            } else {
                assert(rv[k - 1 - sv.len()] == y);
                assert(rv.contains(y));
            }
        }
    }
}

/// A permitted attach (fresh child, no occurrence of the child on the
/// parent's ancestor chain) preserves the model invariant.
pub proof fn lemma_attach_model_inv(m0: HierarchyModel, child: u64, parent: u64)
    requires
        model_inv(m0),
        !m0.parent.dom().contains(child),
        !chain(m0.parent, parent, m0.fuel).contains(child),
    ensures
        model_inv(attach_m(m0, child, parent)),
{
    let m2 = attach_m(m0, child, parent);
    let ch0 = m0.children;
    let ch2 = m2.children;
    let pm0 = m0.parent;
    let pm2 = m2.parent;
    let s2 = kid_seq(ch0, parent).push(child);
    assert(ch2[parent] == s2);
    // the sibling lists stay coupled with the parent map
    assert forall|p: u64, i: int|
        ch2.dom().contains(p) && 0 <= i < ch2[p].len() implies {
        &&& pm2.dom().contains(#[trigger] ch2[p][i])
        &&& pm2[ch2[p][i]] == p
    } by {
        if p == parent {
            if i < s2.len() - 1 {
                assert(s2[i] == kid_seq(ch0, parent)[i]);
                assert(pm0.dom().contains(s2[i]) && pm0[s2[i]] == parent);
                assert(s2[i] != child);
            } else {
                assert(s2[i] == child);
            }
        } else {
            assert(ch2[p] == ch0[p]);
            assert(pm0.dom().contains(ch2[p][i]) && pm0[ch2[p][i]] == p);
            assert(ch2[p][i] != child);
        }
    }
    assert forall|p: u64, i: int, j: int|
        #![trigger ch2[p][i], ch2[p][j]]
        ch2.dom().contains(p) && 0 <= i < ch2[p].len() && 0 <= j < ch2[p].len() && i != j implies ch2[p][i]
        != ch2[p][j] by {
        if p == parent {
            if i < s2.len() - 1 && j < s2.len() - 1 {
                assert(kid_seq(ch0, parent)[i] != kid_seq(ch0, parent)[j]);
            } else if i == s2.len() - 1 {
                assert(s2[j] == kid_seq(ch0, parent)[j]);
                assert(pm0.dom().contains(s2[j]));
            } else {
                assert(s2[i] == kid_seq(ch0, parent)[i]);
                assert(pm0.dom().contains(s2[i]));
            }
        } else {
            assert(ch2[p] == ch0[p]);
        }
    }
    assert forall|c: u64| #[trigger] pm2.dom().contains(c) implies ch2.dom().contains(pm2[c])
        && ch2[pm2[c]].contains(c) by {
        if c == child {
            assert(s2[s2.len() - 1] == child);
            assert(ch2[parent].contains(child));
        } else {
            assert(pm0.dom().contains(c) && pm2[c] == pm0[c]);
            if pm0[c] == parent {
                assert(ch0.dom().contains(parent));
                assert(ch0[parent].contains(c));
                let i = choose|i: int| 0 <= i < ch0[parent].len() && ch0[parent][i] == c;
                assert(s2[i] == c);
                assert(ch2[parent].contains(c));
            } else {
                assert(ch2[pm0[c]] == ch0[pm0[c]]);
            }
        }
    }
    // acyclicity: every entity stays rooted within the doubled fuel
    let fl = m0.fuel;
    assert(rooted(pm0, parent, fl)) by {
        if !pm0.dom().contains(parent) {
            assert(chain(pm0, parent, fl) == seq![parent]);
        }
    }
    lemma_chain_insert_avoid(pm0, parent, fl, child, parent);
    assert(rooted(pm2, parent, fl)) by {
        let l = chain(pm0, parent, fl).last();
        assert(chain(pm0, parent, fl).contains(l)) by {
            lemma_chain_first(pm0, parent, fl);
            let k = chain(pm0, parent, fl).len() - 1;
            assert(chain(pm0, parent, fl)[k] == l);
        }
        assert(l != child);
        assert(!pm2.dom().contains(l));
    }
    lemma_rooted_fold(pm2, child, (fl + 1) as nat);
    assert forall|c: u64| #[trigger] pm2.dom().contains(c) implies rooted(pm2, c, m2.fuel) by {
        if c == child {
            lemma_chain_fuel(pm2, child, (fl + 1) as nat, m2.fuel);
        } else {
            lemma_rooted_insert(pm0, c, fl, child, parent, (fl + 1) as nat);
            lemma_chain_fuel(pm2, c, (fl + fl + 1) as nat, m2.fuel);
        }
    }
}

} // verus!
