use vstd::prelude::*;

use crate::hierarchy::Hierarchy;
use crate::lemmas::{lemma_bfs_completes, lemma_bfs_shift, lemma_descendants_complete, lemma_rooted_step};
use crate::model::{bfs_list, chain, descendants_bfs_spec, descendants_spec, dfs_list, kid_seq, kids_concat, visit_list, visit_spec};

verus! {

/// Whether `x` occurs in `v`.
pub fn vec_contains(v: &Vec<u64>, x: u64) -> (r: bool)
    ensures
        r == v@.contains(x),
{
    let mut i: usize = 0;
    while i < v.len()
        invariant
            0 <= i <= v@.len(),
            forall|j: int| 0 <= j < i ==> v@[j] != x,
        decreases v@.len() - i,
    {
        if v[i] == x {
            return true;
        }
        i = i + 1;
    }
    proof {
        if v@.contains(x) {
            let j = choose|j: int| 0 <= j < v@.len() && v@[j] == x;
            assert(false);
        }
    }
    false
}

/// The walks still owed by a stack of (children, next position) frames, top
/// frame first.
pub open spec fn stack_work(
    ch: Map<u64, Seq<u64>>,
    skip: Set<u64>,
    frames: Seq<(Vec<u64>, usize)>,
    fuels: Seq<nat>,
) -> Option<Seq<u64>>
    decreases frames.len(),
{
    if frames.len() == 0 {
        Some(Seq::empty())
    } else {
        let top = frames.last();
        let rem = top.0@.skip(top.1 as int);
        match visit_list(ch, skip, rem, fuels.last()) {
            None => None,
            Some(w) => match stack_work(ch, skip, frames.drop_last(), fuels.drop_last()) {
                None => None,
                Some(rest) => Some(w + rest),
            },
        }
    }
}

/// How many children are still unvisited across all frames.
pub open spec fn frames_rem(frames: Seq<(Vec<u64>, usize)>) -> nat
    decreases frames.len(),
{
    if frames.len() == 0 {
        0
    } else {
        let d = frames.last().0@.len() - frames.last().1;
        frames_rem(frames.drop_last()) + (if d >= 0 {
            d
        } else {
            0
        }) as nat
    }
}

impl Hierarchy {
    /// The descendants of `root` in depth-first pre-order, with the subtree
    /// of every entity listed in `skip` pruned: a pruned entity is neither
    /// yielded nor descended into. `root` itself is not yielded and not
    /// subject to pruning.
    ///
    /// The pruning predicate is a plain list of entities: a caller that gates
    /// on component data of the world computes that list first and hands it
    /// in, so the walk itself stays a pure function of the hierarchy.
    #[verifier::rlimit(100)]
    pub fn visit(&self, root: u64, skip: &Vec<u64>) -> (r: Vec<u64>)
        requires
            self.wf(),
        ensures
            visit_list(self@.children, skip@.to_set(), kid_seq(self@.children, root), self@.fuel)
                == Some(r@),
            r@ == visit_spec(self@, skip@.to_set(), root),
    {
        let ghost ch = self@.children;
        let ghost pm = self@.parent;
        let ghost fl = self@.fuel;
        let ghost sk = skip@.to_set();
        proof {
            self.lemma_wf_model();
            lemma_descendants_complete(self@, sk, root);
        }
        let ghost total = visit_spec(self@, sk, root);
        let first_frame = self.children(root);
        let mut stack: Vec<(Vec<u64>, usize)> = Vec::new();
        stack.push((first_frame, 0));
        let ghost mut fuels: Seq<nat> = seq![fl];
        let mut r: Vec<u64> = Vec::new();
        let ghost mut w = total;
        proof {
            assert(stack@.last() == (first_frame, 0usize));
            assert(stack@.last().0@.skip(0) =~= kid_seq(ch, root));
            assert(stack@.drop_last().len() == 0);
            assert(stack_work(ch, sk, stack@.drop_last(), fuels.drop_last()) == Some(
                Seq::<u64>::empty(),
            ));
            assert(visit_list(ch, sk, kid_seq(ch, root), fl) == Some(total));
            assert(total + Seq::<u64>::empty() =~= total);
            assert(stack_work(ch, sk, stack@, fuels) == Some(w));
        }
        while stack.len() != 0
            invariant
                self.wf(),
                ch == self@.children,
                pm == self@.parent,
                fl == self@.fuel,
                sk == skip@.to_set(),
                fuels.len() == stack@.len(),
                forall|j: int| 0 <= j < stack@.len() ==> #[trigger] stack@[j].1 <= stack@[j].0@.len(),
                stack_work(ch, sk, stack@, fuels) == Some(w),
                total == r@ + w,
            decreases w.len(), frames_rem(stack@), stack@.len(),
        {
            let ghost stack0 = stack@;
            let ghost fuels0 = fuels;
            let (fv, pos) = stack.pop().unwrap();
            let ghost ft = fuels.last();
            let ghost rem = fv@.skip(pos as int);
            proof {
                fuels = fuels.drop_last();
                assert(stack0.last() == (fv, pos));
                assert(stack0.drop_last() == stack@);
            }
            if pos == fv.len() {
                proof {
                    assert(rem =~= Seq::<u64>::empty());
                    assert(visit_list(ch, sk, rem, ft) == Some(Seq::<u64>::empty()));
                    let rest = stack_work(ch, sk, stack@, fuels);
                    assert(rest is Some);
                    assert(Seq::<u64>::empty() + rest.unwrap() =~= rest.unwrap());
                    assert(frames_rem(stack0) == frames_rem(stack@));
                }
            } else {
                let c = fv[pos];
                proof {
                    assert(rem[0] == c);
                    assert(rem.drop_first() =~= fv@.skip(pos as int + 1));
                }
                let in_skip = vec_contains(skip, c);
                if in_skip {
                    proof {
                        assert(sk.contains(c));
                        let wtop = visit_list(ch, sk, rem, ft);
                        let rest = stack_work(ch, sk, stack0.drop_last(), fuels0.drop_last());
                        assert(wtop is Some && rest is Some && w == wtop.unwrap() + rest.unwrap());
                    }
                    stack.push((fv, pos + 1));
                    proof {
                        fuels = fuels.push(ft);
                        let wtop = visit_list(ch, sk, rem, ft);
                        let rest = stack_work(ch, sk, stack0.drop_last(), fuels0.drop_last());
                        assert(visit_list(ch, sk, rem, ft) == visit_list(
                            ch,
                            sk,
                            rem.drop_first(),
                            ft,
                        ));
                        assert(stack@.drop_last() == stack0.drop_last());
                        assert(fuels.drop_last() == fuels0.drop_last());
                        assert(stack@.last() == (fv, (pos + 1) as usize));
                        assert(stack@.last().0@.skip(stack@.last().1 as int) =~= rem.drop_first());
                        assert(stack_work(ch, sk, stack@, fuels) == Some(w));
                        assert(frames_rem(stack@) < frames_rem(stack0)) by {
                            assert(pos < fv@.len());
                            assert(stack0.last().0@.len() - stack0.last().1 >= 1);
                            assert(frames_rem(stack@) == frames_rem(stack0.drop_last()) + (
                            fv@.len() - (pos + 1)));
                            assert(frames_rem(stack0) == frames_rem(stack0.drop_last()) + (
                            fv@.len() - pos));
                        }
                    }
                } else {
                    r.push(c);
                    let kids = self.children(c);
                    stack.push((fv, pos + 1));
                    stack.push((kids, 0));
                    proof {
                        assert(!sk.contains(c));
                        // the owed walk of the old top frame is not exhausted
                        let wtop = visit_list(ch, sk, rem, ft);
                        let rest0 = stack_work(ch, sk, stack0.drop_last(), fuels0.drop_last());
                        assert(wtop is Some && rest0 is Some && w == wtop.unwrap()
                            + rest0.unwrap());
                        assert(ft >= 1) by {
                            if ft == 0 {
                                assert(wtop is None);
                            }
                        }
                        let sub = visit_list(ch, sk, kid_seq(ch, c), (ft - 1) as nat);
                        let restf = visit_list(ch, sk, rem.drop_first(), ft);
                        assert(sub is Some && restf is Some);
                        assert(wtop.unwrap() == seq![c] + sub.unwrap() + restf.unwrap());
                        let restopt = stack_work(ch, sk, stack0.drop_last(), fuels0.drop_last());
                        assert(restopt is Some && w == wtop.unwrap() + restopt.unwrap());
                        let rest = restopt.unwrap();
                        fuels = fuels.push(ft).push((ft - 1) as nat);
                        assert(stack@.drop_last().drop_last() == stack0.drop_last());
                        assert(fuels.drop_last().drop_last() == fuels0.drop_last());
                        assert(stack@.drop_last().last() == (fv, (pos + 1) as usize));
                        assert(stack@.drop_last().last().0@.skip(
                            stack@.drop_last().last().1 as int,
                        ) =~= rem.drop_first());
                        assert(stack@.last() == (kids, 0usize));
                        assert(stack@.last().0@.skip(0) =~= kid_seq(ch, c));
                        assert(fuels.drop_last().last() == ft);
                        assert(fuels.last() == (ft - 1) as nat);
                        assert(stack_work(ch, sk, stack@.drop_last(), fuels.drop_last()) == Some(
                            restf.unwrap() + rest,
                        ));
                        assert(stack_work(ch, sk, stack@, fuels) == Some(
                            sub.unwrap() + (restf.unwrap() + rest),
                        ));
                        // the yielded entity is the head of the owed output
                        assert(w == wtop.unwrap() + rest);
                        assert(w =~= seq![c] + (sub.unwrap() + (restf.unwrap() + rest)));
                        assert(w[0] == c);
                        w = w.drop_first();
                        assert(r@ + w =~= total);
                    }
                }
            }
        }
        proof {
            assert(stack_work(ch, sk, stack@, fuels) == Some(Seq::<u64>::empty()));
            assert(w =~= Seq::<u64>::empty());
            assert(r@ =~= total);
        }
        r
    }

    /// The descendants of `root` in depth-first pre-order, `root` excluded.
    pub fn descendants_depth_first(&self, root: u64) -> (r: Vec<u64>)
        requires
            self.wf(),
        ensures
            dfs_list(self@.children, kid_seq(self@.children, root), self@.fuel) == Some(r@),
            r@ == descendants_spec(self@, root),
    {
        let skip: Vec<u64> = Vec::new();
        proof {
            assert(skip@.to_set() =~= Set::<u64>::empty());
        }
        self.visit(root, &skip)
    }

    /// The descendants of `root` in level order, `root` excluded.
    #[verifier::rlimit(100)]
    pub fn descendants_breadth_first(&self, root: u64) -> (r: Vec<u64>)
        requires
            self.wf(),
        ensures
            bfs_list(self@.children, kid_seq(self@.children, root), self@.fuel) == Some(r@),
            r@ == descendants_bfs_spec(self@, root),
    {
        let ghost ch = self@.children;
        let ghost pm = self@.parent;
        let ghost fl = self@.fuel;
        proof {
            self.lemma_wf_model();
            assert forall|i: int| 0 <= i < kid_seq(ch, root).len() implies pm.dom().contains(
                #[trigger] kid_seq(ch, root)[i],
            ) && fl + chain(pm, kid_seq(ch, root)[i], fl).len() >= fl + 2 by {
                let k = kid_seq(ch, root)[i];
                assert(ch.dom().contains(root));
                assert(pm.dom().contains(k) && pm[k] == root);
                lemma_rooted_step(pm, k, fl);
                assert(chain(pm, k, fl) == seq![k] + chain(pm, pm[k], (fl - 1) as nat));
            }
            lemma_bfs_completes(ch, pm, kid_seq(ch, root), fl, fl);
        }
        let ghost total = descendants_bfs_spec(self@, root);
        let mut queue: Vec<u64> = self.children(root);
        let mut head: usize = 0;
        let mut r: Vec<u64> = Vec::new();
        let ghost mut w = total;
        proof {
            assert(queue@.skip(0) =~= kid_seq(ch, root));
        }
        while head < queue.len()
            invariant
                self.wf(),
                ch == self@.children,
                pm == self@.parent,
                fl == self@.fuel,
                head <= queue@.len(),
                bfs_list(ch, queue@.skip(head as int), fl) == Some(w),
                total == r@ + w,
            decreases w.len(),
        {
            let ghost q0 = queue@;
            let ghost h0 = head as int;
            let e = queue[head];
            head = head + 1;
            r.push(e);
            let mut kids = self.children(e);
            proof {
                let rem0 = q0.skip(h0);
                assert(rem0[0] == e);
                assert(seq![e] + q0.skip(h0 + 1) =~= rem0);
                lemma_bfs_shift(ch, seq![e], q0.skip(h0 + 1), fl, w);
                assert(kids_concat(ch, seq![e]) =~= kid_seq(ch, e)) by {
                    assert(seq![e].drop_first() =~= Seq::<u64>::empty());
                    assert(kids_concat(ch, Seq::<u64>::empty()) == Seq::<u64>::empty());
                    assert(kids_concat(ch, seq![e]) == kid_seq(ch, e) + kids_concat(
                        ch,
                        seq![e].drop_first(),
                    ));
                    assert(kid_seq(ch, e) + Seq::<u64>::empty() =~= kid_seq(ch, e));
                }
                assert(q0.skip(h0 + 1) + kids_concat(ch, seq![e]) =~= q0.skip(h0 + 1) + kid_seq(
                    ch,
                    e,
                ));
                // the yielded entity heads the owed output
                assert(w == rem0 + bfs_list(ch, kids_concat(ch, rem0), (fl - 1) as nat).unwrap());
                assert(w[0] == e);
            }
            queue.append(&mut kids);
            proof {
                assert(queue@.skip(head as int) =~= q0.skip(h0 + 1) + kid_seq(ch, e));
                w = w.drop_first();
                assert(bfs_list(ch, queue@.skip(head as int), fl) == Some(w)) by {
                    assert(w =~= bfs_list(ch, q0.skip(h0 + 1) + kids_concat(ch, seq![e]), fl).unwrap().skip(0));
                }
                assert(r@ + w =~= total);
            }
        }
        proof {
            assert(queue@.skip(head as int) =~= Seq::<u64>::empty());
            assert(w =~= Seq::<u64>::empty());
            assert(r@ =~= total);
        }
        r
    }
}

} // verus!
