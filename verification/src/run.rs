//! The reduction engine: the single interaction step (annihilation,
//! commutation, and wire substitution) and the loop that drives a net
//! towards normal form. Every step preserves the wire-multiplicity
//! invariant.

use vstd::prelude::*;

use crate::store::{
    lemma_num_full_update, lemma_slots_count_append, lemma_slots_count_update, num_full, WireSlot,
};
use crate::tree::{lemma_pairs_count_append, pairs_count, Net, Tree};

verus! {

/// The four pending pairs pushed when two agents of distinct labels
/// commute: each child of one side meets a copy of the other side whose
/// ports are fresh wires, paired bit-for-bit.
pub open spec fn commute_pairs(a: Tree, b: Tree, n: usize) -> Seq<(Tree, Tree)>
    recommends
        a is Binary,
        b is Binary,
        n + 3 <= usize::MAX,
{
    seq![
        (a.left(), Tree::bin(b.lbl(), Tree::var(n), Tree::var((n + 1) as usize))),
        (a.right(), Tree::bin(b.lbl(), Tree::var((n + 2) as usize), Tree::var((n + 3) as usize))),
        (b.left(), Tree::bin(a.lbl(), Tree::var(n), Tree::var((n + 2) as usize))),
        (b.right(), Tree::bin(a.lbl(), Tree::var((n + 1) as usize), Tree::var((n + 3) as usize))),
    ]
}

/// What one interaction does to the pending pairs and the wire store. A
/// reference whose cell is occupied cascades: the cell is retired and the
/// occupant interacts in its place, so the outcome equals interacting the
/// occupant directly. Every link of such a cascade retires one occupied
/// cell, so any fuel above `num_full(ss)` is enough.
pub open spec fn interact_fuel(
    rs: Seq<(Tree, Tree)>,
    ss: Seq<WireSlot>,
    a: Tree,
    b: Tree,
    fuel: nat,
) -> (Seq<(Tree, Tree)>, Seq<WireSlot>)
    decreases fuel,
{
    if a is Var {
        let id = a.vid();
        if id < ss.len() && ss[id as int] is Full {
            if fuel == 0 {
                (rs, ss)
            } else {
                match ss[id as int] {
                    WireSlot::Full(y) => interact_fuel(
                        rs,
                        ss.update(id as int, WireSlot::Vacant),
                        y,
                        b,
                        (fuel - 1) as nat,
                    ),
                    _ => (rs, ss),
                }
            }
        } else {
            (rs, ss.update(id as int, WireSlot::Full(b)))
        }
    } else if b is Var {
        let id = b.vid();
        if id < ss.len() && ss[id as int] is Full {
            if fuel == 0 {
                (rs, ss)
            } else {
                match ss[id as int] {
                    WireSlot::Full(y) => interact_fuel(
                        rs,
                        ss.update(id as int, WireSlot::Vacant),
                        a,
                        y,
                        (fuel - 1) as nat,
                    ),
                    _ => (rs, ss),
                }
            }
        } else {
            (rs, ss.update(id as int, WireSlot::Full(a)))
        }
    } else if a.lbl() == b.lbl() {
        (rs.push((a.left(), b.left())).push((a.right(), b.right())), ss)
    } else {
        (
            rs + commute_pairs(a, b, ss.len() as usize),
            ss + seq![WireSlot::Open, WireSlot::Open, WireSlot::Open, WireSlot::Open],
        )
    }
}

/// One interaction with always-sufficient fuel.
pub open spec fn interact_step(rs: Seq<(Tree, Tree)>, ss: Seq<WireSlot>, a: Tree, b: Tree) -> (
    Seq<(Tree, Tree)>,
    Seq<WireSlot>,
) {
    interact_fuel(rs, ss, a, b, num_full(ss) + 1)
}

/// Any two fuels above the number of occupied cells interact identically.
pub proof fn lemma_interact_fuel_stable(
    rs: Seq<(Tree, Tree)>,
    ss: Seq<WireSlot>,
    a: Tree,
    b: Tree,
    f1: nat,
    f2: nat,
)
    requires
        f1 > num_full(ss),
        f2 > num_full(ss),
    ensures
        interact_fuel(rs, ss, a, b, f1) == interact_fuel(rs, ss, a, b, f2),
    decreases f1 + f2,
{
    if a is Var && a.vid() < ss.len() && ss[a.vid() as int] is Full {
        match ss[a.vid() as int] {
            WireSlot::Full(y) => {
                lemma_num_full_update(ss, a.vid() as int, WireSlot::Vacant);
                lemma_interact_fuel_stable(
                    rs,
                    ss.update(a.vid() as int, WireSlot::Vacant),
                    y,
                    b,
                    (f1 - 1) as nat,
                    (f2 - 1) as nat,
                );
            }
            _ => {}
        }
    } else if !(a is Var) && b is Var && b.vid() < ss.len() && ss[b.vid() as int] is Full {
        match ss[b.vid() as int] {
            WireSlot::Full(y) => {
                lemma_num_full_update(ss, b.vid() as int, WireSlot::Vacant);
                lemma_interact_fuel_stable(
                    rs,
                    ss.update(b.vid() as int, WireSlot::Vacant),
                    a,
                    y,
                    (f1 - 1) as nat,
                    (f2 - 1) as nat,
                );
            }
            _ => {}
        }
    }
}

/// What popping and interacting the most recently queued pair does.
pub open spec fn step_spec(rs: Seq<(Tree, Tree)>, ss: Seq<WireSlot>) -> (
    Seq<(Tree, Tree)>,
    Seq<WireSlot>,
)
    recommends
        rs.len() > 0,
{
    interact_step(rs.drop_last(), ss, rs.last().0, rs.last().1)
}

/// What driving a net for at most `fuel` steps does: pending pairs and
/// store after the run, and whether the pending list was emptied. A run
/// stops short, reporting not done, when the steps run out or when one
/// more commutation could exhaust the wire ids.
pub open spec fn run_spec(rs: Seq<(Tree, Tree)>, ss: Seq<WireSlot>, fuel: nat) -> (
    Seq<(Tree, Tree)>,
    Seq<WireSlot>,
    bool,
)
    decreases fuel,
{
    if rs.len() == 0 {
        (rs, ss, true)
    } else if fuel == 0 {
        (rs, ss, false)
    } else if ss.len() > usize::MAX - 4 {
        (rs, ss, false)
    } else {
        let (rs2, ss2) = step_spec(rs, ss);
        run_spec(rs2, ss2, (fuel - 1) as nat)
    }
}

/// A run reports done exactly when it emptied the pending list.
pub proof fn lemma_run_spec_done(rs: Seq<(Tree, Tree)>, ss: Seq<WireSlot>, fuel: nat)
    ensures
        run_spec(rs, ss, fuel).2 == (run_spec(rs, ss, fuel).0.len() == 0),
    decreases fuel,
{
    if rs.len() == 0 {
    } else if fuel == 0 {
    } else if ss.len() > usize::MAX - 4 {
    } else {
        let (rs2, ss2) = step_spec(rs, ss);
        lemma_run_spec_done(rs2, ss2, (fuel - 1) as nat);
    }
}

impl Net {
    /// Allocate one fresh wire and return both of its ends.
    fn wire(&mut self) -> (r: (usize, usize))
        requires
            old(self).vars@.len() < usize::MAX,
        ensures
            r.0 == r.1,
            r.0 == old(self).vars@.len(),
            final(self).vars@ == old(self).vars@.push(WireSlot::Open),
            final(self).root == old(self).root,
            final(self).redexes@ == old(self).redexes@,
    {
        let key = self.vars.fresh();
        (key, key)
    }

    /// Allocate one fresh wire and return both ends as reference nodes.
    fn wire_tree(&mut self) -> (r: (Tree, Tree))
        requires
            old(self).vars@.len() < usize::MAX,
        ensures
            r.0 == r.1,
            r.0 == Tree::var(old(self).vars@.len() as usize),
            final(self).vars@ == old(self).vars@.push(WireSlot::Open),
            final(self).root == old(self).root,
            final(self).redexes@ == old(self).redexes@,
    {
        let (a, b) = self.wire();
        (Tree::Var { id: a }, Tree::Var { id: b })
    }

    /// Queue a pending pair.
    fn link(&mut self, a: Tree, b: Tree)
        ensures
            final(self).redexes@ == old(self).redexes@.push((a, b)),
            final(self).vars@ == old(self).vars@,
            final(self).root == old(self).root,
    {
        self.redexes.push((a, b));
    }

    /// Apply one interaction to the pair `(a, b)`. Two agents of equal
    /// label annihilate into two child pairs; two agents of distinct
    /// labels commute through four fresh wires; a wire reference either
    /// deposits the other side into its open cell or cascades into the
    /// value the cell already holds.
    fn interact(&mut self, a: Tree, b: Tree)
        requires
            old(self).wf_with(a, b),
            old(self).vars@.len() + 4 <= usize::MAX,
        ensures
            final(self).wf(),
            final(self).root == old(self).root,
            a is Binary && b is Binary && a.lbl() == b.lbl() ==> final(self).vars@ == old(self).vars@ && final(self).redexes@ == old(self).redexes@ + seq![
                (a.left(), b.left()),
                (a.right(), b.right()),
            ],
            a is Binary && b is Binary && a.lbl() != b.lbl() ==> final(self).vars@ == old(self).vars@ + seq![WireSlot::Open, WireSlot::Open, WireSlot::Open, WireSlot::Open] && final(self).redexes@ == old(self).redexes@ + commute_pairs(
                a,
                b,
                old(self).vars@.len() as usize,
            ),
            a is Var && old(self).vars.spec_slot(a.vid()) is Open ==> final(self).vars@ == old(self).vars@.update(a.vid() as int, WireSlot::Full(b)) && final(self).redexes@ == old(self).redexes@,
            a is Binary && b is Var && old(self).vars.spec_slot(b.vid()) is Open ==> final(self).vars@ == old(self).vars@.update(b.vid() as int, WireSlot::Full(a)) && final(self).redexes@ == old(self).redexes@,
            (final(self).redexes@, final(self).vars@) == interact_step(
                old(self).redexes@,
                old(self).vars@,
                a,
                b,
            ),
        decreases num_full(old(self).vars@),
    {
        match (a, b) {
            (Tree::Var { id }, b) => {
                let ghost a = Tree::var(id);
                assert(self.count(id) + a.count(id) + b.count(id) == self.expected(id));
                assert(a.count(id) == 1);
                if self.vars.is_full(id) {
                    let ghost vars0 = self.vars@;
                    let y = self.vars.take(id);
                    proof {
                        lemma_num_full_update(vars0, id as int, WireSlot::Vacant);
                        assert forall|j: usize| #[trigger] self.count(j) + y.count(j) + b.count(j)
                            == self.expected(j) by {
                            lemma_slots_count_update(vars0, id as int, WireSlot::Vacant, j);
                            assert(old(self).count(j) + a.count(j) + b.count(j) == old(self).expected(j));
                        }
                    }
                    self.interact(y, b);
                    proof {
                        let ss1 = vars0.update(id as int, WireSlot::Vacant);
                        lemma_interact_fuel_stable(
                            old(self).redexes@,
                            ss1,
                            y,
                            b,
                            num_full(ss1) + 1,
                            num_full(vars0),
                        );
                        assert((final(self).redexes@, final(self).vars@) == interact_step(
                            old(self).redexes@,
                            old(self).vars@,
                            Tree::var(id),
                            b,
                        ));
                    }
                } else {
                    assert(old(self).vars.spec_slot(id) is Open);
                    let ghost vars0 = self.vars@;
                    self.vars.put(id, b);
                    proof {
                        assert forall|j: usize| #[trigger] self.count(j) == self.expected(j) by {
                            lemma_slots_count_update(vars0, id as int, WireSlot::Full(b), j);
                            assert(old(self).count(j) + a.count(j) + b.count(j) == old(self).expected(j));
                        }
                        assert((final(self).redexes@, final(self).vars@) == interact_step(
                            old(self).redexes@,
                            old(self).vars@,
                            Tree::var(id),
                            b,
                        ));
                    }
                }
            }
            (a, Tree::Var { id }) => {
                let ghost b = Tree::var(id);
                assert(self.count(id) + a.count(id) + b.count(id) == self.expected(id));
                assert(b.count(id) == 1);
                if self.vars.is_full(id) {
                    let ghost vars0 = self.vars@;
                    let y = self.vars.take(id);
                    proof {
                        lemma_num_full_update(vars0, id as int, WireSlot::Vacant);
                        assert forall|j: usize| #[trigger] self.count(j) + a.count(j) + y.count(j)
                            == self.expected(j) by {
                            lemma_slots_count_update(vars0, id as int, WireSlot::Vacant, j);
                            assert(old(self).count(j) + a.count(j) + b.count(j) == old(self).expected(j));
                        }
                    }
                    self.interact(a, y);
                    proof {
                        let ss1 = vars0.update(id as int, WireSlot::Vacant);
                        lemma_interact_fuel_stable(
                            old(self).redexes@,
                            ss1,
                            a,
                            y,
                            num_full(ss1) + 1,
                            num_full(vars0),
                        );
                        assert((final(self).redexes@, final(self).vars@) == interact_step(
                            old(self).redexes@,
                            old(self).vars@,
                            a,
                            Tree::var(id),
                        ));
                    }
                } else {
                    assert(old(self).vars.spec_slot(id) is Open);
                    let ghost vars0 = self.vars@;
                    self.vars.put(id, a);
                    proof {
                        assert forall|j: usize| #[trigger] self.count(j) == self.expected(j) by {
                            lemma_slots_count_update(vars0, id as int, WireSlot::Full(a), j);
                            assert(old(self).count(j) + a.count(j) + b.count(j) == old(self).expected(j));
                        }
                        assert((final(self).redexes@, final(self).vars@) == interact_step(
                            old(self).redexes@,
                            old(self).vars@,
                            a,
                            Tree::var(id),
                        ));
                    }
                }
            }
            (Tree::Binary { label: a0, p1: a1, p2: a2 }, Tree::Binary { label: b0, p1: b1, p2: b2 }) => {
                let ghost a = Tree::Binary { label: a0, p1: a1, p2: a2 };
                let ghost b = Tree::Binary { label: b0, p1: b1, p2: b2 };
                if a0 == b0 {
                    let ghost redexes0 = self.redexes@;
                    self.link(*a1, *b1);
                    self.link(*a2, *b2);
                    proof {
                        let pushed = seq![(a.left(), b.left()), (a.right(), b.right())];
                        assert(self.redexes@ =~= redexes0 + pushed);
                        assert forall|j: usize| #[trigger] self.count(j) == self.expected(j) by {
                            lemma_pairs_count_append(redexes0, pushed, j);
                            assert(pairs_count(pushed, j) == a.left().count(j) + b.left().count(j)
                                + a.right().count(j) + b.right().count(j)) by {
                                reveal_with_fuel(pairs_count, 4);
                            }
                            assert(old(self).count(j) + a.count(j) + b.count(j) == old(self).expected(j));
                        }
                        assert(redexes0 + pushed =~= redexes0.push((a.left(), b.left())).push(
                            (a.right(), b.right()),
                        ));
                        assert((final(self).redexes@, final(self).vars@) == interact_step(
                            old(self).redexes@,
                            old(self).vars@,
                            a,
                            b,
                        ));
                    }
                } else {
                    let ghost redexes0 = self.redexes@;
                    let ghost vars0 = self.vars@;
                    let ghost n = self.vars@.len() as usize;
                    let (a11, b11) = self.wire_tree();
                    let (a12, b12) = self.wire_tree();
                    let (a21, b21) = self.wire_tree();
                    let (a22, b22) = self.wire_tree();
                    self.link(*a1, Tree::Binary { label: b0, p1: Box::new(a11), p2: Box::new(a12) });
                    self.link(*a2, Tree::Binary { label: b0, p1: Box::new(a21), p2: Box::new(a22) });
                    self.link(*b1, Tree::Binary { label: a0, p1: Box::new(b11), p2: Box::new(b21) });
                    self.link(*b2, Tree::Binary { label: a0, p1: Box::new(b12), p2: Box::new(b22) });
                    proof {
                        let fresh = seq![WireSlot::Open, WireSlot::Open, WireSlot::Open, WireSlot::Open];
                        let pushed = commute_pairs(a, b, n);
                        assert(self.vars@ =~= vars0 + fresh);
                        assert(self.redexes@ =~= redexes0 + pushed);
                        assert forall|j: usize| #[trigger] self.count(j) == self.expected(j) by {
                            lemma_slots_count_append(vars0, fresh, j);
                            assert(crate::store::slots_count(fresh, j) == 0) by {
                                reveal_with_fuel(crate::store::slots_count, 6);
                            }
                            lemma_pairs_count_append(redexes0, pushed, j);
                            assert(pairs_count(pushed, j) == a.left().count(j) + b.left().count(j)
                                + a.right().count(j) + b.right().count(j) + new_var_count(n, j)) by {
                                reveal_with_fuel(pairs_count, 6);
                                reveal_with_fuel(Tree::count, 4);
                            }
                            assert(old(self).count(j) + a.count(j) + b.count(j) == old(self).expected(j));
                        }
                        assert((final(self).redexes@, final(self).vars@) == interact_step(
                            old(self).redexes@,
                            old(self).vars@,
                            a,
                            b,
                        ));
                    }
                }
            }
        }
    }

    /// Pop the most recently queued pending pair and interact it.
    ///
    /// The wire-multiplicity invariant is preserved by every step; when the
    /// popped pair is two agents of equal label, exactly one pending pair
    /// is replaced by two and no wire is allocated, and when it is two
    /// agents of distinct labels, one pending pair is replaced by four and
    /// exactly four fresh open wires are allocated.
    pub fn step(&mut self)
        requires
            old(self).wf(),
            old(self).redexes@.len() > 0,
            old(self).vars@.len() + 4 <= usize::MAX,
        ensures
            final(self).wf(),
            final(self).root == old(self).root,
            ({
                let p = old(self).redexes@.last();
                p.0 is Binary && p.1 is Binary && p.0.lbl() == p.1.lbl()
            }) ==> ({
                let p = old(self).redexes@.last();
                final(self).vars@ == old(self).vars@ && final(self).redexes@ == old(self).redexes@.drop_last() + seq![
                    (p.0.left(), p.1.left()),
                    (p.0.right(), p.1.right()),
                ]
            }),
            ({
                let p = old(self).redexes@.last();
                p.0 is Binary && p.1 is Binary && p.0.lbl() != p.1.lbl()
            }) ==> ({
                let p = old(self).redexes@.last();
                final(self).vars@ == old(self).vars@ + seq![
                    WireSlot::Open,
                    WireSlot::Open,
                    WireSlot::Open,
                    WireSlot::Open,
                ] && final(self).redexes@ == old(self).redexes@.drop_last() + commute_pairs(
                    p.0,
                    p.1,
                    old(self).vars@.len() as usize,
                )
            }),
            (final(self).redexes@, final(self).vars@) == step_spec(
                old(self).redexes@,
                old(self).vars@,
            ),
    {
        let p = self.redexes.pop().unwrap();
        proof {
            let rest = self.redexes@;
            assert(old(self).redexes@ =~= rest + seq![(p.0, p.1)]);
            assert forall|j: usize| #[trigger] self.count(j) + p.0.count(j) + p.1.count(j)
                == self.expected(j) by {
                lemma_pairs_count_append(rest, seq![(p.0, p.1)], j);
                assert(pairs_count(seq![(p.0, p.1)], j) == p.0.count(j) + p.1.count(j)) by {
                    reveal_with_fuel(pairs_count, 3);
                    assert(seq![(p.0, p.1)].drop_first() =~= Seq::<(Tree, Tree)>::empty());
                }
                assert(old(self).count(j) == old(self).expected(j));
            }
        }
        self.interact(p.0, p.1);
    }

    /// Drive the net towards normal form, popping and interacting pending
    /// pairs for at most `max_steps` steps: the final state is exactly the
    /// bounded run of the step relation from the initial state, and the
    /// result reports whether the pending list was emptied.
    pub fn normal(&mut self, max_steps: u64) -> (done: bool)
        requires
            old(self).wf(),
        ensures
            final(self).wf(),
            final(self).root == old(self).root,
            ({
                let (rs, ss, over) = run_spec(
                    old(self).redexes@,
                    old(self).vars@,
                    max_steps as nat,
                );
                final(self).redexes@ == rs && final(self).vars@ == ss && done == over
            }),
            done == (final(self).redexes@.len() == 0),
    {
        let mut steps: u64 = 0;
        while self.redexes.len() > 0 && steps < max_steps
            invariant
                self.wf(),
                self.root == old(self).root,
                steps <= max_steps,
                run_spec(old(self).redexes@, old(self).vars@, max_steps as nat) == run_spec(
                    self.redexes@,
                    self.vars@,
                    (max_steps - steps) as nat,
                ),
            decreases max_steps - steps,
        {
            if self.vars.len() > usize::MAX - 4 {
                proof {
                    assert(run_spec(self.redexes@, self.vars@, (max_steps - steps) as nat) == (
                    self.redexes@,
                    self.vars@,
                    false,
                ));
                }
                return false;
            }
            let ghost rs_pre = self.redexes@;
            let ghost ss_pre = self.vars@;
            let ghost fuel_pre = (max_steps - steps) as nat;
            self.step();
            proof {
                let (rs2, ss2) = step_spec(rs_pre, ss_pre);
                assert(run_spec(rs_pre, ss_pre, fuel_pre) == run_spec(
                    rs2,
                    ss2,
                    (fuel_pre - 1) as nat,
                ));
            }
            steps += 1;
        }
        proof {
            if self.redexes@.len() == 0 {
                assert(run_spec(self.redexes@, self.vars@, (max_steps - steps) as nat) == (
                self.redexes@,
                self.vars@,
                true,
                ));
            } else {
                assert(steps == max_steps);
                assert(run_spec(self.redexes@, self.vars@, 0nat) == (
                self.redexes@,
                self.vars@,
                false,
                ));
            }
        }
        self.redexes.len() == 0
    }
}

/// Occurrences of `j` among the eight fresh wire ends of a commutation.
pub open spec fn new_var_count(n: usize, j: usize) -> nat
    recommends
        n + 3 <= usize::MAX,
{
    if j == n || j == n + 1 || j == n + 2 || j == n + 3 {
        2nat
    } else {
        0nat
    }
}

} // verus!
