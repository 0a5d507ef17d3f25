//! The graph model: binary agents, wire references, and the net that owns
//! them, together with the wire-multiplicity invariant, validation,
//! wire resolution, and rendering back to the bracketed textual notation.

use vstd::prelude::*;

use crate::store::{lemma_slots_count_append, num_full, slots_count, WireSlot, WireStore};

verus! {

/// Numeric kind of an agent. Small values are reserved: 0 for plain
/// constructors, 1 for duplicators, 2 for annotations, 3 for the equality
/// witness; larger values denote user-defined duplication levels.
#[derive(Debug, PartialEq, Eq, Clone, Copy, PartialOrd, Ord, Structural)]
pub struct NodeLabel(pub u64);

pub const CON_LABEL: u64 = 0;

pub const DUP_LABEL: u64 = 1;

pub const ANN_LABEL: u64 = 2;

pub const EQL_LABEL: u64 = 3;

impl NodeLabel {
    pub fn con() -> (r: NodeLabel)
        ensures
            r == NodeLabel(CON_LABEL),
    {
        NodeLabel(CON_LABEL)
    }

    pub fn dup() -> (r: NodeLabel)
        ensures
            r == NodeLabel(DUP_LABEL),
    {
        NodeLabel(DUP_LABEL)
    }

    pub fn ann() -> (r: NodeLabel)
        ensures
            r == NodeLabel(ANN_LABEL),
    {
        NodeLabel(ANN_LABEL)
    }

    pub fn eql() -> (r: NodeLabel)
        ensures
            r == NodeLabel(EQL_LABEL),
    {
        NodeLabel(EQL_LABEL)
    }
}

/// A node of the graph: an agent with two exclusively owned sub-ports, or a
/// reference to one end of a wire in the store.
#[derive(Debug)]
pub enum Tree {
    Binary { label: NodeLabel, p1: Box<Tree>, p2: Box<Tree> },
    Var { id: usize },
}

impl Tree {
    /// Occurrences of the wire id `id` in this subtree.
    pub open spec fn count(self, id: usize) -> nat
        decreases self,
    {
        match self {
            Tree::Binary { p1, p2, .. } => p1.count(id) + p2.count(id),
            Tree::Var { id: v } => if v == id {
                1nat
            } else {
                0nat
            },
        }
    }

    /// Number of nodes; a structural measure.
    pub open spec fn size(self) -> nat
        decreases self,
    {
        match self {
            Tree::Binary { p1, p2, .. } => 1 + p1.size() + p2.size(),
            Tree::Var { .. } => 1,
        }
    }

    /// The label of a binary agent.
    pub open spec fn lbl(self) -> NodeLabel
        recommends
            self is Binary,
    {
        match self {
            Tree::Binary { label, .. } => label,
            _ => arbitrary(),
        }
    }

    /// The left sub-port of a binary agent.
    pub open spec fn left(self) -> Tree
        recommends
            self is Binary,
    {
        match self {
            Tree::Binary { p1, .. } => *p1,
            _ => arbitrary(),
        }
    }

    /// The right sub-port of a binary agent.
    pub open spec fn right(self) -> Tree
        recommends
            self is Binary,
    {
        match self {
            Tree::Binary { p2, .. } => *p2,
            _ => arbitrary(),
        }
    }

    /// The wire id of a reference node.
    pub open spec fn vid(self) -> usize
        recommends
            self is Var,
    {
        match self {
            Tree::Var { id } => id,
            _ => arbitrary(),
        }
    }

    /// Shorthand for building a binary agent in specifications.
    pub open spec fn bin(label: NodeLabel, a: Tree, b: Tree) -> Tree {
        Tree::Binary { label, p1: Box::new(a), p2: Box::new(b) }
    }

    /// Shorthand for building a wire reference in specifications.
    pub open spec fn var(id: usize) -> Tree {
        Tree::Var { id }
    }

    pub fn is_var(&self) -> (r: bool)
        ensures
            r == (self is Var),
    {
        match self {
            Tree::Binary { .. } => false,
            Tree::Var { .. } => true,
        }
    }

    /// A structurally equal, independently owned copy.
    pub fn duplicate(&self) -> (r: Tree)
        ensures
            r == *self,
        decreases *self,
    {
        match self {
            Tree::Binary { label, p1, p2 } => Tree::Binary {
                label: *label,
                p1: Box::new(p1.duplicate()),
                p2: Box::new(p2.duplicate()),
            },
            Tree::Var { id } => Tree::Var { id: *id },
        }
    }
}

/// Occurrences of `id` over a sequence of pending pairs.
pub open spec fn pairs_count(ps: Seq<(Tree, Tree)>, id: usize) -> nat
    decreases ps.len(),
{
    if ps.len() == 0 {
        0
    } else {
        ps[0].0.count(id) + ps[0].1.count(id) + pairs_count(ps.drop_first(), id)
    }
}

pub proof fn lemma_pairs_count_append(p1: Seq<(Tree, Tree)>, p2: Seq<(Tree, Tree)>, id: usize)
    ensures
        pairs_count(p1 + p2, id) == pairs_count(p1, id) + pairs_count(p2, id),
    decreases p1.len(),
{
    if p1.len() == 0 {
        assert(p1 + p2 =~= p2);
    } else {
        assert((p1 + p2).drop_first() =~= p1.drop_first() + p2);
        lemma_pairs_count_append(p1.drop_first(), p2, id);
    }
}

/// A net: a root node, the pending pairs still to be interacted (treated as
/// a stack), and the wire store every `Var` node refers into.
#[derive(Debug)]
pub struct Net {
    pub root: Tree,
    pub redexes: Vec<(Tree, Tree)>,
    pub vars: WireStore,
}

impl Net {
    /// Occurrences of `id` anywhere in the net: in the root, in every
    /// pending pair, and inside every stored occupant.
    pub open spec fn count(self, id: usize) -> nat {
        self.root.count(id) + pairs_count(self.redexes@, id) + slots_count(self.vars@, id)
    }

    /// How many references the store expects for `id`: two for an open
    /// wire, one for a wire whose other end already deposited a value, none
    /// for a retired or never-allocated id.
    pub open spec fn expected(self, id: usize) -> nat {
        self.vars.spec_slot(id).arity()
    }

    /// The wire-multiplicity invariant: every wire id occurs exactly as
    /// often as its slot state demands.
    pub open spec fn wf(self) -> bool {
        forall|id: usize| #[trigger] self.count(id) == self.expected(id)
    }

    /// The same invariant with two nodes in flight (a popped pending pair).
    pub open spec fn wf_with(self, a: Tree, b: Tree) -> bool {
        forall|id: usize| #[trigger] self.count(id) + a.count(id) + b.count(id) == self.expected(id)
    }

    /// A structurally equal, independently owned copy.
    pub fn duplicate(&self) -> (r: Net)
        ensures
            r.root == self.root,
            r.redexes@ == self.redexes@,
            r.vars@ == self.vars@,
    {
        let mut redexes: Vec<(Tree, Tree)> = Vec::new();
        let mut i: usize = 0;
        while i < self.redexes.len()
            invariant
                i <= self.redexes.len(),
                redexes@ =~= self.redexes@.take(i as int),
            decreases self.redexes.len() - i,
        {
            let p = (self.redexes[i].0.duplicate(), self.redexes[i].1.duplicate());
            redexes.push(p);
            i += 1;
        }
        assert(redexes@ =~= self.redexes@);
        Net { root: self.root.duplicate(), redexes, vars: self.vars.duplicate() }
    }
}

/// Errors a net can be rejected with.
#[derive(Debug, PartialEq, Eq, Clone, Copy, Structural)]
pub enum NetError {
    /// The wire-multiplicity invariant does not hold somewhere in the net.
    InvariantViolation,
}

/// `min(n, 3)`: occurrence counts are compared against expectations of at
/// most two, so counting can stop at three.
pub open spec fn min3(n: nat) -> nat {
    if n > 3 {
        3
    } else {
        n
    }
}

/// `pairs_count` dominates the counts of each of its elements.
pub proof fn lemma_pairs_count_elem(ps: Seq<(Tree, Tree)>, i: int, j: usize)
    requires
        0 <= i < ps.len(),
    ensures
        pairs_count(ps, j) >= ps[i].0.count(j) + ps[i].1.count(j),
    decreases i,
{
    if i > 0 {
        lemma_pairs_count_elem(ps.drop_first(), i - 1, j);
    }
}

/// `slots_count` dominates the count of each of its slots.
pub proof fn lemma_slots_count_elem(ss: Seq<WireSlot>, i: int, j: usize)
    requires
        0 <= i < ss.len(),
    ensures
        slots_count(ss, j) >= ss[i].count(j),
    decreases i,
{
    if i > 0 {
        lemma_slots_count_elem(ss.drop_first(), i - 1, j);
    }
}

impl Tree {
    /// Decide whether every wire id in this subtree is below `n`, stated
    /// through occurrence counts.
    pub fn ids_below(&self, n: usize) -> (r: bool)
        ensures
            r == (forall|j: usize| j >= n ==> self.count(j) == 0),
        decreases *self,
    {
        match self {
            Tree::Binary { p1, p2, .. } => {
                let r1 = p1.ids_below(n);
                let r2 = p2.ids_below(n);
                proof {
                    if r1 && r2 {
                        assert forall|j: usize| j >= n implies self.count(j) == 0 by {
                            assert(p1.count(j) == 0);
                            assert(p2.count(j) == 0);
                        }
                    } else if !r1 {
                        let j = choose|j: usize| j >= n && p1.count(j) != 0;
                        assert(self.count(j) != 0);
                    } else {
                        let j = choose|j: usize| j >= n && p2.count(j) != 0;
                        assert(self.count(j) != 0);
                    }
                }
                r1 && r2
            }
            Tree::Var { id } => {
                if *id < n {
                    true
                } else {
                    assert(self.count(*id) == 1);
                    false
                }
            }
        }
    }

    /// Occurrences of `id`, capped at three.
    pub fn count_capped(&self, id: usize) -> (r: u8)
        ensures
            r as nat == min3(self.count(id)),
        decreases *self,
    {
        match self {
            Tree::Binary { p1, p2, .. } => {
                let c = p1.count_capped(id) + p2.count_capped(id);
                if c > 3 {
                    3
                } else {
                    c
                }
            }
            Tree::Var { id: v } => {
                if *v == id {
                    1
                } else {
                    0
                }
            }
        }
    }
}

impl Net {
    /// Decide whether every wire id in root and pending pairs and stored
    /// occupants is below `n`.
    fn parts_ids_below(&self, n: usize) -> (r: bool)
        ensures
            r == (forall|j: usize| j >= n ==> self.count(j) == 0),
    {
        if !self.root.ids_below(n) {
            proof {
                let j = choose|j: usize| j >= n && self.root.count(j) != 0;
                assert(self.count(j) > 0);
            }
            return false;
        }
        let mut i: usize = 0;
        while i < self.redexes.len()
            invariant
                i <= self.redexes.len(),
                forall|j: usize| j >= n ==> #[trigger] self.root.count(j) == 0,
                forall|j: usize|
                    j >= n ==> #[trigger] pairs_count(self.redexes@.take(i as int), j) == 0,
            decreases self.redexes.len() - i,
        {
            let ok1 = self.redexes[i].0.ids_below(n);
            let ok2 = self.redexes[i].1.ids_below(n);
            if !ok1 {
                proof {
                    let j = choose|j: usize| j >= n && self.redexes@[i as int].0.count(j) != 0;
                    lemma_pairs_count_elem(self.redexes@, i as int, j);
                    assert(self.count(j) > 0);
                }
                return false;
            }
            if !ok2 {
                proof {
                    let j = choose|j: usize| j >= n && self.redexes@[i as int].1.count(j) != 0;
                    lemma_pairs_count_elem(self.redexes@, i as int, j);
                    assert(self.count(j) > 0);
                }
                return false;
            }
            proof {
                assert forall|j: usize| j >= n implies #[trigger] pairs_count(
                    self.redexes@.take(i + 1),
                    j,
                ) == 0 by {
                    let pre = self.redexes@.take(i as int);
                    let one = seq![self.redexes@[i as int]];
                    assert(self.redexes@.take(i + 1) =~= pre + one);
                    lemma_pairs_count_append(pre, one, j);
                    assert(pairs_count(one, j) == self.redexes@[i as int].0.count(j)
                        + self.redexes@[i as int].1.count(j)) by {
                        reveal_with_fuel(pairs_count, 3);
                        assert(one.drop_first() =~= Seq::<(Tree, Tree)>::empty());
                    }
                    assert(pairs_count(pre, j) == 0);
                    assert(self.root.count(j) == 0);
                }
            }
            i += 1;
        }
        proof {
            assert(self.redexes@.take(self.redexes@.len() as int) =~= self.redexes@);
        }
        let mut k: usize = 0;
        let len = self.vars.len();
        while k < len
            invariant
                k <= len,
                len == self.vars@.len(),
                forall|j: usize| j >= n ==> #[trigger] self.root.count(j) == 0,
                forall|j: usize| j >= n ==> #[trigger] pairs_count(self.redexes@, j) == 0,
                forall|j: usize|
                    j >= n ==> #[trigger] slots_count(self.vars@.take(k as int), j) == 0,
            decreases len - k,
        {
            let ok = match self.vars.slot_ref(k) {
                WireSlot::Full(t) => {
                    let r = t.ids_below(n);
                    proof {
                        if !r {
                            let j = choose|j: usize| j >= n && t.count(j) != 0;
                            assert(self.vars@[k as int].count(j) != 0);
                            lemma_slots_count_elem(self.vars@, k as int, j);
                            assert(self.count(j) > 0);
                        }
                    }
                    r
                }
                _ => true,
            };
            if !ok {
                return false;
            }
            proof {
                assert forall|j: usize| j >= n implies #[trigger] slots_count(
                    self.vars@.take(k + 1),
                    j,
                ) == 0 by {
                    let pre = self.vars@.take(k as int);
                    let one = seq![self.vars@[k as int]];
                    assert(self.vars@.take(k + 1) =~= pre + one);
                    lemma_slots_count_append(pre, one, j);
                    assert(slots_count(one, j) == self.vars@[k as int].count(j)) by {
                        reveal_with_fuel(slots_count, 3);
                        assert(one.drop_first() =~= Seq::<WireSlot>::empty());
                    }
                    assert(slots_count(pre, j) == 0);
                    assert(self.root.count(j) == 0);
                }
            }
            k += 1;
        }
        proof {
            assert(self.vars@.take(self.vars@.len() as int) =~= self.vars@);
            assert forall|j: usize| j >= n implies self.count(j) == 0 by {
                assert(self.root.count(j) == 0);
                assert(pairs_count(self.redexes@, j) == 0);
                assert(slots_count(self.vars@.take(len as int), j) == 0);
            }
        }
        true
    }

    /// Occurrences of `id` in the whole net, capped at three.
    fn count_capped(&self, id: usize) -> (r: u8)
        ensures
            r as nat == min3(self.count(id)),
    {
        let mut c: u8 = self.root.count_capped(id);
        let mut i: usize = 0;
        while i < self.redexes.len()
            invariant
                i <= self.redexes.len(),
                c <= 3,
                c as nat == min3(self.root.count(id) + pairs_count(self.redexes@.take(i as int), id)),
            decreases self.redexes.len() - i,
        {
            let c1 = self.redexes[i].0.count_capped(id);
            let c2 = self.redexes[i].1.count_capped(id);
            let s = c + c1 + c2;
            c = if s > 3 {
                3
            } else {
                s
            };
            proof {
                assert(self.redexes@.take(i + 1 as int) =~= self.redexes@.take(i as int)
                    + seq![self.redexes@[i as int]]);
                lemma_pairs_count_append(
                    self.redexes@.take(i as int),
                    seq![self.redexes@[i as int]],
                    id,
                );
                assert(pairs_count(seq![self.redexes@[i as int]], id) == self.redexes@[i as int].0.count(id) + self.redexes@[i as int].1.count(id)) by {
                    reveal_with_fuel(pairs_count, 3);
                    assert(seq![self.redexes@[i as int]].drop_first() =~= Seq::<(
                        Tree,
                        Tree,
                    )>::empty());
                }
            }
            i += 1;
        }
        assert(self.redexes@.take(self.redexes@.len() as int) =~= self.redexes@);
        let mut k: usize = 0;
        let len = self.vars.len();
        while k < len
            invariant
                k <= len,
                len == self.vars@.len(),
                c <= 3,
                c as nat == min3(
                    self.root.count(id) + pairs_count(self.redexes@, id) + slots_count(
                        self.vars@.take(k as int),
                        id,
                    ),
                ),
            decreases len - k,
        {
            let ck = match self.vars.slot_ref(k) {
                WireSlot::Full(t) => t.count_capped(id),
                _ => 0,
            };
            let s = c + ck;
            c = if s > 3 {
                3
            } else {
                s
            };
            proof {
                assert(self.vars@.take(k + 1 as int) =~= self.vars@.take(k as int)
                    + seq![self.vars@[k as int]]);
                lemma_slots_count_append(self.vars@.take(k as int), seq![self.vars@[k as int]], id);
                assert(slots_count(seq![self.vars@[k as int]], id) == self.vars@[k as int].count(
                    id,
                )) by {
                    reveal_with_fuel(slots_count, 3);
                    assert(seq![self.vars@[k as int]].drop_first() =~= Seq::<WireSlot>::empty());
                }
            }
            k += 1;
        }
        assert(self.vars@.take(self.vars@.len() as int) =~= self.vars@);
        c
    }

    /// Check the wire-multiplicity invariant: every wire id must occur
    /// exactly twice when its cell is open, exactly once when its cell
    /// holds a deposited value, and not at all otherwise.
    pub fn validate(&self) -> (r: Result<(), NetError>)
        ensures
            r is Ok <==> self.wf(),
    {
        let n = self.vars.len();
        if !self.parts_ids_below(n) {
            proof {
                let j = choose|j: usize| j >= n && self.count(j) > 0;
                assert(self.expected(j) == 0);
            }
            return Err(NetError::InvariantViolation);
        }
        let mut id: usize = 0;
        while id < n
            invariant
                id <= n,
                n == self.vars@.len(),
                forall|j: usize| j >= n ==> self.count(j) == 0,
                forall|j: usize| j < id ==> #[trigger] self.count(j) == self.expected(j),
            decreases n - id,
        {
            let c = self.count_capped(id);
            let e: u8 = match self.vars.slot_ref(id) {
                WireSlot::Vacant => 0,
                WireSlot::Open => 2,
                WireSlot::Full(_) => 1,
            };
            if c != e {
                assert(self.count(id) != self.expected(id));
                return Err(NetError::InvariantViolation);
            }
            id += 1;
        }
        assert forall|j: usize| #[trigger] self.count(j) == self.expected(j) by {
            if j >= n {
                assert(self.expected(j) == 0);
            }
        }
        Ok(())
    }
}

/// Resolution of wire references: a reference whose cell is occupied is
/// replaced by the occupant (consuming the cell), repeatedly, and the
/// children of agents are resolved in left-to-right order. The `fuel`
/// bounds the length of one substitution chain; every chain consumes one
/// occupied cell per link, so any fuel above `num_full(ss)` is enough.
pub open spec fn resolve_fuel(t: Tree, ss: Seq<WireSlot>, fuel: nat) -> (Tree, Seq<WireSlot>)
    decreases fuel, t.size(),
{
    match t {
        Tree::Var { id } => {
            if fuel > 0 && id < ss.len() {
                match ss[id as int] {
                    WireSlot::Full(y) => resolve_fuel(
                        y,
                        ss.update(id as int, WireSlot::Vacant),
                        (fuel - 1) as nat,
                    ),
                    _ => (t, ss),
                }
            } else {
                (t, ss)
            }
        }
        Tree::Binary { label, p1, p2 } => {
            let (r1, ss1) = resolve_fuel(*p1, ss, fuel);
            let (r2, ss2) = resolve_fuel(*p2, ss1, fuel);
            (Tree::bin(label, r1, r2), ss2)
        }
    }
}

/// Resolution with always-sufficient fuel.
pub open spec fn resolve_tree(t: Tree, ss: Seq<WireSlot>) -> (Tree, Seq<WireSlot>) {
    resolve_fuel(t, ss, num_full(ss) + 1)
}

/// Resolution never adds occupants to the store.
pub proof fn lemma_resolve_fuel_num_full(t: Tree, ss: Seq<WireSlot>, fuel: nat)
    ensures
        num_full(resolve_fuel(t, ss, fuel).1) <= num_full(ss),
    decreases fuel, t.size(),
{
    match t {
        Tree::Var { id } => {
            if fuel > 0 && id < ss.len() {
                match ss[id as int] {
                    WireSlot::Full(y) => {
                        crate::store::lemma_num_full_update(ss, id as int, WireSlot::Vacant);
                        lemma_resolve_fuel_num_full(
                            y,
                            ss.update(id as int, WireSlot::Vacant),
                            (fuel - 1) as nat,
                        );
                    }
                    _ => {}
                }
            }
        }
        Tree::Binary { label, p1, p2 } => {
            lemma_resolve_fuel_num_full(*p1, ss, fuel);
            lemma_resolve_fuel_num_full(*p2, resolve_fuel(*p1, ss, fuel).1, fuel);
        }
    }
}

/// Any two fuels above the number of occupied cells resolve identically.
pub proof fn lemma_resolve_fuel_stable(t: Tree, ss: Seq<WireSlot>, f1: nat, f2: nat)
    requires
        f1 > num_full(ss),
        f2 > num_full(ss),
    ensures
        resolve_fuel(t, ss, f1) == resolve_fuel(t, ss, f2),
    decreases f1 + f2, t.size(),
{
    match t {
        Tree::Var { id } => {
            if id < ss.len() {
                match ss[id as int] {
                    WireSlot::Full(y) => {
                        crate::store::lemma_num_full_update(ss, id as int, WireSlot::Vacant);
                        lemma_resolve_fuel_stable(
                            y,
                            ss.update(id as int, WireSlot::Vacant),
                            (f1 - 1) as nat,
                            (f2 - 1) as nat,
                        );
                    }
                    _ => {}
                }
            }
        }
        Tree::Binary { label, p1, p2 } => {
            lemma_resolve_fuel_stable(*p1, ss, f1, f2);
            lemma_resolve_fuel_num_full(*p1, ss, f1);
            lemma_resolve_fuel_stable(*p2, resolve_fuel(*p1, ss, f1).1, f1, f2);
        }
    }
}

impl Tree {
    /// Resolve this subtree in place against the store: follow every
    /// reference whose cell is occupied, consuming the cells followed.
    pub fn resolve_vars(&mut self, vars: &mut WireStore)
        ensures
            *final(self) == resolve_tree(*old(self), old(vars)@).0,
            final(vars)@ == resolve_tree(*old(self), old(vars)@).1,
            num_full(final(vars)@) <= num_full(old(vars)@),
        decreases num_full(old(vars)@), old(self).size(),
    {
        proof {
            lemma_resolve_fuel_num_full(*self, vars@, num_full(vars@) + 1);
        }
        match self {
            Tree::Var { id } => {
                let i = *id;
                if vars.is_full(i) {
                    let ghost ss0 = vars@;
                    let y = vars.take(i);
                    proof {
                        crate::store::lemma_num_full_update(ss0, i as int, WireSlot::Vacant);
                    }
                    *self = y;
                    self.resolve_vars(vars);
                    proof {
                        lemma_resolve_fuel_stable(
                            y,
                            ss0.update(i as int, WireSlot::Vacant),
                            num_full(ss0.update(i as int, WireSlot::Vacant)) + 1,
                            num_full(ss0),
                        );
                    }
                }
            }
            Tree::Binary { p1, p2, .. } => {
                let ghost t0 = *old(self);
                let ghost ss0 = vars@;
                (**p1).resolve_vars(vars);
                proof {
                    lemma_resolve_fuel_stable(
                        t0.left(),
                        ss0,
                        num_full(ss0) + 1,
                        num_full(ss0) + 1,
                    );
                }
                let ghost ss1 = vars@;
                (**p2).resolve_vars(vars);
                proof {
                    lemma_resolve_fuel_stable(
                        t0.right(),
                        ss1,
                        num_full(ss1) + 1,
                        num_full(ss0) + 1,
                    );
                }
            }
        }
    }
}

/// Pairwise resolution of a pending list, threading the store left to
/// right through both members of every pair.
pub open spec fn resolve_pairs(ps: Seq<(Tree, Tree)>, ss: Seq<WireSlot>) -> (
    Seq<(Tree, Tree)>,
    Seq<WireSlot>,
)
    decreases ps.len(),
{
    if ps.len() == 0 {
        (ps, ss)
    } else {
        let (a, ss1) = resolve_tree(ps[0].0, ss);
        let (b, ss2) = resolve_tree(ps[0].1, ss1);
        let (rest, ss3) = resolve_pairs(ps.drop_first(), ss2);
        (seq![(a, b)] + rest, ss3)
    }
}

impl Net {
    /// Resolve the root and every pending pair against the wire store; the
    /// stored occupants themselves are left in place.
    pub fn resolve_vars(&mut self)
        ensures
            ({
                let (r, ss1) = resolve_tree(old(self).root, old(self).vars@);
                let (ps, ss2) = resolve_pairs(old(self).redexes@, ss1);
                final(self).root == r && final(self).redexes@ == ps && final(self).vars@ == ss2
            }),
    {
        self.root.resolve_vars(&mut self.vars);
        let ghost ps0 = self.redexes@;
        let ghost ssr = self.vars@;
        proof {
            assert(self.redexes@.skip(0) =~= ps0);
            let (rest, ss3) = resolve_pairs(ps0, ssr);
            assert(self.redexes@.take(0) + rest =~= rest);
        }
        let mut i: usize = 0;
        while i < self.redexes.len()
            invariant
                i <= self.redexes.len(),
                self.redexes@.len() == ps0.len(),
                ps0 == old(self).redexes@,
                ssr == resolve_tree(old(self).root, old(self).vars@).1,
                self.root == resolve_tree(old(self).root, old(self).vars@).0,
                forall|k: int| i <= k < ps0.len() ==> self.redexes@[k] == ps0[k],
                resolve_pairs(ps0, ssr) == ({
                    let (rest, ss3) = resolve_pairs(self.redexes@.skip(i as int), self.vars@);
                    (self.redexes@.take(i as int) + rest, ss3)
                }),
            decreases self.redexes.len() - i,
        {
            let ghost pre = self.redexes@;
            let ghost ssi = self.vars@;
            let pair = &mut self.redexes[i];
            pair.0.resolve_vars(&mut self.vars);
            pair.1.resolve_vars(&mut self.vars);
            proof {
                let (a, ss1) = resolve_tree(pre[i as int].0, ssi);
                let (b, ss2) = resolve_tree(pre[i as int].1, ss1);
                assert(self.redexes@ == pre.update(i as int, (a, b)));
                assert(self.redexes@.skip(i as int).drop_first() =~= self.redexes@.skip(
                    i + 1,
                ));
                assert(pre.skip(i as int)[0] == pre[i as int]);
                assert(self.redexes@.take(i + 1) =~= self.redexes@.take(i as int) + seq![(a, b)]);
                assert(pre.take(i as int) =~= self.redexes@.take(i as int));
                assert(pre.skip(i as int).drop_first() =~= self.redexes@.skip(i + 1));
                assert(resolve_pairs(pre.skip(i as int), ssi) == ({
                    let (rest, ss3) = resolve_pairs(self.redexes@.skip(i + 1), self.vars@);
                    (seq![(a, b)] + rest, ss3)
                }));
                let (rest, ss3) = resolve_pairs(self.redexes@.skip(i + 1), self.vars@);
                assert(self.redexes@.take(i as int) + (seq![(a, b)] + rest) =~= self.redexes@.take(
                    i + 1,
                ) + rest);
            }
            i += 1;
        }
        proof {
            let e = Seq::<(Tree, Tree)>::empty();
            assert(self.redexes@.skip(self.redexes@.len() as int) =~= e);
            assert(resolve_pairs(e, self.vars@) == (e, self.vars@));
            assert(self.redexes@.take(self.redexes@.len() as int) =~= self.redexes@);
            assert(self.redexes@ + e =~= self.redexes@);
        }
    }
}

/// The decimal digit character for `d`.
pub open spec fn digit_char(d: nat) -> char {
    if d == 0 {
        '0'
    } else if d == 1 {
        '1'
    } else if d == 2 {
        '2'
    } else if d == 3 {
        '3'
    } else if d == 4 {
        '4'
    } else if d == 5 {
        '5'
    } else if d == 6 {
        '6'
    } else if d == 7 {
        '7'
    } else if d == 8 {
        '8'
    } else {
        '9'
    }
}

/// The decimal representation of `n`, most significant digit first.
pub open spec fn dec_rep(n: nat) -> Seq<char>
    decreases n,
{
    if n < 10 {
        seq![digit_char(n)]
    } else {
        dec_rep(n / 10).push(digit_char(n % 10))
    }
}

/// The fresh human-readable name for the wire at scope position `i`.
pub open spec fn var_name(i: nat) -> Seq<char> {
    seq!['x'] + dec_rep(i)
}

/// The opening token of an agent: a reserved bracket for the built-in
/// kinds, `{N ` for any other numeric label.
pub open spec fn open_text(l: NodeLabel) -> Seq<char> {
    if l.0 == CON_LABEL {
        seq!['(']
    } else if l.0 == EQL_LABEL {
        seq!['[']
    } else if l.0 == ANN_LABEL {
        seq!['<']
    } else {
        seq!['{'] + dec_rep(l.0 as nat) + seq![' ']
    }
}

/// The closing token matching `open_text`.
pub open spec fn close_text(l: NodeLabel) -> Seq<char> {
    if l.0 == CON_LABEL {
        seq![')']
    } else if l.0 == EQL_LABEL {
        seq![']']
    } else if l.0 == ANN_LABEL {
        seq!['>']
    } else {
        seq!['}']
    }
}

pub proof fn lemma_dec_rep_len(n: nat)
    ensures
        dec_rep(n).len() >= 1,
        n < 10 <==> dec_rep(n).len() == 1,
    decreases n,
{
    if n >= 10 {
        lemma_dec_rep_len(n / 10);
    }
}

/// Distinct numbers have distinct decimal representations.
pub proof fn lemma_dec_rep_injective(a: nat, b: nat)
    requires
        dec_rep(a) == dec_rep(b),
    ensures
        a == b,
    decreases a,
{
    lemma_dec_rep_len(a);
    lemma_dec_rep_len(b);
    if a < 10 && b < 10 {
        assert(dec_rep(a) == seq![digit_char(a)]);
        assert(dec_rep(b) == seq![digit_char(b)]);
        assert(dec_rep(a)[0] == digit_char(a));
        assert(dec_rep(b)[0] == digit_char(b));
        assert(digit_char(a) == digit_char(b));
        assert(a == b);
    } else {
        assert(a >= 10 && b >= 10);
        assert(dec_rep(a) == dec_rep(a / 10).push(digit_char(a % 10)));
        assert(dec_rep(b) == dec_rep(b / 10).push(digit_char(b % 10)));
        assert(dec_rep(a).last() == digit_char(a % 10));
        assert(dec_rep(b).last() == digit_char(b % 10));
        assert(digit_char(a % 10) == digit_char(b % 10));
        assert(a % 10 == b % 10);
        assert(dec_rep(a).drop_last() =~= dec_rep(a / 10));
        assert(dec_rep(b).drop_last() =~= dec_rep(b / 10));
        lemma_dec_rep_injective(a / 10, b / 10);
    }
}

/// Distinct scope positions render under distinct names, so a rendered
/// net distinguishes exactly the wires the renderer distinguished, and
/// re-reading it can tell them apart.
pub proof fn lemma_var_name_injective(i: nat, j: nat)
    requires
        var_name(i) == var_name(j),
    ensures
        i == j,
{
    assert(var_name(i).drop_first() =~= dec_rep(i));
    assert(var_name(j).drop_first() =~= dec_rep(j));
    lemma_dec_rep_injective(i, j);
}

/// Position of the first occurrence of `id` in the scope, or its length.
pub open spec fn scope_pos(s: Seq<usize>, id: usize) -> nat
    decreases s.len(),
{
    if s.len() == 0 {
        0
    } else if s[0] == id {
        0
    } else {
        1 + scope_pos(s.drop_first(), id)
    }
}

pub proof fn lemma_scope_pos(s: Seq<usize>, id: usize)
    ensures
        scope_pos(s, id) <= s.len(),
        scope_pos(s, id) < s.len() ==> s[scope_pos(s, id) as int] == id,
        forall|k: int| 0 <= k < scope_pos(s, id) ==> s[k] != id,
    decreases s.len(),
{
    if s.len() > 0 && s[0] != id {
        lemma_scope_pos(s.drop_first(), id);
        assert forall|k: int| 0 <= k < scope_pos(s, id) implies s[k] != id by {
            if k > 0 {
                assert(s.drop_first()[k - 1] != id);
            }
        }
    }
}

/// Rendering of a resolved subtree: brackets around the two sub-ports of
/// an agent, and for a wire end the name at its scope position, entering
/// it into the scope on first sight.
pub open spec fn show_plain(t: Tree, scope: Seq<usize>) -> (Seq<char>, Seq<usize>)
    decreases t,
{
    match t {
        Tree::Binary { label, p1, p2 } => {
            let (s1, sc1) = show_plain(*p1, scope);
            let (s2, sc2) = show_plain(*p2, sc1);
            (open_text(label) + s1 + seq![' '] + s2 + close_text(label), sc2)
        }
        Tree::Var { id } => {
            let p = scope_pos(scope, id);
            if p < scope.len() {
                (var_name(p), scope)
            } else {
                (var_name(scope.len()), scope.push(id))
            }
        }
    }
}

/// Rendering of the pending pairs: ` & lhs = rhs` for each.
pub open spec fn show_pairs(ps: Seq<(Tree, Tree)>, scope: Seq<usize>) -> (Seq<char>, Seq<usize>)
    decreases ps.len(),
{
    if ps.len() == 0 {
        (Seq::<char>::empty(), scope)
    } else {
        let (sa, sc1) = show_plain(ps[0].0, scope);
        let (sb, sc2) = show_plain(ps[0].1, sc1);
        let (rest, sc3) = show_pairs(ps.drop_first(), sc2);
        (seq![' ', '&', ' '] + sa + seq![' ', '=', ' '] + sb + rest, sc3)
    }
}

/// What rendering a root, pending pairs and wire store produces: every
/// reachable wire reference resolved, root first and pending pairs after
/// it, wire names assigned in order of first appearance.
pub open spec fn display_parts(
    root: Tree,
    pairs: Seq<(Tree, Tree)>,
    slots: Seq<WireSlot>,
) -> Seq<char> {
    let (r, ss1) = resolve_tree(root, slots);
    let (ps, ss2) = resolve_pairs(pairs, ss1);
    let (s0, sc0) = show_plain(r, Seq::<usize>::empty());
    let (s1, sc1) = show_pairs(ps, sc0);
    s0 + s1
}

/// What `display` renders.
pub open spec fn display_spec(n: Net) -> Seq<char> {
    display_parts(n.root, n.redexes@, n.vars@)
}

/// Appends the chosen decimal digit to the output.
fn append_digit(out: &mut String, d: u64)
    requires
        d < 10,
    ensures
        final(out)@ == old(out)@ + seq![digit_char(d as nat)],
{
    let s: &str = match d {
        0 => "0",
        1 => "1",
        2 => "2",
        3 => "3",
        4 => "4",
        5 => "5",
        6 => "6",
        7 => "7",
        8 => "8",
        _ => "9",
    };
    proof {
        reveal_strlit("0");
        reveal_strlit("1");
        reveal_strlit("2");
        reveal_strlit("3");
        reveal_strlit("4");
        reveal_strlit("5");
        reveal_strlit("6");
        reveal_strlit("7");
        reveal_strlit("8");
        reveal_strlit("9");
        assert(s@ =~= seq![digit_char(d as nat)]);
    }
    out.append(s);
}

/// Appends the decimal representation of `n` to the output.
fn append_u64(out: &mut String, n: u64)
    ensures
        final(out)@ == old(out)@ + dec_rep(n as nat),
    decreases n,
{
    if n >= 10 {
        append_u64(out, n / 10);
    }
    append_digit(out, n % 10);
    proof {
        if n >= 10 {
            assert(old(out)@ + dec_rep((n / 10) as nat) + seq![digit_char((n % 10) as nat)]
                =~= old(out)@ + dec_rep(n as nat));
        }
    }
}

/// A renderer: the wire ids already named, in order of first appearance;
/// the wire at position `i` is called `xi`.
pub struct NetShow {
    scope: Vec<usize>,
}

impl View for NetShow {
    type V = Seq<usize>;

    closed spec fn view(&self) -> Seq<usize> {
        self.scope@
    }
}

impl NetShow {
    /// Append the name of wire `id`, naming it now if it has none yet.
    fn append_name(&mut self, out: &mut String, id: usize)
        ensures
            ({
                let (s, sc) = show_plain(Tree::var(id), old(self).scope@);
                final(out)@ == old(out)@ + s && final(self).scope@ == sc
            }),
    {
        proof {
            lemma_scope_pos(self.scope@, id);
            reveal_strlit("x");
            assert("x"@ =~= seq!['x']);
        }
        let n = self.scope.len();
        let mut i: usize = 0;
        while i < n && self.scope[i] != id
            invariant
                i <= n,
                n == self.scope@.len(),
                forall|k: int| 0 <= k < i ==> self.scope@[k] != id,
            decreases n - i,
        {
            i += 1;
        }
        proof {
            lemma_scope_pos(self.scope@, id);
            assert(scope_pos(self.scope@, id) == i);
        }
        out.append("x");
        if i < n {
            append_u64(out, i as u64);
        } else {
            append_u64(out, n as u64);
            self.scope.push(id);
        }
    }

    /// Append the opening token of `label`.
    fn append_open(&mut self, out: &mut String, label: NodeLabel)
        ensures
            final(out)@ == old(out)@ + open_text(label),
            final(self).scope@ == old(self).scope@,
    {
        if label.0 == CON_LABEL {
            proof {
                reveal_strlit("(");
                assert("("@ =~= open_text(label));
            }
            out.append("(");
        } else if label.0 == EQL_LABEL {
            proof {
                reveal_strlit("[");
                assert("["@ =~= open_text(label));
            }
            out.append("[");
        } else if label.0 == ANN_LABEL {
            proof {
                reveal_strlit("<");
                assert("<"@ =~= open_text(label));
            }
            out.append("<");
        } else {
            proof {
                reveal_strlit("{");
                reveal_strlit(" ");
            }
            out.append("{");
            append_u64(out, label.0);
            out.append(" ");
            proof {
                assert(old(out)@ + "{"@ + dec_rep(label.0 as nat) + " "@ =~= old(out)@
                    + open_text(label));
            }
        }
    }

    /// Append the closing token of `label`.
    fn append_close(&mut self, out: &mut String, label: NodeLabel)
        ensures
            final(out)@ == old(out)@ + close_text(label),
            final(self).scope@ == old(self).scope@,
    {
        if label.0 == CON_LABEL {
            proof {
                reveal_strlit(")");
                assert(")"@ =~= close_text(label));
            }
            out.append(")");
        } else if label.0 == EQL_LABEL {
            proof {
                reveal_strlit("]");
                assert("]"@ =~= close_text(label));
            }
            out.append("]");
        } else if label.0 == ANN_LABEL {
            proof {
                reveal_strlit(">");
                assert(">"@ =~= close_text(label));
            }
            out.append(">");
        } else {
            proof {
                reveal_strlit("}");
                assert("}"@ =~= close_text(label));
            }
            out.append("}");
        }
    }

    /// Append the rendering of one (already resolved) subtree.
    fn show_tree(&mut self, out: &mut String, t: &Tree)
        ensures
            ({
                let (s, sc) = show_plain(*t, old(self).scope@);
                final(out)@ == old(out)@ + s && final(self).scope@ == sc
            }),
        decreases *t,
    {
        match t {
            Tree::Binary { label, p1, p2 } => {
                self.append_open(out, *label);
                self.show_tree(out, p1);
                proof {
                    reveal_strlit(" ");
                }
                out.append(" ");
                self.show_tree(out, p2);
                self.append_close(out, *label);
                proof {
                    let (s1, sc1) = show_plain(**p1, old(self).scope@);
                    let (s2, sc2) = show_plain(**p2, sc1);
                    assert(" "@ =~= seq![' ']);
                    assert(old(out)@ + open_text(*label) + s1 + " "@ + s2 + close_text(*label)
                        =~= old(out)@ + (open_text(*label) + s1 + seq![' '] + s2 + close_text(
                        *label,
                    )));
                }
            }
            Tree::Var { id } => {
                self.append_name(out, *id);
            }
        }
    }

    /// Append the rendering of a whole (already resolved) net.
    fn show_net(&mut self, out: &mut String, net: &Net)
        ensures
            ({
                let (s0, sc0) = show_plain(net.root, old(self).scope@);
                let (s1, sc1) = show_pairs(net.redexes@, sc0);
                final(out)@ == old(out)@ + s0 + s1 && final(self).scope@ == sc1
            }),
    {
        self.show_tree(out, &net.root);
        let ghost out1 = out@;
        let ghost sc0 = self.scope@;
        let ghost ps0 = net.redexes@;
        proof {
            let (rest, scf) = show_pairs(ps0, sc0);
            assert(ps0.skip(0) =~= ps0);
        }
        let mut i: usize = 0;
        while i < net.redexes.len()
            invariant
                i <= net.redexes.len(),
                ps0 == net.redexes@,
                ({
                    let (rest, scf) = show_pairs(ps0.skip(i as int), self.scope@);
                    let (total, sctotal) = show_pairs(ps0, sc0);
                    out@ + rest == out1 + total && scf == sctotal
                }),
            decreases net.redexes.len() - i,
        {
            proof {
                reveal_strlit(" & ");
                reveal_strlit(" = ");
                assert(" & "@ =~= seq![' ', '&', ' ']);
                assert(" = "@ =~= seq![' ', '=', ' ']);
            }
            let ghost outp = out@;
            let ghost scp = self.scope@;
            out.append(" & ");
            self.show_tree(out, &net.redexes[i].0);
            out.append(" = ");
            self.show_tree(out, &net.redexes[i].1);
            proof {
                let (sa, sc1) = show_plain(ps0[i as int].0, scp);
                let (sb, sc2) = show_plain(ps0[i as int].1, sc1);
                assert(ps0.skip(i as int)[0] == ps0[i as int]);
                assert(ps0.skip(i as int).drop_first() =~= ps0.skip(i + 1));
                assert(out@ =~= outp + (seq![' ', '&', ' '] + sa + seq![' ', '=', ' '] + sb));
            }
            i += 1;
        }
        proof {
            assert(ps0.skip(ps0.len() as int) =~= Seq::<(Tree, Tree)>::empty());
            let (total, sctotal) = show_pairs(ps0, sc0);
            assert(out@ + Seq::<char>::empty() =~= out@);
        }
    }
}

impl Net {
    /// A fresh renderer with an empty naming scope.
    pub fn show(&self) -> (r: NetShow)
        ensures
            r@ == Seq::<usize>::empty(),
    {
        NetShow { scope: Vec::new() }
    }

    /// Render the net in the bracketed textual notation, substituting
    /// resolved wire values inline and giving every still-unresolved wire
    /// a fresh name scoped to this one call. Each stored occupant is
    /// rendered at the single reference that reaches it.
    pub fn display(&self) -> (r: String)
        ensures
            r@ == display_spec(*self),
    {
        let mut copy = self.duplicate();
        copy.resolve_vars();
        let mut shower = self.show();
        let mut out = String::new();
        shower.show_net(&mut out, &copy);
        out
    }
}

impl WireStore {
    /// A structurally equal, independently owned copy of the store.
    pub fn duplicate(&self) -> (r: WireStore)
        ensures
            r@ == self@,
    {
        let mut slots: Vec<WireSlot> = Vec::new();
        let mut i: usize = 0;
        let n = self.len();
        while i < n
            invariant
                n == self@.len(),
                i <= n,
                slots@ =~= self@.take(i as int),
            decreases n - i,
        {
            let s = match self.slot_ref(i) {
                WireSlot::Vacant => WireSlot::Vacant,
                WireSlot::Open => WireSlot::Open,
                WireSlot::Full(t) => WireSlot::Full(t.duplicate()),
            };
            slots.push(s);
            i += 1;
        }
        assert(slots@ =~= self@);
        WireStore::from_slots(slots)
    }
}

} // verus!
