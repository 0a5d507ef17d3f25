//! Generates complete binary constructor trees over a fixed set of wires,
//! in a canonical order driven by a factorial-number-system permutation of
//! the leaf paths.

use vstd::prelude::*;

use vstd::arithmetic::power2::{lemma2_to64, lemma_pow2_unfold, pow2};

use crate::store::{WireSlot, WireStore};
use crate::tree::{display_parts, Net, NodeLabel, Tree, CON_LABEL};

verus! {

/// The factorial function.
pub open spec fn spec_fact(n: nat) -> nat
    decreases n,
{
    if n == 0 {
        1
    } else {
        n * spec_fact((n - 1) as nat)
    }
}

pub proof fn lemma_fact_pos(n: nat)
    ensures
        spec_fact(n) >= 1,
    decreases n,
{
    if n > 0 {
        lemma_fact_pos((n - 1) as nat);
        assert(spec_fact(n) == n * spec_fact((n - 1) as nat));
        assert(n * spec_fact((n - 1) as nat) >= 1) by (nonlinear_arith)
            requires
                n >= 1,
                spec_fact((n - 1) as nat) >= 1,
        ;
    }
}

pub proof fn lemma_fact_mono(a: nat, b: nat)
    requires
        a <= b,
    ensures
        spec_fact(a) <= spec_fact(b),
    decreases b,
{
    if a < b {
        lemma_fact_mono(a, (b - 1) as nat);
        lemma_fact_pos((b - 1) as nat);
        assert(spec_fact(b) == b * spec_fact((b - 1) as nat));
        assert(b * spec_fact((b - 1) as nat) >= spec_fact((b - 1) as nat)) by (nonlinear_arith)
            requires
                b >= 1,
                spec_fact((b - 1) as nat) >= 0,
        ;
    }
}

/// The largest factorial a 64-bit value can hold.
pub proof fn lemma_fact20()
    ensures
        spec_fact(20) == 2432902008176640000,
{
    assert(spec_fact(0) == 1);
    assert(spec_fact(1) == 1);
    assert(spec_fact(2) == 2);
    assert(spec_fact(3) == 6);
    assert(spec_fact(4) == 24);
    assert(spec_fact(5) == 120);
    assert(spec_fact(6) == 720);
    assert(spec_fact(7) == 5040);
    assert(spec_fact(8) == 40320);
    assert(spec_fact(9) == 362880);
    assert(spec_fact(10) == 3628800);
    assert(spec_fact(11) == 39916800);
    assert(spec_fact(12) == 479001600);
    assert(spec_fact(13) == 6227020800);
    assert(spec_fact(14) == 87178291200);
    assert(spec_fact(15) == 1307674368000);
    assert(spec_fact(16) == 20922789888000);
    assert(spec_fact(17) == 355687428096000);
    assert(spec_fact(18) == 6402373705728000);
    assert(spec_fact(19) == 121645100408832000);
    assert(spec_fact(20) == 2432902008176640000);
}

/// One countdown of the permutation: pick bit `index / i!` of the
/// remaining bits, close the gap, and append the bit to the result, for
/// `i` from `n - 1` down to zero.
pub open spec fn perm_loop(bits: u64, index: u64, result: u64, i: int) -> u64
    decreases i + 1,
{
    if i < 0 {
        result
    } else {
        let f = spec_fact(i as nat) as u64;
        let q = index / f;
        let bit = (bits >> q) & 1;
        let nb = ((bits >> ((q + 1) as u64)) << q) | (bits & (((1u64 << q) - 1) as u64));
        perm_loop(nb, index % f, (result * 2 + bit) as u64, i - 1)
    }
}

/// The permuted leaf path for one enumerator state.
pub open spec fn spec_permute(depth: u64, index: u64, bits: u64) -> u64 {
    perm_loop(bits, index, 0, depth - 1)
}

/// The generated tree below one path prefix: a full binary constructor
/// tree whose leaves refer to the wire picked by the permuted path.
pub open spec fn gen_spec(edepth: u64, eindex: u64, vars: Seq<usize>, depth: u64, path: u64) -> Tree
    decreases depth,
{
    if depth == 0 {
        let v = spec_permute(edepth, eindex, path);
        Tree::var(vars[(v >> 1u64) as int])
    } else {
        Tree::bin(
            NodeLabel(CON_LABEL),
            gen_spec(edepth, eindex, vars, (depth - 1) as u64, path << 1u64),
            gen_spec(edepth, eindex, vars, (depth - 1) as u64, (path << 1u64) | 1),
        )
    }
}

/// The wire ids the enumerator allocates: one per wire, in order.
pub open spec fn enum_ids(wires: nat) -> Seq<usize> {
    Seq::new(wires, |i: int| i as usize)
}

/// A store of `wires` open cells.
pub open spec fn open_slots(wires: nat) -> Seq<WireSlot> {
    Seq::new(wires, |i: int| WireSlot::Open)
}

/// An enumerator state: tree depth and the index of the next permutation.
pub struct Enumerator {
    pub depth: u64,
    pub index: u64,
}

impl Enumerator {
    /// The factorial, for arguments whose factorial fits 64 bits.
    pub fn factorial(num: u64) -> (r: u64)
        requires
            num <= 20,
        ensures
            r == spec_fact(num as nat),
            r >= 1,
        decreases num,
    {
        proof {
            lemma_fact_pos(num as nat);
            lemma_fact_mono(num as nat, 20);
            lemma_fact20();
        }
        if num == 0 {
            1
        } else {
            let r1 = Self::factorial(num - 1);
            proof {
                assert(spec_fact(num as nat) == num * spec_fact((num - 1) as nat));
                lemma_fact_mono((num - 1) as nat, 20);
                assert(r1 * num == spec_fact(num as nat)) by (nonlinear_arith)
                    requires
                        r1 == spec_fact((num - 1) as nat),
                        spec_fact(num as nat) == num * spec_fact((num - 1) as nat),
                        num >= 1,
                ;
            }
            r1 * num
        }
    }

    /// The number of path bits: the tree depth.
    pub fn bits_amount(&self) -> (r: u64)
        ensures
            r == self.depth,
    {
        self.depth
    }

    /// The number of wires: half the number of leaves.
    pub fn wire_amount(&self) -> (r: u64)
        requires
            1 <= self.depth <= 63,
        ensures
            r == pow2((self.depth - 1) as nat),
            r >= 1,
    {
        proof {
            lemma2_to64();
        }
        let mut r: u64 = 1;
        let mut i: u64 = 0;
        while i < self.depth - 1
            invariant
                self.depth <= 63,
                i <= self.depth - 1,
                r == pow2(i as nat),
            decreases self.depth - 1 - i,
        {
            proof {
                lemma_pow2_unfold((i + 1) as nat);
                vstd::arithmetic::power2::lemma_pow2_strictly_increases((i + 1) as nat, 64);
                lemma2_to64();
            }
            r = r * 2;
            i += 1;
        }
        proof {
            vstd::arithmetic::power2::lemma_pow2_pos((self.depth - 1) as nat);
        }
        r
    }

    /// How many distinct trees this depth enumerates.
    pub fn index_amount(&self) -> (r: u64)
        requires
            1 <= self.depth <= 5,
        ensures
            r == spec_fact(pow2((self.depth - 1) as nat)),
    {
        proof {
            lemma2_to64();
        }
        let w = self.wire_amount();
        Self::factorial(w)
    }

    /// Apply the `index`-th permutation to the path bits.
    pub fn permute(&self, bits: u64) -> (r: u64)
        requires
            1 <= self.depth <= 20,
            self.index < 63 * spec_fact((self.depth - 1) as nat),
        ensures
            r == spec_permute(self.depth, self.index, bits),
            r < pow2(self.depth as nat),
    {
        let ghost bits0 = bits;
        proof {
            lemma_fact20();
            lemma_fact_mono((self.depth - 1) as nat, 20);
            lemma2_to64();
        }
        let mut index = self.index;
        let mut bits = bits;
        let mut result: u64 = 0;
        let mut i = self.bits_amount();
        while i > 0
            invariant
                1 <= self.depth <= 20,
                i <= self.depth,
                spec_fact((self.depth - 1) as nat) <= spec_fact(20),
                spec_fact(20) == 2432902008176640000,
                result < pow2((self.depth - i) as nat),
                pow2(20) == 0x100000,
                i == self.depth ==> index == self.index && index < 63 * spec_fact(
                    (self.depth - 1) as nat,
                ),
                i < self.depth ==> index < spec_fact(i as nat),
                perm_loop(bits, index, result, i - 1) == spec_permute(
                    self.depth,
                    self.index,
                    bits0,
                ),
            decreases i,
        {
            proof {
                vstd::arithmetic::power2::lemma_pow2_strictly_increases(
                    (self.depth - i) as nat,
                    21,
                );
                lemma2_to64();
            }
            i = i - 1;
            proof {
                lemma_fact_pos(i as nat);
                lemma_fact_mono(i as nat, 20);
            }
            let fact = Self::factorial(i);
            let q = index / fact;
            proof {
                if i + 1 == self.depth {
                    assert(index < 63 * spec_fact((self.depth - 1) as nat));
                    assert(q < 63) by (nonlinear_arith)
                        requires
                            fact == spec_fact(i as nat),
                            fact >= 1,
                            index < 63 * fact,
                            q == index / fact,
                    ;
                } else {
                    assert(index < spec_fact((i + 1) as nat));
                    assert(spec_fact((i + 1) as nat) == (i + 1) * spec_fact(i as nat));
                    assert(q <= i) by (nonlinear_arith)
                        requires
                            fact == spec_fact(i as nat),
                            fact >= 1,
                            index < (i + 1) * fact,
                            i >= 0,
                            q == index / fact,
                    ;
                }
            }
            let bit = (bits >> q) & 1;
            proof {
                assert((bits >> q) & 1 <= 1) by (bit_vector);
                lemma_pow2_unfold((self.depth - i) as nat);
            }
            proof {
                assert(q < 64 ==> (1u64 << q) >= 1) by (bit_vector);
            }
            let left_bits = bits >> (q + 1);
            let right_bits = bits & ((1u64 << q) - 1);
            let new_bits = (left_bits << q) | right_bits;
            let new_index = index % fact;
            result = result * 2 + bit;
            bits = new_bits;
            index = new_index;
        }
        result
    }

    /// Whether a value has an odd number of set bits. The generation
    /// scheme below folds this parity into the lowest bit of the leaf
    /// index and then shifts that bit away, so the parity never reaches
    /// the result; the branch identities proved there show it.
    fn ones_parity(x: u64) -> (r: bool)
        ensures
            true,
    {
        let mut v = x;
        let mut p = false;
        while v > 0
            invariant
                true,
            decreases v,
        {
            p = p ^ ((v & 1) == 1);
            proof {
                assert(v > 0 ==> (v >> 1u64) < v) by (bit_vector);
            }
            v = v >> 1u64;
        }
        p
    }

    /// Build the tree under `path`, with `depth` levels still to go.
    fn generate(&self, vars: &Vec<usize>, depth: u64, path: u64) -> (r: Tree)
        requires
            1 <= self.depth <= 20,
            self.index < 63 * spec_fact((self.depth - 1) as nat),
            vars@.len() == pow2((self.depth - 1) as nat),
            pow2((self.depth - 1) as nat) <= usize::MAX,
            depth <= self.depth,
        ensures
            r == gen_spec(self.depth, self.index, vars@, depth, path),
        decreases depth,
    {
        if depth == 0 {
            let var_id = self.permute(path);
            let ghost v0 = var_id;
            let var_id = if Self::ones_parity(var_id) {
                ((var_id >> 1u64) << 1u64) | 1
            } else {
                ((var_id >> 1u64) << 1u64) | 0
            };
            let var_id = var_id >> 1u64;
            proof {
                assert((((v0 >> 1u64) << 1u64) | 1) >> 1u64 == v0 >> 1u64) by (bit_vector);
                assert((((v0 >> 1u64) << 1u64) | 0) >> 1u64 == v0 >> 1u64) by (bit_vector);
                assert(var_id == v0 >> 1u64);
                assert(v0 >> 1u64 == v0 / 2) by (bit_vector);
                lemma_pow2_unfold(self.depth as nat);
                assert(v0 / 2 < pow2((self.depth - 1) as nat));
                assert(var_id < vars@.len());
                assert((var_id as usize) as int == var_id as int);
            }
            let r = Tree::Var { id: vars[var_id as usize] };
            proof {
                assert(r == Tree::var(vars@[(spec_permute(self.depth, self.index, path)
                    >> 1u64) as int]));
            }
            r
        } else {
            Tree::Binary {
                label: NodeLabel::con(),
                p1: Box::new(self.generate(vars, depth - 1, path << 1u64)),
                p2: Box::new(self.generate(vars, depth - 1, (path << 1u64) | 1)),
            }
        }
    }

    /// The next net in the canonical order: a fresh store of open wires,
    /// the generated tree as root, and no pending pairs.
    pub fn next(&mut self) -> (r: Net)
        requires
            1 <= old(self).depth <= 20,
            old(self).index < 63 * spec_fact((old(self).depth - 1) as nat),
            old(self).index < u64::MAX,
            pow2((old(self).depth - 1) as nat) <= usize::MAX,
        ensures
            final(self).depth == old(self).depth,
            final(self).index == old(self).index + 1,
            r.root == gen_spec(
                old(self).depth,
                old(self).index,
                enum_ids(pow2((old(self).depth - 1) as nat)),
                old(self).depth,
                0,
            ),
            r.redexes@ == Seq::<(Tree, Tree)>::empty(),
            r.vars@ == open_slots(pow2((old(self).depth - 1) as nat)),
    {
        let mut vars = WireStore::new();
        let mut var_idxs: Vec<usize> = Vec::new();
        let w = self.wire_amount();
        let ghost wires = pow2((self.depth - 1) as nat);
        let mut i: u64 = 0;
        while i < w
            invariant
                w == wires,
                wires <= usize::MAX,
                i <= w,
                vars@ =~= open_slots(i as nat),
                var_idxs@ =~= enum_ids(i as nat),
            decreases w - i,
        {
            let id = vars.fresh();
            var_idxs.push(id);
            proof {
                assert(vars@ =~= open_slots((i + 1) as nat));
                assert(var_idxs@ =~= enum_ids((i + 1) as nat));
            }
            i += 1;
        }
        let root = self.generate(&var_idxs, self.depth, 0);
        self.index = self.index + 1;
        Net { root, redexes: Vec::new(), vars }
    }

    /// Render every net of this depth, in order, advancing the index past
    /// the last permutation.
    pub fn gen_all(&mut self) -> (r: Vec<String>)
        requires
            1 <= old(self).depth <= 5,
            old(self).index == 0,
            spec_fact(pow2((old(self).depth - 1) as nat)) <= 63 * spec_fact(
                (old(self).depth - 1) as nat,
            ),
        ensures
            r@.len() == spec_fact(pow2((old(self).depth - 1) as nat)),
            final(self).depth == old(self).depth,
            final(self).index == spec_fact(pow2((old(self).depth - 1) as nat)),
            forall|k: int|
                0 <= k < r@.len() ==> (#[trigger] r@[k])@ == display_parts(
                    gen_spec(
                        old(self).depth,
                        k as u64,
                        enum_ids(pow2((old(self).depth - 1) as nat)),
                        old(self).depth,
                        0,
                    ),
                    Seq::<(Tree, Tree)>::empty(),
                    open_slots(pow2((old(self).depth - 1) as nat)),
                ),
    {
        proof {
            lemma_fact20();
            lemma2_to64();
            assert(pow2((self.depth - 1) as nat) <= 16) by {
                if self.depth == 1 {
                } else if self.depth == 2 {
                } else if self.depth == 3 {
                } else if self.depth == 4 {
                } else {
                }
            }
            lemma_fact_mono(pow2((self.depth - 1) as nat), 20);
        }
        let total = self.index_amount();
        let ghost d0 = self.depth;
        let mut r: Vec<String> = Vec::new();
        let mut i: u64 = 0;
        while i < total
            invariant
                self.depth == d0,
                1 <= d0 <= 5,
                total == spec_fact(pow2((d0 - 1) as nat)),
                total <= 63 * spec_fact((d0 - 1) as nat),
                total < u64::MAX,
                pow2((d0 - 1) as nat) <= usize::MAX,
                i <= total,
                self.index == i,
                r@.len() == i,
                forall|k: int|
                    0 <= k < i ==> (#[trigger] r@[k])@ == display_parts(
                        gen_spec(d0, k as u64, enum_ids(pow2((d0 - 1) as nat)), d0, 0),
                        Seq::<(Tree, Tree)>::empty(),
                        open_slots(pow2((d0 - 1) as nat)),
                    ),
            decreases total - i,
        {
            let net = self.next();
            let shown = net.display();
            r.push(shown);
            i += 1;
        }
        r
    }
}

} // verus!
