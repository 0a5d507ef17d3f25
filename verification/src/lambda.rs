//! Lambda-like terms and their encoding into an interaction net: binders
//! and superpositions become agents, applications become pending pairs
//! against a fresh result wire, and let-bindings become pending pairs of
//! pattern against value.

use vstd::prelude::*;

use crate::store::{WireSlot, WireStore};
use crate::tree::{NodeLabel, Tree};

verus! {

/// A surface term handed to the encoder.
#[derive(Debug)]
pub enum Term {
    Binder { label: NodeLabel, pat: Box<Term>, body: Box<Term> },
    Apply { label: NodeLabel, fun: Box<Term>, arg: Box<Term> },
    Sup { label: NodeLabel, fst: Box<Term>, snd: Box<Term> },
    Let { pat: Box<Term>, value: Box<Term>, next: Box<Term> },
    Var { id: usize },
}

/// What encoding produces: the tree standing for the term, the store
/// grown by one open wire per application, and the pending pairs grown by
/// one pair per application or let-binding.
pub open spec fn encode_spec(t: Term, ss: Seq<WireSlot>, rs: Seq<(Tree, Tree)>) -> (
    Tree,
    Seq<WireSlot>,
    Seq<(Tree, Tree)>,
)
    decreases t,
{
    match t {
        Term::Binder { label, pat, body } => {
            let (p, ss1, rs1) = encode_spec(*pat, ss, rs);
            let (b, ss2, rs2) = encode_spec(*body, ss1, rs1);
            (Tree::bin(label, p, b), ss2, rs2)
        }
        Term::Apply { label, fun, arg } => {
            let (f, ss1, rs1) = encode_spec(*fun, ss, rs);
            let (a, ss2, rs2) = encode_spec(*arg, ss1, rs1);
            let id = ss2.len() as usize;
            (
                Tree::var(id),
                ss2.push(WireSlot::Open),
                rs2.push((Tree::bin(label, a, Tree::var(id)), f)),
            )
        }
        Term::Sup { label, fst, snd } => {
            let (a, ss1, rs1) = encode_spec(*fst, ss, rs);
            let (b, ss2, rs2) = encode_spec(*snd, ss1, rs1);
            (Tree::bin(label, a, b), ss2, rs2)
        }
        Term::Let { pat, value, next } => {
            let (p, ss1, rs1) = encode_spec(*pat, ss, rs);
            let (v, ss2, rs2) = encode_spec(*value, ss1, rs1);
            let (n, ss3, rs3) = encode_spec(*next, ss2, rs2);
            (n, ss3, rs3.push((p, v)))
        }
        Term::Var { id } => (Tree::var(id), ss, rs),
    }
}

impl Term {
    /// Encode this term against the given store and pending list.
    pub fn encode(&self, vars: &mut WireStore, redex: &mut Vec<(Tree, Tree)>) -> (r: Tree)
        ensures
            ({
                let (t, ss, rs) = encode_spec(*self, old(vars)@, old(redex)@);
                r == t && final(vars)@ == ss && final(redex)@ == rs
            }),
        decreases *self,
    {
        match self {
            Term::Binder { label, pat, body } => {
                let p = pat.encode(vars, redex);
                let b = body.encode(vars, redex);
                Tree::Binary { label: *label, p1: Box::new(p), p2: Box::new(b) }
            }
            Term::Apply { label, fun, arg } => {
                let f = fun.encode(vars, redex);
                let a = arg.encode(vars, redex);
                let id = vars.fresh();
                redex.push(
                    (
                        Tree::Binary {
                            label: *label,
                            p1: Box::new(a),
                            p2: Box::new(Tree::Var { id }),
                        },
                        f,
                    ),
                );
                Tree::Var { id }
            }
            Term::Sup { label, fst, snd } => {
                let a = fst.encode(vars, redex);
                let b = snd.encode(vars, redex);
                Tree::Binary { label: *label, p1: Box::new(a), p2: Box::new(b) }
            }
            Term::Let { pat, value, next } => {
                let p = pat.encode(vars, redex);
                let v = value.encode(vars, redex);
                let n = next.encode(vars, redex);
                redex.push((p, v));
                n
            }
            Term::Var { id } => Tree::Var { id: *id },
        }
    }
}

} // verus!
