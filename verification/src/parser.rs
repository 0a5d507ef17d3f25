//! The textual surface syntax: a recursive-descent reader for the
//! bracketed tree notation, the term notation layered over it, nets with
//! `&`-separated pending pairs, and books of named definitions.

use vstd::prelude::*;

use crate::lambda::Term;
use crate::store::{WireSlot, WireStore};
use crate::tree::{
    lemma_pairs_count_elem, lemma_slots_count_elem, Net, NodeLabel, Tree, ANN_LABEL,
};

verus! {

/// The matching closing delimiter of an opening bracket.
pub fn closing(delim: char) -> (r: Option<char>)
    ensures
        delim == '(' ==> r == Some(')'),
        delim == '[' ==> r == Some(']'),
        delim == '<' ==> r == Some('>'),
        delim == '{' ==> r == Some('}'),
        delim != '(' && delim != '[' && delim != '<' && delim != '{' ==> r is None,
{
    match delim {
        '(' => Some(')'),
        '[' => Some(']'),
        '<' => Some('>'),
        '{' => Some('}'),
        _ => None,
    }
}

/// A tree with every wire id moved up by `base`.
pub open spec fn shift_tree(t: Tree, base: usize) -> Tree
    decreases t,
{
    match t {
        Tree::Binary { label, p1, p2 } => Tree::bin(
            label,
            shift_tree(*p1, base),
            shift_tree(*p2, base),
        ),
        Tree::Var { id } => Tree::var((id + base) as usize),
    }
}

/// Pending pairs with every wire id moved up by `base`.
pub open spec fn shift_pairs(ps: Seq<(Tree, Tree)>, base: usize) -> Seq<(Tree, Tree)> {
    ps.map_values(|p: (Tree, Tree)| (shift_tree(p.0, base), shift_tree(p.1, base)))
}

/// Slots whose stored occupants have every wire id moved up by `base`.
pub open spec fn shift_slots(ss: Seq<WireSlot>, base: usize) -> Seq<WireSlot> {
    ss.map_values(
        |s: WireSlot|
            match s {
                WireSlot::Full(t) => WireSlot::Full(shift_tree(t, base)),
                WireSlot::Open => WireSlot::Open,
                WireSlot::Vacant => WireSlot::Vacant,
            },
    )
}

impl Tree {
    /// Move every wire id in this subtree up by `base`.
    pub fn shift_ids(&mut self, base: usize)
        requires
            forall|j: usize| j + base > usize::MAX ==> old(self).count(j) == 0,
        ensures
            *final(self) == shift_tree(*old(self), base),
        decreases *old(self),
    {
        match self {
            Tree::Binary { p1, p2, .. } => {
                proof {
                    assert forall|j: usize| j + base > usize::MAX implies (**p1).count(j) == 0 by {
                        assert(old(self).count(j) == 0);
                    }
                }
                (**p1).shift_ids(base);
                proof {
                    assert forall|j: usize| j + base > usize::MAX implies (**p2).count(j) == 0 by {
                        assert(old(self).count(j) == 0);
                    }
                }
                (**p2).shift_ids(base);
            }
            Tree::Var { id } => {
                proof {
                    assert(old(self).count(*id) == 1);
                }
                *id = *id + base;
            }
        }
    }
}

/// The textual reader: the input characters, a cursor, the open name
/// scope, and the wires, pending pairs and named definitions accumulated
/// while reading.
pub struct TreeParser {
    pub input: Vec<char>,
    pub index: usize,
    pub scope: Vec<(Vec<char>, usize)>,
    pub redexes: Vec<(Tree, Tree)>,
    pub vars: WireStore,
    pub defs: Vec<(Vec<char>, Net)>,
}

/// A parsed book: the named definitions, the names marked as tests, and
/// the final net.
#[derive(Debug)]
pub struct Book {
    pub defs: Vec<(Vec<char>, Net)>,
    pub tests: Vec<Vec<char>>,
    pub root: Net,
}

/// Whether `c` is an ASCII decimal digit.
pub fn is_digit_char(c: char) -> (r: bool)
    ensures
        r == ('0' as u32 <= c as u32 && c as u32 <= '9' as u32),
{
    let u = c as u32;
    48 <= u && u <= 57
}

/// Name characters: ASCII letters and digits, underscores and dots.
pub fn is_name_char(c: char) -> (r: bool) {
    let u = c as u32;
    (48 <= u && u <= 57) || (65 <= u && u <= 90) || (97 <= u && u <= 122) || c == '_' || c == '.'
}

impl TreeParser {
    /// The cursor never runs past the input.
    pub open spec fn pwf(self) -> bool {
        self.index <= self.input@.len()
    }

    pub fn new(input: Vec<char>) -> (r: TreeParser)
        ensures
            r.pwf(),
            r.input == input,
            r.index == 0,
            r.scope@ == Seq::<(Vec<char>, usize)>::empty(),
            r.redexes@ == Seq::<(Tree, Tree)>::empty(),
            r.vars@ == Seq::<WireSlot>::empty(),
            r.defs@ == Seq::<(Vec<char>, Net)>::empty(),
    {
        TreeParser {
            input,
            index: 0,
            scope: Vec::new(),
            redexes: Vec::new(),
            vars: WireStore::new(),
            defs: Vec::new(),
        }
    }

    /// The next character, if any.
    fn peek_one(&self) -> (r: Option<char>)
        requires
            self.pwf(),
        ensures
            r is Some <==> self.index < self.input@.len(),
            r is Some ==> r.unwrap() == self.input@[self.index as int],
    {
        if self.index < self.input.len() {
            Some(self.input[self.index])
        } else {
            None
        }
    }

    /// Whether the next two characters are `a` then `b`.
    fn peek2_is(&self, a: char, b: char) -> (r: bool)
        requires
            self.pwf(),
    {
        self.index < self.input.len() && self.index + 1 < self.input.len() && self.input[self.index]
            == a && self.input[self.index + 1] == b
    }

    /// Move the cursor past one character.
    fn advance(&mut self)
        requires
            old(self).pwf(),
            old(self).index < old(self).input@.len(),
        ensures
            final(self).pwf(),
            final(self).index == old(self).index + 1,
            final(self).input@ == old(self).input@,
            final(self).scope == old(self).scope,
            final(self).redexes == old(self).redexes,
            final(self).vars == old(self).vars,
            final(self).defs == old(self).defs,
    {
        let n = self.input.len();
        self.index = self.index + 1;
    }

    /// Skip whitespace and line comments.
    fn skip_trivia(&mut self)
        requires
            old(self).pwf(),
        ensures
            final(self).pwf(),
            old(self).index <= final(self).index,
            final(self).input@ == old(self).input@,
            final(self).scope == old(self).scope,
            final(self).redexes == old(self).redexes,
            final(self).vars == old(self).vars,
            final(self).defs == old(self).defs,
    {
        loop
            invariant
                self.pwf(),
                old(self).index <= self.index,
                self.input@ == old(self).input@,
                self.scope == old(self).scope,
                self.redexes == old(self).redexes,
                self.vars == old(self).vars,
                self.defs == old(self).defs,
            decreases self.input@.len() - self.index,
        {
            if self.index >= self.input.len() {
                return ;
            }
            let c = self.input[self.index];
            if c == ' ' || c == '\t' || c == '\n' || c == '\r' {
                self.index = self.index + 1;
            } else if c == '/' && self.peek2_is('/', '/') {
                let ghost m = self.index;
                self.index = self.index + 1;
                while self.index < self.input.len() && self.input[self.index] != '\n'
                    invariant
                        self.pwf(),
                        old(self).index <= m,
                        m < self.index,
                        self.input@ == old(self).input@,
                        self.scope == old(self).scope,
                        self.redexes == old(self).redexes,
                        self.vars == old(self).vars,
                        self.defs == old(self).defs,
                    decreases self.input@.len() - self.index,
                {
                    self.index = self.index + 1;
                }
            } else {
                return ;
            }
        }
    }

    /// Skip trivia, then demand exactly the character `c`.
    fn consume_char(&mut self, c: char) -> (r: Result<(), String>)
        requires
            old(self).pwf(),
        ensures
            final(self).pwf(),
            old(self).index <= final(self).index,
            final(self).input@ == old(self).input@,
            final(self).scope == old(self).scope,
            final(self).redexes == old(self).redexes,
            final(self).vars == old(self).vars,
            final(self).defs == old(self).defs,
            r is Ok ==> old(self).index < final(self).index,
    {
        self.skip_trivia();
        match self.peek_one() {
            Some(d) => {
                if d == c {
                    self.advance();
                    Ok(())
                } else {
                    Err(String::from_str("unexpected character"))
                }
            }
            None => Err(String::from_str("unexpected end of input")),
        }
    }

    /// Skip trivia, then read a nonempty name.
    fn parse_name(&mut self) -> (r: Result<Vec<char>, String>)
        requires
            old(self).pwf(),
        ensures
            final(self).pwf(),
            old(self).index <= final(self).index,
            final(self).input@ == old(self).input@,
            final(self).scope == old(self).scope,
            final(self).redexes == old(self).redexes,
            final(self).vars == old(self).vars,
            final(self).defs == old(self).defs,
            r is Ok ==> old(self).index < final(self).index,
    {
        self.skip_trivia();
        let mut name: Vec<char> = Vec::new();
        let ghost mid = self.index;
        while self.index < self.input.len() && is_name_char(self.input[self.index])
            invariant
                self.pwf(),
                old(self).index <= mid,
                mid <= self.index,
                self.index > mid ==> name@.len() > 0,
                self.index == mid ==> name@.len() == 0,
                self.input@ == old(self).input@,
                self.scope == old(self).scope,
                self.redexes == old(self).redexes,
                self.vars == old(self).vars,
                self.defs == old(self).defs,
            decreases self.input@.len() - self.index,
        {
            name.push(self.input[self.index]);
            self.index = self.index + 1;
        }
        if name.len() == 0 {
            Err(String::from_str("expected a name"))
        } else {
            Ok(name)
        }
    }

    /// Skip trivia, then read a nonempty decimal number.
    fn parse_u64(&mut self) -> (r: Result<u64, String>)
        requires
            old(self).pwf(),
        ensures
            final(self).pwf(),
            old(self).index <= final(self).index,
            final(self).input@ == old(self).input@,
            final(self).scope == old(self).scope,
            final(self).redexes == old(self).redexes,
            final(self).vars == old(self).vars,
            final(self).defs == old(self).defs,
            r is Ok ==> old(self).index < final(self).index,
    {
        self.skip_trivia();
        let mut value: u64 = 0;
        let mut any = false;
        let ghost mid = self.index;
        while self.index < self.input.len() && is_digit_char(self.input[self.index])
            invariant
                self.pwf(),
                old(self).index <= mid,
                mid <= self.index,
                any <==> self.index > mid,
                self.input@ == old(self).input@,
                self.scope == old(self).scope,
                self.redexes == old(self).redexes,
                self.vars == old(self).vars,
                self.defs == old(self).defs,
            decreases self.input@.len() - self.index,
        {
            let c = self.input[self.index];
            let d = (c as u32) - ('0' as u32);
            proof {
                assert(c as u32 >= '0' as u32 && c as u32 <= '9' as u32);
            }
            if value > (u64::MAX - (d as u64)) / 10 {
                return Err(String::from_str("number does not fit"));
            }
            value = value * 10 + (d as u64);
            any = true;
            self.index = self.index + 1;
        }
        if !any {
            Err(String::from_str("expected a number"))
        } else {
            Ok(value)
        }
    }

    /// The open wire paired with `name`: the second use of a name takes
    /// the wire its first use opened; a first use opens a fresh one.
    fn get_or_new(&mut self, name: Vec<char>) -> (r: usize)
        requires
            old(self).pwf(),
        ensures
            final(self).pwf(),
            final(self).index == old(self).index,
            final(self).input@ == old(self).input@,
            final(self).redexes == old(self).redexes,
            final(self).defs == old(self).defs,
    {
        let n = self.scope.len();
        let mut i: usize = 0;
        while i < n
            invariant
                n == self.scope@.len(),
                i <= n,
                self.index == old(self).index,
                self.input@ == old(self).input@,
                self.redexes == old(self).redexes,
                self.vars == old(self).vars,
                self.defs == old(self).defs,
                old(self).pwf(),
            decreases n - i,
        {
            if chars_eq(&self.scope[i].0, &name) {
                let e = self.scope.remove(i);
                return e.1;
            }
            i += 1;
        }
        let v = self.vars.fresh();
        self.scope.push((name, v));
        v
    }

    /// Merge a foreign net into the reader's state: every wire it owns is
    /// re-allocated above the wires already present, every reference is
    /// remapped, its pending pairs are queued, and its remapped root is
    /// returned.
    pub fn inject(&mut self, net: Net) -> (r: Tree)
        requires
            old(self).pwf(),
            forall|j: usize| j >= net.vars@.len() ==> net.count(j) == 0,
            old(self).vars@.len() + net.vars@.len() <= usize::MAX,
        ensures
            final(self).pwf(),
            final(self).index == old(self).index,
            final(self).input@ == old(self).input@,
            final(self).scope == old(self).scope,
            final(self).defs == old(self).defs,
            final(self).vars@ == old(self).vars@ + shift_slots(
                net.vars@,
                old(self).vars@.len() as usize,
            ),
            final(self).redexes@ == old(self).redexes@ + shift_pairs(
                net.redexes@,
                old(self).vars@.len() as usize,
            ),
            r == shift_tree(net.root, old(self).vars@.len() as usize),
    {
        let base = self.vars.len();
        let ghost netg = net;
        let Net { root, redexes, vars } = net;
        let ghost limit = vars@.len();
        let mut root = root;
        let mut redexes = redexes;
        let ghost rs0 = redexes@;
        let ghost ss0g = vars@;
        proof {
            assert forall|j: usize| j + base > usize::MAX implies root.count(j) == 0 by {
                assert(netg.count(j) == 0);
            }
            assert forall|j: usize| j >= limit implies pairs_count_of(rs0, j) == 0
                && slots_count_of(ss0g, j) == 0 by {
                assert(netg.count(j) == 0);
            }
        }
        root.shift_ids(base);
        let mut i: usize = 0;
        while i < redexes.len()
            invariant
                redexes@.len() == rs0.len(),
                i <= rs0.len(),
                base + limit <= usize::MAX,
                forall|j: usize| j >= limit ==> pairs_count_of(rs0, j) == 0,
                forall|k: int| i <= k < rs0.len() ==> redexes@[k] == rs0[k],
                forall|k: int|
                    0 <= k < i ==> redexes@[k] == (shift_tree(rs0[k].0, base), shift_tree(
                        rs0[k].1,
                        base,
                    )),
            decreases rs0.len() - i,
        {
            let pair = &mut redexes[i];
            proof {
                assert forall|j: usize| j + base > usize::MAX implies pair.0.count(j) == 0 by {
                    assert(j >= limit);
                    assert(pairs_count_of(rs0, j) == 0);
                    lemma_pairs_count_elem(rs0, i as int, j);
                }
            }
            pair.0.shift_ids(base);
            proof {
                assert forall|j: usize| j + base > usize::MAX implies pair.1.count(j) == 0 by {
                    assert(j >= limit);
                    assert(pairs_count_of(rs0, j) == 0);
                    lemma_pairs_count_elem(rs0, i as int, j);
                }
            }
            pair.1.shift_ids(base);
            i += 1;
        }
        let ghost ss0 = ss0g;
        let mut slots = vars.into_slots();
        let mut out: Vec<WireSlot> = Vec::new();
        let mut k: usize = 0;
        while k < slots.len()
            invariant
                slots@.len() == ss0.len(),
                k <= ss0.len(),
                base + limit <= usize::MAX,
                limit == ss0.len(),
                forall|j: usize| j >= limit ==> slots_count_of(ss0, j) == 0,
                forall|q: int| k <= q < ss0.len() ==> slots@[q] == ss0[q],
                out@.len() == k,
                forall|q: int| 0 <= q < k ==> out@[q] == shift_slots(ss0, base)[q],
            decreases ss0.len() - k,
        {
            let mut tmp = WireSlot::Vacant;
            core::mem::swap(&mut tmp, &mut slots[k]);
            match tmp {
                WireSlot::Full(mut t) => {
                    proof {
                        assert forall|j: usize| j + base > usize::MAX implies t.count(j) == 0 by {
                            assert(j >= limit);
                            assert(slots_count_of(ss0, j) == 0);
                            lemma_slots_count_elem(ss0, k as int, j);
                        }
                    }
                    t.shift_ids(base);
                    out.push(WireSlot::Full(t));
                }
                WireSlot::Open => {
                    out.push(WireSlot::Open);
                }
                WireSlot::Vacant => {
                    out.push(WireSlot::Vacant);
                }
            }
            k += 1;
        }
        proof {
            assert(out@ =~= shift_slots(ss0, base));
        }
        let mut sv = out;
        let ghost svv = sv@;
        let mut si: usize = 0;
        let ghost vbase0 = self.vars@;
        while si < sv.len()
            invariant
                si <= svv.len(),
                sv@.len() == svv.len(),
                forall|k: int| si <= k < svv.len() ==> sv@[k] == svv[k],
                self.vars@ == vbase0 + svv.take(si as int),
                self.input@ == old(self).input@,
                self.index == old(self).index,
                self.scope == old(self).scope,
                self.defs == old(self).defs,
                self.redexes == old(self).redexes,
            decreases svv.len() - si,
        {
            let mut tmp = WireSlot::Vacant;
            core::mem::swap(&mut tmp, &mut sv[si]);
            proof {
                assert(tmp == svv[si as int]);
                assert(svv.take(si + 1) =~= svv.take(si as int).push(svv[si as int]));
            }
            self.vars.push_slot(tmp);
            proof {
                assert(self.vars@ =~= vbase0 + svv.take(si + 1));
            }
            si += 1;
        }
        proof {
            assert(svv.take(svv.len() as int) =~= svv);
            assert(svv == shift_slots(ss0g, base));
        }
        let mut ri: usize = 0;
        let ghost rbase0 = self.redexes@;
        let ghost rshift = redexes@;
        while ri < redexes.len()
            invariant
                ri <= rshift.len(),
                redexes@ == rshift,
                self.redexes@ == rbase0 + rshift.take(ri as int),
                self.input@ == old(self).input@,
                self.index == old(self).index,
                self.scope == old(self).scope,
                self.defs == old(self).defs,
                self.vars@ == vbase0 + shift_slots(ss0, base),
            decreases rshift.len() - ri,
        {
            let a = redexes[ri].0.duplicate();
            let b = redexes[ri].1.duplicate();
            proof {
                assert(rshift.take(ri + 1) =~= rshift.take(ri as int).push(rshift[ri as int]));
            }
            self.redexes.push((a, b));
            proof {
                assert(self.redexes@ =~= rbase0 + rshift.take(ri + 1));
            }
            ri += 1;
        }
        proof {
            assert(rshift.take(rshift.len() as int) =~= rshift);
            assert(rshift =~~= shift_pairs(rs0, base));
        }
        root
    }

    /// Store a tree as the deposited value of a fresh wire.
    pub fn to_var(&mut self, tree: Tree) -> (r: usize)
        ensures
            r == old(self).vars@.len(),
            final(self).vars@ == old(self).vars@.push(WireSlot::Full(tree)),
            final(self).index == old(self).index,
            final(self).input@ == old(self).input@,
            final(self).scope == old(self).scope,
            final(self).redexes == old(self).redexes,
            final(self).defs == old(self).defs,
    {
        self.vars.fresh_full(tree)
    }
}

/// Occurrences of `id` over pending pairs; re-exported shape for loop
/// invariants.
pub open spec fn pairs_count_of(ps: Seq<(Tree, Tree)>, id: usize) -> nat {
    crate::tree::pairs_count(ps, id)
}

/// Occurrences of `id` over slots; re-exported shape for loop invariants.
pub open spec fn slots_count_of(ss: Seq<WireSlot>, id: usize) -> nat {
    crate::store::slots_count(ss, id)
}

impl TreeParser {
    /// Every stored definition satisfies the wire-multiplicity invariant.
    pub open spec fn defs_ok(self) -> bool {
        forall|i: int| 0 <= i < self.defs@.len() ==> (#[trigger] self.defs@[i]).1.wf()
    }

    /// The most recent definition stored under `name`, duplicated.
    fn find_def(&self, name: &Vec<char>) -> (r: Option<Net>)
        requires
            self.defs_ok(),
        ensures
            r is Some ==> r.unwrap().wf(),
    {
        let mut i = self.defs.len();
        while i > 0
            invariant
                i <= self.defs@.len(),
                self.defs_ok(),
            decreases i,
        {
            i = i - 1;
            if chars_eq(&self.defs[i].0, name) {
                let net = self.defs[i].1.duplicate();
                proof {
                    assert(self.defs@[i as int].1.wf());
                    assert forall|id: usize| true implies #[trigger] net.count(id)
                        == net.expected(id) by {
                        assert(self.defs@[i as int].1.count(id) == self.defs@[i as int].1.expected(id));
                    }
                }
                return Some(net);
            }
        }
        None
    }

    /// Read a tree: a bracketed agent, a `term`-escaped term, a named
    /// definition spliced in, or a named wire end.
    pub fn parse_tree(&mut self) -> (r: Result<Tree, String>)
        requires
            old(self).pwf(),
            old(self).defs_ok(),
        ensures
            final(self).pwf(),
            final(self).defs_ok(),
            old(self).index <= final(self).index,
            final(self).input@ == old(self).input@,
            final(self).defs == old(self).defs,
            r is Ok ==> old(self).index < final(self).index,
        decreases old(self).input@.len() - old(self).index, 1int,
    {
        self.skip_trivia();
        let head = self.peek_one();
        if let Some(delim) = head {
            if delim == '(' || delim == '[' || delim == '<' || delim == '{' {
                self.advance();
                let label = if delim == '(' {
                    NodeLabel::con()
                } else if delim == '[' {
                    NodeLabel::eql()
                } else if delim == '<' {
                    NodeLabel::ann()
                } else {
                    let n = self.parse_u64()?;
                    NodeLabel(n)
                };
                let p1 = self.parse_tree()?;
                let p2 = self.parse_tree()?;
                let close = if delim == '(' {
                    ')'
                } else if delim == '[' {
                    ']'
                } else if delim == '<' {
                    '>'
                } else {
                    '}'
                };
                self.consume_char(close)?;
                return Ok(Tree::Binary { label, p1: Box::new(p1), p2: Box::new(p2) });
            }
        }
        let name = self.parse_name()?;
        if name.len() == 4 && name[0] == 't' && name[1] == 'e' && name[2] == 'r' && name[3] == 'm' {
            let term = self.parse_term()?;
            let tree = term.encode(&mut self.vars, &mut self.redexes);
            return Ok(tree);
        }
        match self.find_def(&name) {
            Some(net) => {
                if self.vars.len() > usize::MAX - net.vars.len() {
                    return Err(String::from_str("too many wires"));
                }
                let t = self.inject(net);
                Ok(t)
            }
            None => Ok(Tree::Var { id: self.get_or_new(name) }),
        }
    }

    /// Read a term: an optional `#label` prefix, then a binder, an
    /// application or superposition chain, or a name.
    pub fn parse_term(&mut self) -> (r: Result<Term, String>)
        requires
            old(self).pwf(),
            old(self).defs_ok(),
        ensures
            final(self).pwf(),
            final(self).defs_ok(),
            old(self).index <= final(self).index,
            final(self).input@ == old(self).input@,
            final(self).defs == old(self).defs,
            r is Ok ==> old(self).index < final(self).index,
        decreases old(self).input@.len() - old(self).index, 0int,
    {
        self.skip_trivia();
        let mut label_num: Option<u64> = None;
        if let Some(h0) = self.peek_one() {
            if h0 == '#' {
                self.consume_char('#')?;
                let n = self.parse_u64()?;
                label_num = Some(n);
            }
        }
        let base = match label_num {
            Some(l) => l,
            None => 0,
        };
        self.skip_trivia();
        let head = self.peek_one();
        if let Some(delim) = head {
            if delim == 'λ' || delim == '@' || delim == 'θ' {
                self.advance();
                let pat = self.parse_term()?;
                let bod = self.parse_term()?;
                let label: NodeLabel;
                if delim == 'θ' {
                    label = NodeLabel::ann();
                } else {
                    if base > (u64::MAX - 1) / 2 {
                        return Err(String::from_str("label does not fit"));
                    }
                    label = NodeLabel(base * 2);
                }
                return Ok(Term::Binder { label, pat: Box::new(pat), body: Box::new(bod) });
            }
            if delim == '{' || delim == '<' || delim == '(' {
                self.advance();
                let mut fun = self.parse_term()?;
                self.skip_trivia();
                let close = if delim == '(' {
                    ')'
                } else if delim == '<' {
                    '>'
                } else {
                    '}'
                };
                loop
                    invariant
                        self.pwf(),
                        self.defs_ok(),
                        old(self).index < self.index,
                        self.input@ == old(self).input@,
                        self.defs == old(self).defs,
                    decreases self.input@.len() - self.index,
                {
                    let nxt = match self.peek_one() {
                        Some(c) => c,
                        None => { break ; }
                    };
                    if nxt == close {
                        break ;
                    }
                    let label: NodeLabel;
                    if delim == '<' {
                        self.skip_trivia();
                        if self.peek2_is('=', '=') {
                            self.consume_char('=')?;
                            self.consume_char('=')?;
                            label = NodeLabel::eql();
                        } else {
                            let colon = match self.peek_one() {
                                Some(c2) => c2 == ':',
                                None => false,
                            };
                            if !colon {
                                return Err(String::from_str("expected a separator"));
                            }
                            self.consume_char(':')?;
                            label = NodeLabel::ann();
                        }
                    } else if delim == '(' {
                        if base > (u64::MAX - 1) / 2 {
                            return Err(String::from_str("label does not fit"));
                        }
                        label = NodeLabel(base * 2);
                    } else {
                        if base > (u64::MAX - 1) / 2 {
                            return Err(String::from_str("label does not fit"));
                        }
                        label = NodeLabel(base * 2 + 1);
                    }
                    let arg = self.parse_term()?;
                    fun = if label.0 == ANN_LABEL {
                        Term::Apply { label, fun: Box::new(arg), arg: Box::new(fun) }
                    } else if label.0 == crate::tree::CON_LABEL {
                        Term::Apply { label, fun: Box::new(fun), arg: Box::new(arg) }
                    } else {
                        Term::Sup { label, fst: Box::new(fun), snd: Box::new(arg) }
                    };
                    self.skip_trivia();
                }
                self.consume_char(close)?;
                return Ok(fun);
            }
        }
        let name = self.parse_name()?;
        if name.len() == 4 && name[0] == 't' && name[1] == 'r' && name[2] == 'e' && name[3] == 'e' {
            let tree = self.parse_tree()?;
            let id = self.to_var(tree);
            return Ok(Term::Var { id });
        }
        match self.find_def(&name) {
            Some(net) => {
                if self.vars.len() > usize::MAX - net.vars.len() {
                    return Err(String::from_str("too many wires"));
                }
                let t = self.inject(net);
                let id = self.to_var(t);
                Ok(Term::Var { id })
            }
            None => Ok(Term::Var { id: self.get_or_new(name) }),
        }
    }

    /// Read a whole net: a root tree and any number of `& lhs = rhs`
    /// pending pairs, then hand over the wires and pairs accumulated
    /// while reading. The result is checked against the
    /// wire-multiplicity invariant before it is returned.
    pub fn parse_net(&mut self) -> (r: Result<Net, String>)
        requires
            old(self).pwf(),
            old(self).defs_ok(),
        ensures
            final(self).pwf(),
            final(self).defs_ok(),
            old(self).index <= final(self).index,
            final(self).input@ == old(self).input@,
            final(self).defs == old(self).defs,
            r is Ok ==> r.unwrap().wf(),
            r is Ok ==> old(self).index < final(self).index,
    {
        let root = self.parse_tree()?;
        self.skip_trivia();
        loop
            invariant
                self.pwf(),
                self.defs_ok(),
                old(self).index < self.index,
                self.input@ == old(self).input@,
                self.defs == old(self).defs,
            decreases self.input@.len() - self.index,
        {
            let nxt = match self.peek_one() {
                Some(c) => c,
                None => { break ; }
            };
            if nxt != '&' {
                break ;
            }
            self.consume_char('&')?;
            let a = self.parse_tree()?;
            self.skip_trivia();
            self.consume_char('=')?;
            let b = self.parse_tree()?;
            self.redexes.push((a, b));
            self.skip_trivia();
        }
        let mut net = Net { root, redexes: Vec::new(), vars: WireStore::new() };
        core::mem::swap(&mut net.vars, &mut self.vars);
        core::mem::swap(&mut net.redexes, &mut self.redexes);
        match net.validate() {
            Ok(_) => Ok(net),
            Err(_) => Err(String::from_str("net breaks the wire invariant")),
        }
    }

    /// Read a book: `def name = net` entries (a name spelled `test`
    /// marks the following name as a test), then the final net.
    pub fn parse_book(&mut self) -> (r: Result<Book, String>)
        requires
            old(self).pwf(),
            old(self).defs_ok(),
        ensures
            final(self).pwf(),
            final(self).input@ == old(self).input@,
            r is Ok ==> r.unwrap().root.wf(),
            r is Ok ==> forall|i: int|
                0 <= i < r.unwrap().defs@.len() ==> (#[trigger] r.unwrap().defs@[i]).1.wf(),
    {
        self.skip_trivia();
        let mut tests: Vec<Vec<char>> = Vec::new();
        loop
            invariant
                self.pwf(),
                self.defs_ok(),
                self.input@ == old(self).input@,
            decreases self.input@.len() - self.index,
        {
            self.skip_trivia();
            let len = self.input.len();
            if !(self.index < len && len - self.index >= 4 && self.input[self.index] == 'd'
                && self.input[self.index + 1] == 'e' && self.input[self.index + 2] == 'f'
                && self.input[self.index + 3] == ' ') {
                break ;
            }
            self.advance();
            self.advance();
            self.advance();
            self.advance();
            self.skip_trivia();
            let name0 = self.parse_name()?;
            let name = if name0.len() == 4 && name0[0] == 't' && name0[1] == 'e' && name0[2] == 's'
                && name0[3] == 't' {
                self.skip_trivia();
                let name2 = self.parse_name()?;
                tests.push(chars_copy(&name2));
                name2
            } else {
                name0
            };
            self.skip_trivia();
            self.consume_char('=')?;
            let value = self.parse_net()?;
            self.skip_trivia();
            self.defs.push((name, value));
        }
        let root = self.parse_net()?;
        let mut defs: Vec<(Vec<char>, Net)> = Vec::new();
        core::mem::swap(&mut defs, &mut self.defs);
        Ok(Book { defs, tests, root })
    }
}

/// An owned copy of a name.
pub fn chars_copy(a: &Vec<char>) -> (r: Vec<char>)
    ensures
        r@ == a@,
{
    let mut r: Vec<char> = Vec::new();
    let mut i: usize = 0;
    while i < a.len()
        invariant
            i <= a.len(),
            r@ =~= a@.take(i as int),
        decreases a.len() - i,
    {
        r.push(a[i]);
        i += 1;
    }
    proof {
        assert(r@ =~= a@);
    }
    r
}

/// Compare two names character by character.
pub fn chars_eq(a: &Vec<char>, b: &Vec<char>) -> (r: bool)
    ensures
        r == (a@ == b@),
{
    if a.len() != b.len() {
        return false;
    }
    let mut i: usize = 0;
    while i < a.len()
        invariant
            i <= a.len(),
            a@.len() == b@.len(),
            forall|k: int| 0 <= k < i ==> a@[k] == b@[k],
        decreases a.len() - i,
    {
        if a[i] != b[i] {
            return false;
        }
        i += 1;
    }
    proof {
        assert(a@ =~= b@);
    }
    true
}

} // verus!
