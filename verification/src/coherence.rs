//! The coherence checker: records, per label, the path every wire takes
//! through the labeled agents between its two ends, normalizes the
//! recordings into descending and ascending bit runs, pads shorter runs
//! with every possible completion, and reports a net incoherent when two
//! padded recordings share a key but disagree elsewhere.

use vstd::prelude::*;

use crate::tree::{resolve_pairs, resolve_tree, EQL_LABEL, Net, NodeLabel, Tree};

verus! {

/// One step of a recorded path: which label was crossed, whether through
/// the first (left) or second (right) port, and whether descending into
/// the subtree or ascending back out of it.
#[derive(Debug, PartialEq, Eq, Clone, Copy, Structural)]
pub struct PathItem {
    pub label: NodeLabel,
    pub first: bool,
    pub enter: bool,
}

/// The raw recording of one path: the items pushed while walking.
pub struct PathStack {
    items: Vec<PathItem>,
}

impl View for PathStack {
    type V = Seq<PathItem>;

    closed spec fn view(&self) -> Seq<PathItem> {
        self.items@
    }
}

/// The same item with the traversal direction turned around.
pub open spec fn flip(p: PathItem) -> PathItem {
    PathItem { label: p.label, first: p.first, enter: !p.enter }
}

/// Index of the first ascending item, or the length if all items descend.
pub open spec fn split_pos(s: Seq<PathItem>) -> nat
    decreases s.len(),
{
    if s.len() == 0 {
        0
    } else if !s[0].enter {
        0
    } else {
        1 + split_pos(s.drop_first())
    }
}

pub proof fn lemma_split_pos(s: Seq<PathItem>)
    ensures
        split_pos(s) <= s.len(),
        split_pos(s) < s.len() ==> !s[split_pos(s) as int].enter,
        forall|k: int| 0 <= k < split_pos(s) ==> s[k].enter,
    decreases s.len(),
{
    if s.len() > 0 && s[0].enter {
        lemma_split_pos(s.drop_first());
        assert forall|k: int| 0 <= k < split_pos(s) implies s[k].enter by {
            if k > 0 {
                assert(s.drop_first()[k - 1].enter);
            }
        }
    }
}

/// Normalization of a recording: the branch bits of the items before the
/// first ascending item (the descending run) and of the rest (the
/// ascending run).
pub open spec fn stack_normal(s: Seq<PathItem>) -> (Seq<bool>, Seq<bool>) {
    let k = split_pos(s) as int;
    (s.take(k).map_values(|p: PathItem| p.first), s.skip(k).map_values(|p: PathItem| p.first))
}

/// A recording turned around: items reversed, each with its direction
/// flipped.
pub open spec fn stack_reversed(s: Seq<PathItem>) -> Seq<PathItem> {
    Seq::new(s.len(), |i: int| flip(s[s.len() - 1 - i]))
}

impl PathStack {
    pub fn new() -> (r: PathStack)
        ensures
            r@ == Seq::<PathItem>::empty(),
    {
        PathStack { items: Vec::new() }
    }

    /// An equal, independently owned copy.
    pub fn duplicate(&self) -> (r: PathStack)
        ensures
            r@ == self@,
    {
        let mut items: Vec<PathItem> = Vec::new();
        let mut i: usize = 0;
        while i < self.items.len()
            invariant
                i <= self.items.len(),
                items@ =~= self.items@.take(i as int),
            decreases self.items.len() - i,
        {
            items.push(self.items[i]);
            i += 1;
        }
        assert(items@ =~= self.items@);
        PathStack { items }
    }

    /// Record one more item.
    pub fn push(&mut self, item: PathItem)
        ensures
            final(self)@ == old(self)@.push(item),
    {
        self.items.push(item);
    }

    /// Split the recording into its descending and ascending runs.
    pub fn normal(self) -> (r: NormalPathStack)
        ensures
            r@ == stack_normal(self@),
    {
        proof {
            lemma_split_pos(self@);
        }
        let n = self.items.len();
        let mut k: usize = 0;
        while k < n && self.items[k].enter
            invariant
                k <= n,
                n == self.items@.len(),
                forall|j: int| 0 <= j < k ==> self.items@[j].enter,
            decreases n - k,
        {
            k += 1;
        }
        proof {
            assert(split_pos(self@) == k);
        }
        let mut des: Vec<bool> = Vec::new();
        let mut i: usize = 0;
        while i < k
            invariant
                i <= k,
                k <= n,
                n == self.items@.len(),
                des@ =~= self.items@.take(i as int).map_values(|p: PathItem| p.first),
            decreases k - i,
        {
            proof {
                assert(self.items@.take(i + 1) =~= self.items@.take(i as int).push(
                    self.items@[i as int],
                ));
                assert(self.items@.take(i + 1).map_values(|p: PathItem| p.first)
                    =~= self.items@.take(i as int).map_values(|p: PathItem| p.first).push(
                    self.items@[i as int].first,
                ));
            }
            des.push(self.items[i].first);
            i += 1;
        }
        let mut asc: Vec<bool> = Vec::new();
        let mut j: usize = k;
        while j < n
            invariant
                k <= j <= n,
                n == self.items@.len(),
                asc@ =~= self.items@.subrange(k as int, j as int).map_values(
                    |p: PathItem| p.first,
                ),
            decreases n - j,
        {
            proof {
                assert(self.items@.subrange(k as int, j + 1) =~= self.items@.subrange(
                    k as int,
                    j as int,
                ).push(self.items@[j as int]));
                assert(self.items@.subrange(k as int, j + 1).map_values(|p: PathItem| p.first)
                    =~= self.items@.subrange(k as int, j as int).map_values(
                    |p: PathItem| p.first,
                ).push(self.items@[j as int].first));
            }
            asc.push(self.items[j].first);
            j += 1;
        }
        NormalPathStack { des, asc }
    }

    /// Whether nothing was recorded here.
    pub fn is_empty_stack(&self) -> (r: bool)
        ensures
            r == (self@.len() == 0),
    {
        self.items.len() == 0
    }

    /// Turn the recording around in place.
    pub fn reverse(&mut self)
        ensures
            final(self)@ == stack_reversed(old(self)@),
    {
        let n = self.items.len();
        let mut items: Vec<PathItem> = Vec::new();
        let mut i: usize = 0;
        while i < n
            invariant
                i <= n,
                n == self.items@.len(),
                self.items@ == old(self).items@,
                items@.len() == i,
                forall|j: int|
                    0 <= j < i ==> items@[j] == flip(self.items@[n - 1 - j]),
            decreases n - i,
        {
            let p = self.items[n - 1 - i];
            items.push(PathItem { label: p.label, first: p.first, enter: !p.enter });
            i += 1;
        }
        self.items = items;
        proof {
            assert(final(self)@ =~= stack_reversed(old(self)@));
        }
    }

    /// The identity extension: kept as an explicit no-op.
    pub fn extend_by(&mut self, depth: usize)
        ensures
            final(self)@ == old(self)@,
    {
    }

    /// Whether `v` records a prefix of this recording.
    pub fn starts_with(&self, v: &Self) -> (r: bool)
        ensures
            r == (v@.len() <= self@.len() && self@.take(v@.len() as int) == v@),
    {
        let n = v.items.len();
        if n > self.items.len() {
            return false;
        }
        let mut i: usize = 0;
        while i < n
            invariant
                i <= n,
                n == v.items@.len(),
                n <= self.items@.len(),
                forall|j: int| 0 <= j < i ==> self.items@[j] == v.items@[j],
            decreases n - i,
        {
            if !(self.items[i] == v.items[i]) {
                proof {
                    assert(self@.take(n as int)[i as int] != v@[i as int]);
                }
                return false;
            }
            i += 1;
        }
        proof {
            assert(self@.take(n as int) =~= v@);
        }
        true
    }
}

/// A normalized recording: descending and ascending branch runs, left
/// recorded as true and right as false.
pub struct NormalPathStack {
    des: Vec<bool>,
    asc: Vec<bool>,
}

impl View for NormalPathStack {
    type V = (Seq<bool>, Seq<bool>);

    closed spec fn view(&self) -> (Seq<bool>, Seq<bool>) {
        (self.des@, self.asc@)
    }
}

/// One possible single-step completion: the bit goes to the end of the
/// descending run and to the front of the ascending run.
pub open spec fn ext_with(v: (Seq<bool>, Seq<bool>), bit: bool) -> (Seq<bool>, Seq<bool>) {
    (v.0.push(bit), seq![bit] + v.1)
}

/// Both single-step completions of every entry, in order.
pub open spec fn expand_all(s: Seq<(Seq<bool>, Seq<bool>)>) -> Seq<(Seq<bool>, Seq<bool>)>
    decreases s.len(),
{
    if s.len() == 0 {
        Seq::empty()
    } else {
        seq![ext_with(s[0], true), ext_with(s[0], false)] + expand_all(s.drop_first())
    }
}

/// All `2^depth` completions of a normalized recording that is `depth`
/// steps shorter than the deepest recording of its label.
pub open spec fn nps_extend(v: (Seq<bool>, Seq<bool>), depth: nat) -> Seq<(Seq<bool>, Seq<bool>)>
    decreases depth,
{
    if depth == 0 {
        seq![v]
    } else {
        expand_all(nps_extend(v, (depth - 1) as nat))
    }
}

pub proof fn lemma_expand_all_snoc(s: Seq<(Seq<bool>, Seq<bool>)>, x: (Seq<bool>, Seq<bool>))
    ensures
        expand_all(s.push(x)) == expand_all(s) + seq![ext_with(x, true), ext_with(x, false)],
    decreases s.len(),
{
    if s.len() == 0 {
        assert(s.push(x).drop_first() =~= Seq::<(Seq<bool>, Seq<bool>)>::empty());
        assert(expand_all(s) =~= Seq::<(Seq<bool>, Seq<bool>)>::empty());
        assert(s.push(x)[0] == x);
        assert(expand_all(s.push(x)) == seq![ext_with(x, true), ext_with(x, false)] + expand_all(
            s.push(x).drop_first(),
        ));
        assert(expand_all(s.push(x)) =~= expand_all(s) + seq![
            ext_with(x, true),
            ext_with(x, false),
        ]);
    } else {
        assert(s.push(x).drop_first() =~= s.drop_first().push(x));
        lemma_expand_all_snoc(s.drop_first(), x);
        assert(s.push(x)[0] == s[0]);
        assert(expand_all(s.push(x)) == seq![ext_with(s[0], true), ext_with(s[0], false)]
            + expand_all(s.drop_first().push(x)));
        assert(expand_all(s.push(x)) == seq![ext_with(s[0], true), ext_with(s[0], false)] + (
        expand_all(s.drop_first()) + seq![ext_with(x, true), ext_with(x, false)]));
        assert(expand_all(s) == seq![ext_with(s[0], true), ext_with(s[0], false)] + expand_all(
            s.drop_first(),
        ));
        assert(expand_all(s.push(x)) =~= expand_all(s) + seq![
            ext_with(x, true),
            ext_with(x, false),
        ]);
    }
}

impl NormalPathStack {
    pub fn new() -> (r: NormalPathStack)
        ensures
            r@ == (Seq::<bool>::empty(), Seq::<bool>::empty()),
    {
        NormalPathStack { des: Vec::new(), asc: Vec::new() }
    }

    /// An equal, independently owned copy.
    pub fn duplicate(&self) -> (r: NormalPathStack)
        ensures
            r@ == self@,
    {
        let mut des: Vec<bool> = Vec::new();
        let mut i: usize = 0;
        while i < self.des.len()
            invariant
                i <= self.des.len(),
                des@ =~= self.des@.take(i as int),
            decreases self.des.len() - i,
        {
            des.push(self.des[i]);
            i += 1;
        }
        let mut asc: Vec<bool> = Vec::new();
        let mut j: usize = 0;
        while j < self.asc.len()
            invariant
                j <= self.asc.len(),
                asc@ =~= self.asc@.take(j as int),
            decreases self.asc.len() - j,
        {
            asc.push(self.asc[j]);
            j += 1;
        }
        proof {
            assert(des@ =~= self.des@);
            assert(asc@ =~= self.asc@);
        }
        NormalPathStack { des, asc }
    }

    /// Length of the descending run.
    pub fn neg_len(&self) -> (r: usize)
        ensures
            r == self@.0.len(),
    {
        self.des.len()
    }

    /// Append `bit` to the descending run and prepend it to the ascending
    /// run.
    fn push_completion(&mut self, bit: bool)
        ensures
            final(self)@ == ext_with(old(self)@, bit),
    {
        self.des.push(bit);
        self.asc.insert(0, bit);
        proof {
            assert(final(self).asc@ =~= seq![bit] + old(self).asc@);
        }
    }

    /// Every possible completion of the missing `depth` steps, each
    /// appended to the descending run and prepended to the ascending run.
    pub fn extend_by(self, depth: usize) -> (r: Vec<NormalPathStack>)
        ensures
            r@.map_values(|x: NormalPathStack| x@) == nps_extend(self@, depth as nat),
        decreases depth,
    {
        if depth == 0 {
            let mut r: Vec<NormalPathStack> = Vec::new();
            r.push(self);
            proof {
                assert(r@.map_values(|x: NormalPathStack| x@) =~= nps_extend(self@, 0));
            }
            r
        } else {
            let c1 = self.extend_by(depth - 1);
            let ghost cv = c1@.map_values(|x: NormalPathStack| x@);
            let mut r: Vec<NormalPathStack> = Vec::new();
            let mut i: usize = 0;
            while i < c1.len()
                invariant
                    i <= c1.len(),
                    cv == c1@.map_values(|x: NormalPathStack| x@),
                    r@.map_values(|x: NormalPathStack| x@) == expand_all(cv.take(i as int)),
                decreases c1.len() - i,
            {
                let mut t = c1[i].duplicate();
                t.push_completion(true);
                let mut f = c1[i].duplicate();
                f.push_completion(false);
                r.push(t);
                r.push(f);
                proof {
                    assert(cv.take(i + 1) =~= cv.take(i as int).push(cv[i as int]));
                    lemma_expand_all_snoc(cv.take(i as int), cv[i as int]);
                    assert(r@.map_values(|x: NormalPathStack| x@) =~= expand_all(cv.take(
                        i as int,
                    )) + seq![ext_with(cv[i as int], true), ext_with(cv[i as int], false)]);
                }
                i += 1;
            }
            proof {
                assert(cv.take(c1@.len() as int) =~= cv);
            }
            r
        }
    }
}

/// Strictly increasing label keys: the canonical association order.
pub open spec fn sorted_lkeys<X>(s: Seq<(NodeLabel, X)>) -> bool {
    forall|i: int, j: int| 0 <= i < j < s.len() ==> s[i].0.0 < s[j].0.0
}

/// Index of the first entry whose label is at least `key`, or the length.
pub open spec fn find_lpos<X>(s: Seq<(NodeLabel, X)>, key: u64) -> nat
    decreases s.len(),
{
    if s.len() == 0 {
        0
    } else if s[0].0.0 >= key {
        0
    } else {
        1 + find_lpos(s.drop_first(), key)
    }
}

pub proof fn lemma_find_lpos<X>(s: Seq<(NodeLabel, X)>, key: u64)
    ensures
        find_lpos(s, key) <= s.len(),
        find_lpos(s, key) < s.len() ==> s[find_lpos(s, key) as int].0.0 >= key,
        forall|k: int| 0 <= k < find_lpos(s, key) ==> s[k].0.0 < key,
    decreases s.len(),
{
    if s.len() > 0 && s[0].0.0 < key {
        lemma_find_lpos(s.drop_first(), key);
        assert forall|k: int| 0 <= k < find_lpos(s, key) implies s[k].0.0 < key by {
            if k > 0 {
                assert(s.drop_first()[k - 1].0.0 < key);
            }
        }
    }
}

/// The value stored under `key`, if any.
pub open spec fn lookup_l<X>(s: Seq<(NodeLabel, X)>, key: u64) -> Option<X> {
    let p = find_lpos(s, key) as int;
    if p < s.len() && s[p].0.0 == key {
        Some(s[p].1)
    } else {
        None
    }
}

/// The association with `v` put under `key`: replacing the present value
/// or inserted at the ordered position.
pub open spec fn assoc_put<X>(s: Seq<(NodeLabel, X)>, key: NodeLabel, v: X) -> Seq<(NodeLabel, X)> {
    let p = find_lpos(s, key.0) as int;
    if p < s.len() && s[p].0.0 == key.0 {
        s.update(p, (key, v))
    } else {
        s.take(p) + seq![(key, v)] + s.skip(p)
    }
}

/// The association without `key`.
pub open spec fn assoc_remove<X>(s: Seq<(NodeLabel, X)>, key: u64) -> Seq<(NodeLabel, X)> {
    let p = find_lpos(s, key) as int;
    if p < s.len() && s[p].0.0 == key {
        s.take(p) + s.skip(p + 1)
    } else {
        s
    }
}

/// Putting a value keeps the keys strictly sorted.
pub proof fn lemma_assoc_put_sorted<X>(s: Seq<(NodeLabel, X)>, key: NodeLabel, v: X)
    requires
        sorted_lkeys(s),
    ensures
        sorted_lkeys(assoc_put(s, key, v)),
        lookup_l(assoc_put(s, key, v), key.0) == Some(v),
{
    lemma_find_lpos(s, key.0);
    let p = find_lpos(s, key.0) as int;
    let r = assoc_put(s, key, v);
    if p < s.len() && s[p].0.0 == key.0 {
        assert(sorted_lkeys(r));
    } else {
        assert forall|i: int, j: int| 0 <= i < j < r.len() implies r[i].0.0 < r[j].0.0 by {
            if i < p && j == p {
            } else if i == p && j > p {
                assert(r[j] == s[j - 1]);
                assert(s[j - 1].0.0 >= key.0);
                assert(s[j - 1].0.0 != key.0);
            } else if i < p && j > p {
                assert(r[i] == s[i] && r[j] == s[j - 1]);
            }
        }
    }
    lemma_find_lpos(r, key.0);
    assert forall|k: int| 0 <= k < r.len() && r[k].0.0 == key.0 implies find_lpos(r, key.0) == k by {
        lemma_sorted_key_unique(r, key.0, k);
    }
    assert(r[p].0.0 == key.0);
}

/// In a sorted association the position found for a present key is its
/// only occurrence.
pub proof fn lemma_sorted_key_unique<X>(s: Seq<(NodeLabel, X)>, key: u64, k: int)
    requires
        sorted_lkeys(s),
        0 <= k < s.len(),
        s[k].0.0 == key,
    ensures
        find_lpos(s, key) == k,
{
    lemma_find_lpos(s, key);
    let p = find_lpos(s, key) as int;
    if p < k {
        assert(s[p].0.0 < s[k].0.0);
    }
    if p > k {
        assert(s[k].0.0 < key);
    }
}

/// Whether `p` is a prefix of `s`.
pub open spec fn prefix_of(p: Seq<PathItem>, s: Seq<PathItem>) -> bool {
    p.len() <= s.len() && s.take(p.len() as int) == p
}

/// The recording under `key`, or the empty recording.
pub open spec fn lookup_or_empty(s: Seq<(NodeLabel, Seq<PathItem>)>, key: u64) -> Seq<PathItem> {
    match lookup_l(s, key) {
        Some(v) => v,
        None => Seq::empty(),
    }
}

/// A recording per label crossed, keyed in canonical order.
pub struct PathStackSet {
    entries: Vec<(NodeLabel, PathStack)>,
}

impl View for PathStackSet {
    type V = Seq<(NodeLabel, Seq<PathItem>)>;

    closed spec fn view(&self) -> Seq<(NodeLabel, Seq<PathItem>)> {
        self.entries@.map_values(|e: (NodeLabel, PathStack)| (e.0, e.1@))
    }
}

/// Recording one item under its label: pushed onto that label's stack,
/// with an empty stack created at the ordered position on first sight.
pub open spec fn set_push(s: Seq<(NodeLabel, Seq<PathItem>)>, it: PathItem) -> Seq<
    (NodeLabel, Seq<PathItem>),
> {
    let p = find_lpos(s, it.label.0) as int;
    if p < s.len() && s[p].0.0 == it.label.0 {
        s.update(p, (s[p].0, s[p].1.push(it)))
    } else {
        s.take(p) + seq![(it.label, seq![it])] + s.skip(p)
    }
}

/// Recording an item keeps the keys strictly sorted.
pub proof fn lemma_set_push_sorted(s: Seq<(NodeLabel, Seq<PathItem>)>, it: PathItem)
    requires
        sorted_lkeys(s),
    ensures
        sorted_lkeys(set_push(s, it)),
    decreases s.len(),
{
    lemma_find_lpos(s, it.label.0);
    let p = find_lpos(s, it.label.0) as int;
    let r = set_push(s, it);
    if p < s.len() && s[p].0.0 == it.label.0 {
        assert(sorted_lkeys(r));
    } else {
        assert forall|i: int, j: int| 0 <= i < j < r.len() implies r[i].0.0 < r[j].0.0 by {
            if i < p && j == p {
            } else if i == p && j > p {
                assert(r[j] == s[j - 1]);
                assert(s[j - 1].0.0 >= it.label.0);
                assert(s[j - 1].0.0 != it.label.0);
            } else if i < p && j > p {
                assert(r[i] == s[i] && r[j] == s[j - 1]);
            }
        }
    }
}

impl PathStackSet {
    pub fn new() -> (r: PathStackSet)
        ensures
            r@ == Seq::<(NodeLabel, Seq<PathItem>)>::empty(),
            sorted_lkeys(r@),
    {
        let r = PathStackSet { entries: Vec::new() };
        proof {
            assert(r@ =~= Seq::<(NodeLabel, Seq<PathItem>)>::empty());
        }
        r
    }

    /// An equal, independently owned copy.
    pub fn duplicate(&self) -> (r: PathStackSet)
        ensures
            r@ == self@,
    {
        let mut entries: Vec<(NodeLabel, PathStack)> = Vec::new();
        let mut i: usize = 0;
        while i < self.entries.len()
            invariant
                i <= self.entries.len(),
                entries@.len() == i,
                forall|k: int|
                    0 <= k < i ==> entries@[k].0 == self.entries@[k].0 && entries@[k].1@
                        == self.entries@[k].1@,
            decreases self.entries.len() - i,
        {
            entries.push((self.entries[i].0, self.entries[i].1.duplicate()));
            i += 1;
        }
        let r = PathStackSet { entries };
        proof {
            assert forall|k: int| 0 <= k < r@.len() implies r@[k] == self@[k] by {
                assert(r@[k] == (entries@[k].0, entries@[k].1@));
                assert(self@[k] == (self.entries@[k].0, self.entries@[k].1@));
            }
            assert(r@ =~~= self@);
        }
        r
    }

    /// Whether nothing was recorded.
    pub fn empty(&self) -> (r: bool)
        ensures
            r == (self@.len() == 0),
    {
        self.entries.len() == 0
    }

    /// Record one item under its label.
    pub fn push(&mut self, item: PathItem)
        requires
            sorted_lkeys(old(self)@),
        ensures
            final(self)@ == set_push(old(self)@, item),
            sorted_lkeys(final(self)@),
    {
        let ghost v0 = self@;
        proof {
            assert(v0.len() == self.entries@.len());
            assert(forall|k: int|
                0 <= k < v0.len() ==> v0[k] == (self.entries@[k].0, self.entries@[k].1@));
            lemma_find_lpos(v0, item.label.0);
            lemma_set_push_sorted(v0, item);
        }
        let n = self.entries.len();
        let mut i: usize = 0;
        while i < n && self.entries[i].0.0 < item.label.0
            invariant
                i <= n,
                n == self.entries@.len(),
                *self == *old(self),
                v0 == old(self)@,
                n == v0.len(),
                forall|k: int| 0 <= k < i ==> v0[k].0.0 < item.label.0,
            decreases n - i,
        {
            i += 1;
        }
        proof {
            let p = find_lpos(v0, item.label.0) as int;
            if p < i {
                assert(v0[p].0.0 < item.label.0);
                assert(false);
            }
            if p > i {
                assert(v0[i as int] == (self.entries@[i as int].0, self.entries@[i as int].1@));
                assert(v0[i as int].0.0 < item.label.0);
                assert(false);
            }
            assert(find_lpos(v0, item.label.0) == i);
        }
        if i < n && self.entries[i].0.0 == item.label.0 {
            self.entries[i].1.push(item);
            proof {
                let r = set_push(v0, item);
                assert forall|k: int| 0 <= k < final(self)@.len() implies final(self)@[k]
                    == r[k] by {
                    assert(final(self)@[k] == (self.entries@[k].0, self.entries@[k].1@));
                    assert(v0[k] == (old(self).entries@[k].0, old(self).entries@[k].1@));
                }
                assert(final(self)@ =~~= r);
            }
        } else {
            let mut st = PathStack::new();
            st.push(item);
            self.entries.insert(i, (item.label, st));
            proof {
                let r = set_push(v0, item);
                assert forall|k: int| 0 <= k < final(self)@.len() implies final(self)@[k]
                    == r[k] by {
                    assert(final(self)@[k] == (self.entries@[k].0, self.entries@[k].1@));
                    if k < i {
                        assert(v0[k] == (old(self).entries@[k].0, old(self).entries@[k].1@));
                    } else if k > i {
                        assert(v0[k - 1] == (old(self).entries@[k - 1].0, old(self).entries@[k
                            - 1].1@));
                    }
                }
                assert(final(self)@.len() == r.len());
                assert(final(self)@ =~~= r);
            }
        }
    }

    /// Normalize every label's recording.
    pub fn normal(self) -> (r: NormalPathStackSet)
        ensures
            r@ == self@.map_values(
                |e: (NodeLabel, Seq<PathItem>)| (e.0, stack_normal(e.1)),
            ),
    {
        let ghost v0 = self@;
        let mut entries: Vec<(NodeLabel, NormalPathStack)> = Vec::new();
        let mut i: usize = 0;
        while i < self.entries.len()
            invariant
                i <= self.entries.len(),
                v0 == self@,
                self.entries@.len() == v0.len(),
                entries@.len() == i,
                forall|k: int|
                    0 <= k < i ==> entries@[k].0 == v0[k].0 && entries@[k].1@ == stack_normal(
                        v0[k].1,
                    ),
            decreases self.entries.len() - i,
        {
            let lbl = self.entries[i].0;
            let norm = self.entries[i].1.duplicate().normal();
            proof {
                assert(v0[i as int] == (self.entries@[i as int].0, self.entries@[i as int].1@));
            }
            entries.push((lbl, norm));
            i += 1;
        }
        let r = NormalPathStackSet { entries };
        proof {
            let m = v0.map_values(|e: (NodeLabel, Seq<PathItem>)| (e.0, stack_normal(e.1)));
            assert forall|k: int| 0 <= k < r@.len() implies r@[k] == m[k] by {
                assert(r@[k] == (entries@[k].0, entries@[k].1@));
            }
            assert(r@ =~~= m);
        }
        r
    }

    /// Whether every recording of `v` is a prefix of the recording this
    /// set holds under the same label, an absent recording counting as
    /// empty.
    pub fn starts_with(&self, v: &Self) -> (r: bool)
        requires
            sorted_lkeys(self@),
            sorted_lkeys(v@),
        ensures
            r == forall|key: u64|
                prefix_of(
                    #[trigger] lookup_or_empty(v@, key),
                    lookup_or_empty(self@, key),
                ),
    {
        proof {
            assert(forall|k: int|
                0 <= k < v@.len() ==> v@[k] == (v.entries@[k].0, v.entries@[k].1@));
        }
        let mut i: usize = 0;
        while i < v.entries.len()
            invariant
                i <= v.entries@.len(),
                v@.len() == v.entries@.len(),
                sorted_lkeys(self@),
                sorted_lkeys(v@),
                forall|k: int| 0 <= k < v@.len() ==> v@[k] == (v.entries@[k].0, v.entries@[k].1@),
                forall|k: int|
                    0 <= k < i ==> prefix_of(
                        (#[trigger] v@[k]).1,
                        lookup_or_empty(self@, v@[k].0.0),
                    ),
            decreases v.entries@.len() - i,
        {
            let key = v.entries[i].0;
            let mine = self.find_stack(key.0);
            let ok = match mine {
                Some(st) => st.starts_with(&v.entries[i].1),
                None => v.entries[i].1.is_empty_stack(),
            };
            proof {
                if lookup_l(self@, key.0) is None {
                    assert(lookup_or_empty(self@, key.0) == Seq::<PathItem>::empty());
                    if v@[i as int].1.len() == 0 {
                        assert(v@[i as int].1 =~= Seq::<PathItem>::empty());
                        assert(Seq::<PathItem>::empty().take(0) =~= Seq::<PathItem>::empty());
                    }
                }
                assert(ok == prefix_of(v@[i as int].1, lookup_or_empty(self@, v@[i as int].0.0)));
            }
            if !ok {
                proof {
                    lemma_sorted_key_unique(v@, key.0, i as int);
                    assert(lookup_or_empty(v@, key.0) == v@[i as int].1);
                    assert(!prefix_of(
                        lookup_or_empty(v@, key.0),
                        lookup_or_empty(self@, key.0),
                    ));
                }
                return false;
            }
            i += 1;
        }
        proof {
            assert forall|key: u64| prefix_of(
                #[trigger] lookup_or_empty(v@, key),
                lookup_or_empty(self@, key),
            ) by {
                lemma_find_lpos(v@, key);
                let p = find_lpos(v@, key) as int;
                if p < v@.len() && v@[p].0.0 == key {
                    assert(prefix_of(v@[p].1, lookup_or_empty(self@, v@[p].0.0)));
                    assert(lookup_or_empty(v@, key) == v@[p].1);
                } else {
                    assert(lookup_or_empty(v@, key) == Seq::<PathItem>::empty());
                    assert(lookup_or_empty(self@, key).take(0) =~= Seq::<PathItem>::empty());
                }
            }
        }
        true
    }

    /// The recording under `key`, if this set holds one.
    fn find_stack(&self, key: u64) -> (r: Option<&PathStack>)
        requires
            sorted_lkeys(self@),
        ensures
            r is Some ==> lookup_l(self@, key) == Some(r.unwrap()@),
            r is None ==> lookup_l(self@, key) is None,
    {
        let ghost v0 = self@;
        proof {
            lemma_find_lpos(v0, key);
            assert(forall|k: int|
                0 <= k < v0.len() ==> v0[k] == (self.entries@[k].0, self.entries@[k].1@));
        }
        let n = self.entries.len();
        let mut i: usize = 0;
        while i < n && self.entries[i].0.0 < key
            invariant
                i <= n,
                n == self.entries@.len(),
                v0 == self@,
                n == v0.len(),
                forall|k: int|
                    0 <= k < v0.len() ==> v0[k] == (self.entries@[k].0, self.entries@[k].1@),
                forall|k: int| 0 <= k < i ==> v0[k].0.0 < key,
            decreases n - i,
        {
            i += 1;
        }
        proof {
            let p = find_lpos(v0, key) as int;
            if p < i {
                assert(v0[p].0.0 < key);
                assert(false);
            }
            if p > i {
                assert(v0[i as int].0.0 < key);
                assert(false);
            }
        }
        if i < n && self.entries[i].0.0 == key {
            Some(&self.entries[i].1)
        } else {
            None
        }
    }

    /// Turn every label's recording around.
    pub fn reverse(&mut self)
        ensures
            final(self)@ == old(self)@.map_values(
                |e: (NodeLabel, Seq<PathItem>)| (e.0, stack_reversed(e.1)),
            ),
    {
        let ghost v0 = self@;
        let n = self.entries.len();
        let mut i: usize = 0;
        while i < n
            invariant
                i <= n,
                n == self.entries@.len(),
                v0.len() == n,
                forall|k: int| 0 <= k < n ==> self.entries@[k].0 == v0[k].0,
                forall|k: int| 0 <= k < i ==> self.entries@[k].1@ == stack_reversed(v0[k].1),
                forall|k: int| i <= k < n ==> self.entries@[k].1@ == v0[k].1,
            decreases n - i,
        {
            self.entries[i].1.reverse();
            i += 1;
        }
        proof {
            assert(final(self)@ =~~= v0.map_values(
                |e: (NodeLabel, Seq<PathItem>)| (e.0, stack_reversed(e.1)),
            ));
        }
    }
}

/// The normalized recordings per label, keyed in canonical order.
pub struct NormalPathStackSet {
    entries: Vec<(NodeLabel, NormalPathStack)>,
}

impl View for NormalPathStackSet {
    type V = Seq<(NodeLabel, (Seq<bool>, Seq<bool>))>;

    closed spec fn view(&self) -> Seq<(NodeLabel, (Seq<bool>, Seq<bool>))> {
        self.entries@.map_values(|e: (NodeLabel, NormalPathStack)| (e.0, e.1@))
    }
}

/// One normalized-set view.
pub type NpssView = Seq<(NodeLabel, (Seq<bool>, Seq<bool>))>;

/// The recorded length under `key`, zero when absent.
pub open spec fn lookup_len(m: Seq<(NodeLabel, usize)>, key: u64) -> usize {
    match lookup_l(m, key) {
        Some(v) => v,
        None => 0,
    }
}

/// An empty normalized recording.
pub open spec fn empty_nps() -> (Seq<bool>, Seq<bool>) {
    (Seq::<bool>::empty(), Seq::<bool>::empty())
}

/// The set with an empty recording entered under `key` if absent.
pub open spec fn insert_default(s: NpssView, key: NodeLabel) -> NpssView {
    if lookup_l(s, key.0) is Some {
        s
    } else {
        assoc_put(s, key, empty_nps())
    }
}

/// The set with an empty recording entered for every key of `m`.
pub open spec fn with_defaults(s: NpssView, m: Seq<(NodeLabel, usize)>) -> NpssView
    decreases m.len(),
{
    if m.len() == 0 {
        s
    } else {
        with_defaults(insert_default(s, m[0].0), m.drop_first())
    }
}

pub proof fn lemma_with_defaults_snoc(s: NpssView, m: Seq<(NodeLabel, usize)>, e: (NodeLabel, usize))
    ensures
        with_defaults(s, m.push(e)) == insert_default(with_defaults(s, m), e.0),
    decreases m.len(),
{
    if m.len() == 0 {
        assert(m.push(e).drop_first() =~= Seq::<(NodeLabel, usize)>::empty());
        assert(m.push(e)[0] == e);
        assert(with_defaults(s, m) == s);
        assert(with_defaults(s, m.push(e)) == with_defaults(
            insert_default(s, e.0),
            m.push(e).drop_first(),
        ));
        assert(with_defaults(insert_default(s, e.0), Seq::<(NodeLabel, usize)>::empty())
            == insert_default(s, e.0));
    } else {
        assert(m.push(e).drop_first() =~= m.drop_first().push(e));
        assert(m.push(e)[0] == m[0]);
        lemma_with_defaults_snoc(insert_default(s, m[0].0), m.drop_first(), e);
        assert(with_defaults(s, m.push(e)) == with_defaults(
            insert_default(s, m[0].0),
            m.drop_first().push(e),
        ));
        assert(with_defaults(s, m) == with_defaults(insert_default(s, m[0].0), m.drop_first()));
    }
}

/// Defaulting only adds empty entries, so the bound on descending
/// lengths carries over, and order is kept.
pub open spec fn bounded_by(s: NpssView, m: Seq<(NodeLabel, usize)>) -> bool {
    forall|j: int| 0 <= j < s.len() ==> (#[trigger] s[j]).1.0.len() <= lookup_len(m, s[j].0.0)
}

pub proof fn lemma_insert_default_sorted(s: NpssView, key: NodeLabel)
    requires
        sorted_lkeys(s),
    ensures
        sorted_lkeys(insert_default(s, key)),
{
    lemma_find_lpos(s, key.0);
    if lookup_l(s, key.0) is Some {
    } else {
        lemma_assoc_put_sorted(s, key, empty_nps());
    }
}

pub proof fn lemma_insert_default_keeps(s: NpssView, key: NodeLabel, m: Seq<(NodeLabel, usize)>)
    requires
        sorted_lkeys(s),
        bounded_by(s, m),
    ensures
        sorted_lkeys(insert_default(s, key)),
        bounded_by(insert_default(s, key), m),
{
    lemma_find_lpos(s, key.0);
    if lookup_l(s, key.0) is Some {
    } else {
        lemma_assoc_put_sorted(s, key, empty_nps());
        let r = assoc_put(s, key, empty_nps());
        let p = find_lpos(s, key.0) as int;
        assert forall|j: int| 0 <= j < r.len() implies (#[trigger] r[j]).1.0.len() <= lookup_len(
            m,
            r[j].0.0,
        ) by {
            if j < p {
                assert(r[j] == s[j]);
            } else if j == p {
                assert(r[j] == (key, empty_nps()));
            } else {
                assert(r[j] == s[j - 1]);
            }
        }
    }
}

pub proof fn lemma_with_defaults_keeps(s: NpssView, m2: Seq<(NodeLabel, usize)>, m: Seq<(NodeLabel, usize)>)
    requires
        sorted_lkeys(s),
        bounded_by(s, m),
    ensures
        sorted_lkeys(with_defaults(s, m2)),
        bounded_by(with_defaults(s, m2), m),
    decreases m2.len(),
{
    if m2.len() > 0 {
        lemma_insert_default_keeps(s, m2[0].0, m);
        lemma_with_defaults_keeps(insert_default(s, m2[0].0), m2.drop_first(), m);
    }
}

/// Every label's row of completions: the label's recording extended by
/// however much it falls short of the deepest recording of that label.
pub open spec fn extend_rows(s: NpssView, m: Seq<(NodeLabel, usize)>) -> Seq<
    (NodeLabel, Seq<(Seq<bool>, Seq<bool>)>),
> {
    s.map_values(
        |e: (NodeLabel, (Seq<bool>, Seq<bool>))|
            (e.0, nps_extend(e.1, (lookup_len(m, e.0.0) - e.1.0.len()) as nat)),
    )
}

/// Each partial set of `pre` continued with each completion of one label,
/// completion-major as the fold builds it.
pub open spec fn product_step(
    pre: Seq<NpssView>,
    lbl: NodeLabel,
    vals: Seq<(Seq<bool>, Seq<bool>)>,
) -> Seq<NpssView>
    decreases vals.len(),
{
    if vals.len() == 0 {
        Seq::empty()
    } else {
        pre.map_values(|a: NpssView| a.push((lbl, vals[0]))) + product_step(
            pre,
            lbl,
            vals.drop_first(),
        )
    }
}

pub proof fn lemma_product_step_snoc(
    pre: Seq<NpssView>,
    lbl: NodeLabel,
    vals: Seq<(Seq<bool>, Seq<bool>)>,
    x: (Seq<bool>, Seq<bool>),
)
    ensures
        product_step(pre, lbl, vals.push(x)) == product_step(pre, lbl, vals) + pre.map_values(
            |a: NpssView| a.push((lbl, x)),
        ),
    decreases vals.len(),
{
    if vals.len() == 0 {
        assert(vals.push(x).drop_first() =~= Seq::<(Seq<bool>, Seq<bool>)>::empty());
        assert(vals.push(x)[0] == x);
        assert(product_step(pre, lbl, vals) == Seq::<NpssView>::empty());
        assert(product_step(pre, lbl, vals.push(x)) == pre.map_values(
            |a: NpssView| a.push((lbl, vals.push(x)[0])),
        ) + product_step(pre, lbl, vals.push(x).drop_first()));
        assert forall|q: int| 0 <= q < product_step(pre, lbl, vals.push(x)).len() implies
            product_step(pre, lbl, vals.push(x))[q] == (product_step(pre, lbl, vals)
            + pre.map_values(|a: NpssView| a.push((lbl, x))))[q] by {
            assert(pre.map_values(|a: NpssView| a.push((lbl, vals.push(x)[0])))[q] == pre[q].push((lbl, x)));
            assert(pre.map_values(|a: NpssView| a.push((lbl, x)))[q] == pre[q].push((lbl, x)));
        }
        assert(product_step(pre, lbl, vals.push(x)) =~= product_step(pre, lbl, vals)
            + pre.map_values(|a: NpssView| a.push((lbl, x))));
    } else {
        assert(vals.push(x).drop_first() =~= vals.drop_first().push(x));
        assert(vals.push(x)[0] == vals[0]);
        lemma_product_step_snoc(pre, lbl, vals.drop_first(), x);
        let m1 = pre.map_values(|a: NpssView| a.push((lbl, vals.push(x)[0])));
        let mv = pre.map_values(|a: NpssView| a.push((lbl, vals[0])));
        let px = pre.map_values(|a: NpssView| a.push((lbl, x)));
        let pp = product_step(pre, lbl, vals.drop_first());
        assert forall|q: int| 0 <= q < m1.len() implies m1[q] == mv[q] by {
            assert(m1[q] == pre[q].push((lbl, vals.push(x)[0])));
            assert(mv[q] == pre[q].push((lbl, vals[0])));
        }
        assert(m1 =~= mv);
        assert(product_step(pre, lbl, vals.push(x)) == m1 + (pp + px));
        assert(product_step(pre, lbl, vals) == mv + pp);
        assert(m1 + (pp + px) =~= (mv + pp) + px);
    }
}

/// All combinations of one completion per label, assembled row by row in
/// ascending key order.
pub open spec fn product(rows: Seq<(NodeLabel, Seq<(Seq<bool>, Seq<bool>)>)>) -> Seq<NpssView>
    decreases rows.len(),
{
    if rows.len() == 0 {
        seq![Seq::<(NodeLabel, (Seq<bool>, Seq<bool>))>::empty()]
    } else {
        product_step(product(rows.drop_last()), rows.last().0, rows.last().1)
    }
}

/// The full set of padded variants of one normalized recording set.
pub open spec fn npss_extend_spec(s: NpssView, m: Seq<(NodeLabel, usize)>) -> Seq<NpssView> {
    product(extend_rows(with_defaults(s, m), m))
}

/// The coherence key of a padded variant: its descending runs per label.
pub open spec fn npss_key(s: NpssView) -> Seq<(NodeLabel, Seq<bool>)> {
    s.map_values(|e: (NodeLabel, (Seq<bool>, Seq<bool>))| (e.0, e.1.0))
}

/// The per-label descending lengths of a normalized recording set.
pub open spec fn npss_neg_len(s: NpssView) -> Seq<(NodeLabel, usize)> {
    s.map_values(|e: (NodeLabel, (Seq<bool>, Seq<bool>))| (e.0, e.1.0.len() as usize))
}

impl NormalPathStackSet {
    pub fn new() -> (r: NormalPathStackSet)
        ensures
            r@ == Seq::<(NodeLabel, (Seq<bool>, Seq<bool>))>::empty(),
            sorted_lkeys(r@),
    {
        let r = NormalPathStackSet { entries: Vec::new() };
        proof {
            assert(r@ =~= Seq::<(NodeLabel, (Seq<bool>, Seq<bool>))>::empty());
        }
        r
    }

    /// An equal, independently owned copy.
    pub fn duplicate(&self) -> (r: NormalPathStackSet)
        ensures
            r@ == self@,
    {
        let mut entries: Vec<(NodeLabel, NormalPathStack)> = Vec::new();
        let mut i: usize = 0;
        while i < self.entries.len()
            invariant
                i <= self.entries.len(),
                entries@.len() == i,
                forall|k: int|
                    0 <= k < i ==> entries@[k].0 == self.entries@[k].0 && entries@[k].1@
                        == self.entries@[k].1@,
            decreases self.entries.len() - i,
        {
            entries.push((self.entries[i].0, self.entries[i].1.duplicate()));
            i += 1;
        }
        let r = NormalPathStackSet { entries };
        proof {
            assert forall|k: int| 0 <= k < r@.len() implies r@[k] == self@[k] by {
                assert(r@[k] == (entries@[k].0, entries@[k].1@));
                assert(self@[k] == (self.entries@[k].0, self.entries@[k].1@));
            }
            assert(r@ =~~= self@);
        }
        r
    }

    /// The descending-run length per label.
    pub fn neg_len(&self) -> (r: Vec<(NodeLabel, usize)>)
        ensures
            r@ == npss_neg_len(self@),
            forall|j: int| 0 <= j < self@.len() ==> (#[trigger] r@[j]).1 == self@[j].1.0.len(),
    {
        let mut r: Vec<(NodeLabel, usize)> = Vec::new();
        let mut i: usize = 0;
        while i < self.entries.len()
            invariant
                i <= self.entries.len(),
                r@.len() == i,
                forall|k: int|
                    0 <= k < i ==> r@[k] == (self.entries@[k].0, self.entries@[k].1@.0.len() as usize)
                        && (#[trigger] r@[k]).1 == self.entries@[k].1@.0.len(),
            decreases self.entries.len() - i,
        {
            r.push((self.entries[i].0, self.entries[i].1.neg_len()));
            i += 1;
        }
        proof {
            assert forall|k: int| 0 <= k < r@.len() implies r@[k] == npss_neg_len(self@)[k] by {
                assert(self@[k] == (self.entries@[k].0, self.entries@[k].1@));
            }
            assert(r@ =~~= npss_neg_len(self@));
            assert forall|j: int| 0 <= j < self@.len() implies (#[trigger] r@[j]).1 == self@[j].1.0.len() by {
                assert(self@[j] == (self.entries@[j].0, self.entries@[j].1@));
            }
        }
        r
    }

    /// The coherence key: each label's descending run.
    pub fn key(&self) -> (r: Vec<(NodeLabel, Vec<bool>)>)
        ensures
            r@.map_values(|e: (NodeLabel, Vec<bool>)| (e.0, e.1@)) == npss_key(self@),
    {
        let mut r: Vec<(NodeLabel, Vec<bool>)> = Vec::new();
        let mut i: usize = 0;
        while i < self.entries.len()
            invariant
                i <= self.entries.len(),
                r@.len() == i,
                forall|k: int|
                    0 <= k < i ==> r@[k].0 == self.entries@[k].0 && r@[k].1@
                        == self.entries@[k].1@.0,
            decreases self.entries.len() - i,
        {
            let mut des: Vec<bool> = Vec::new();
            let src = &self.entries[i].1;
            let d = src.duplicate();
            let (dv, _av) = d.into_parts();
            r.push((self.entries[i].0, dv));
            i += 1;
        }
        proof {
            let f = |e: (NodeLabel, Vec<bool>)| (e.0, e.1@);
            assert forall|k: int| 0 <= k < r@.len() implies r@.map_values(f)[k] == npss_key(
                self@,
            )[k] by {
                assert(r@.map_values(f)[k] == (r@[k].0, r@[k].1@));
                assert(self@[k] == (self.entries@[k].0, self.entries@[k].1@));
            }
            assert(r@.map_values(f) =~~= npss_key(self@));
        }
        r
    }

    /// Remove the entry for `key`, if any.
    fn remove_label(&mut self, key: u64)
        requires
            sorted_lkeys(old(self)@),
        ensures
            final(self)@ == assoc_remove(old(self)@, key),
            sorted_lkeys(final(self)@),
    {
        let ghost v0 = self@;
        proof {
            lemma_find_lpos(v0, key);
            assert(forall|k: int|
                0 <= k < v0.len() ==> v0[k] == (self.entries@[k].0, self.entries@[k].1@));
        }
        let n = self.entries.len();
        let mut i: usize = 0;
        while i < n && self.entries[i].0.0 < key
            invariant
                i <= n,
                n == self.entries@.len(),
                *self == *old(self),
                v0 == old(self)@,
                n == v0.len(),
                forall|k: int| 0 <= k < i ==> v0[k].0.0 < key,
            decreases n - i,
        {
            i += 1;
        }
        proof {
            let p = find_lpos(v0, key) as int;
            if p < i {
                assert(v0[p].0.0 < key);
                assert(false);
            }
            if p > i {
                assert(v0[i as int] == (self.entries@[i as int].0, self.entries@[i as int].1@));
                assert(v0[i as int].0.0 < key);
                assert(false);
            }
        }
        if i < n && self.entries[i].0.0 == key {
            let _ = self.entries.remove(i);
            proof {
                let r = assoc_remove(v0, key);
                assert forall|k: int| 0 <= k < final(self)@.len() implies final(self)@[k]
                    == r[k] by {
                    assert(final(self)@[k] == (self.entries@[k].0, self.entries@[k].1@));
                    if k < i {
                        assert(v0[k] == (old(self).entries@[k].0, old(self).entries@[k].1@));
                    } else {
                        assert(v0[k + 1] == (old(self).entries@[k + 1].0, old(self).entries@[k
                            + 1].1@));
                    }
                }
                assert(final(self)@.len() == r.len());
                assert(final(self)@ =~~= r);
            }
        } else {
            proof {
                assert(final(self)@ == assoc_remove(v0, key));
            }
        }
    }

    /// Enter an empty recording under `key` if the set has none.
    fn ensure_key(&mut self, key: NodeLabel)
        requires
            sorted_lkeys(old(self)@),
        ensures
            final(self)@ == insert_default(old(self)@, key),
            sorted_lkeys(final(self)@),
    {
        let ghost v0 = self@;
        proof {
            lemma_find_lpos(v0, key.0);
            lemma_insert_default_sorted(v0, key);
            assert(forall|k: int|
                0 <= k < v0.len() ==> v0[k] == (self.entries@[k].0, self.entries@[k].1@));
        }
        let n = self.entries.len();
        let mut i: usize = 0;
        while i < n && self.entries[i].0.0 < key.0
            invariant
                i <= n,
                n == self.entries@.len(),
                *self == *old(self),
                v0 == old(self)@,
                n == v0.len(),
                forall|k: int| 0 <= k < i ==> v0[k].0.0 < key.0,
            decreases n - i,
        {
            i += 1;
        }
        proof {
            let p = find_lpos(v0, key.0) as int;
            if p < i {
                assert(v0[p].0.0 < key.0);
                assert(false);
            }
            if p > i {
                assert(v0[i as int] == (self.entries@[i as int].0, self.entries@[i as int].1@));
                assert(v0[i as int].0.0 < key.0);
                assert(false);
            }
        }
        if i < n && self.entries[i].0.0 == key.0 {
            proof {
                assert(final(self)@ == insert_default(v0, key));
            }
        } else {
            self.entries.insert(i, (key, NormalPathStack::new()));
            proof {
                let r = assoc_put(v0, key, empty_nps());
                assert forall|k: int| 0 <= k < final(self)@.len() implies final(self)@[k]
                    == r[k] by {
                    assert(final(self)@[k] == (self.entries@[k].0, self.entries@[k].1@));
                    if k < i {
                        assert(v0[k] == (old(self).entries@[k].0, old(self).entries@[k].1@));
                    } else if k > i {
                        assert(v0[k - 1] == (old(self).entries@[k - 1].0, old(self).entries@[k
                            - 1].1@));
                    }
                }
                assert(final(self)@.len() == r.len());
                assert(final(self)@ =~~= r);
            }
        }
    }
}

impl NormalPathStack {
    /// The two runs as plain vectors.
    pub fn into_parts(self) -> (r: (Vec<bool>, Vec<bool>))
        ensures
            r.0@ == self@.0,
            r.1@ == self@.1,
    {
        (self.des, self.asc)
    }
}

/// The length recorded for `key`, by scan.
fn lookup_len_exec(m: &Vec<(NodeLabel, usize)>, key: u64) -> (r: usize)
    requires
        sorted_lkeys(m@),
    ensures
        r == lookup_len(m@, key),
{
    proof {
        lemma_find_lpos(m@, key);
    }
    let n = m.len();
    let mut i: usize = 0;
    while i < n && m[i].0.0 < key
        invariant
            i <= n,
            n == m@.len(),
            forall|k: int| 0 <= k < i ==> m@[k].0.0 < key,
        decreases n - i,
    {
        i += 1;
    }
    proof {
        let p = find_lpos(m@, key) as int;
        if p < i {
            assert(m@[p].0.0 < key);
            assert(false);
        }
        if p > i {
            assert(m@[i as int].0.0 < key);
            assert(false);
        }
    }
    if i < n && m[i].0.0 == key {
        m[i].1
    } else {
        0
    }
}

impl NormalPathStackSet {
    /// Append an entry whose key is larger than every present key.
    fn push_entry(&mut self, lbl: NodeLabel, v: NormalPathStack)
        ensures
            final(self)@ == old(self)@.push((lbl, v@)),
    {
        self.entries.push((lbl, v));
        proof {
            assert forall|k: int| 0 <= k < final(self)@.len() implies final(self)@[k] == old(
                self,
            )@.push((lbl, v@))[k] by {
                assert(final(self)@[k] == (self.entries@[k].0, self.entries@[k].1@));
                if k < old(self)@.len() {
                    assert(old(self)@[k] == (old(self).entries@[k].0, old(self).entries@[k].1@));
                }
            }
            assert(final(self)@ =~~= old(self)@.push((lbl, v@)));
        }
    }

    /// Every padded variant of this recording set: each label's run is
    /// completed in all `2^missing` ways, rows combined in ascending key
    /// order.
    pub fn extend_by(self, max_len: &Vec<(NodeLabel, usize)>) -> (r: Vec<NormalPathStackSet>)
        requires
            sorted_lkeys(self@),
            sorted_lkeys(max_len@),
            bounded_by(self@, max_len@),
        ensures
            r@.map_values(|x: NormalPathStackSet| x@) == npss_extend_spec(self@, max_len@),
    {
        let ghost s0 = self@;
        let ghost m = max_len@;
        let mut sd = self;
        let mut i: usize = 0;
        while i < max_len.len()
            invariant
                i <= max_len.len(),
                m == max_len@,
                sorted_lkeys(m),
                sd@ == with_defaults(s0, m.take(i as int)),
                sorted_lkeys(sd@),
            decreases max_len.len() - i,
        {
            sd.ensure_key(max_len[i].0);
            proof {
                assert(m.take(i + 1) =~= m.take(i as int).push(m[i as int]));
                lemma_with_defaults_snoc(s0, m.take(i as int), m[i as int]);
            }
            i += 1;
        }
        proof {
            assert(m.take(m.len() as int) =~= m);
            lemma_with_defaults_keeps(s0, m, m);
        }
        let ghost sdv = sd@;
        let mut rows: Vec<(NodeLabel, Vec<NormalPathStack>)> = Vec::new();
        let mut j: usize = 0;
        while j < sd.entries.len()
            invariant
                j <= sd.entries.len(),
                sd@ == sdv,
                sorted_lkeys(m),
                m == max_len@,
                bounded_by(sdv, m),
                sd.entries@.len() == sdv.len(),
                rows@.len() == j,
                forall|k: int|
                    0 <= k < j ==> rows@[k].0 == extend_rows(sdv, m)[k].0 && rows@[k].1@.map_values(
                        |x: NormalPathStack| x@,
                    ) == extend_rows(sdv, m)[k].1,
            decreases sd.entries.len() - j,
        {
            proof {
                assert(sdv[j as int] == (sd.entries@[j as int].0, sd.entries@[j as int].1@));
                assert(sdv[j as int].1.0.len() <= lookup_len(m, sdv[j as int].0.0));
            }
            let lbl = sd.entries[j].0;
            let need = lookup_len_exec(max_len, lbl.0);
            let cur = sd.entries[j].1.neg_len();
            let vals = sd.entries[j].1.duplicate().extend_by(need - cur);
            rows.push((lbl, vals));
            proof {
                assert(extend_rows(sdv, m)[j as int] == (sdv[j as int].0, nps_extend(
                    sdv[j as int].1,
                    (lookup_len(m, sdv[j as int].0.0) - sdv[j as int].1.0.len()) as nat,
                )));
            }
            j += 1;
        }
        let ghost rowsv = extend_rows(sdv, m);
        let mut acc: Vec<NormalPathStackSet> = Vec::new();
        acc.push(NormalPathStackSet::new());
        proof {
            assert(rowsv.take(0) =~= Seq::<(NodeLabel, Seq<(Seq<bool>, Seq<bool>)>)>::empty());
            assert(acc@.map_values(|x: NormalPathStackSet| x@) =~= product(rowsv.take(0)));
        }
        let mut t: usize = 0;
        while t < rows.len()
            invariant
                t <= rows.len(),
                rows@.len() == rowsv.len(),
                forall|k: int|
                    0 <= k < rowsv.len() ==> rows@[k].0 == rowsv[k].0 && rows@[k].1@.map_values(
                        |x: NormalPathStack| x@,
                    ) == rowsv[k].1,
                acc@.map_values(|x: NormalPathStackSet| x@) == product(rowsv.take(t as int)),
            decreases rows.len() - t,
        {
            let ghost accv = acc@.map_values(|x: NormalPathStackSet| x@);
            let ghost valsv = rowsv[t as int].1;
            let lbl = rows[t].0;
            let mut next: Vec<NormalPathStackSet> = Vec::new();
            let mut u: usize = 0;
            while u < rows[t].1.len()
                invariant
                    t < rows@.len(),
                    u <= rows@[t as int].1@.len(),
                    rows@[t as int].1@.map_values(|x: NormalPathStack| x@) == valsv,
                    lbl == rows@[t as int].0,
                    accv == acc@.map_values(|x: NormalPathStackSet| x@),
                    next@.map_values(|x: NormalPathStackSet| x@) == product_step(
                        accv,
                        lbl,
                        valsv.take(u as int),
                    ),
                decreases rows@[t as int].1@.len() - u,
            {
                let ghost next0 = next@.map_values(|x: NormalPathStackSet| x@);
                let mut w: usize = 0;
                while w < acc.len()
                    invariant
                        t < rows@.len(),
                        u < rows@[t as int].1@.len(),
                        rows@[t as int].1@.map_values(|x: NormalPathStack| x@) == valsv,
                        lbl == rows@[t as int].0,
                        w <= acc@.len(),
                        accv == acc@.map_values(|x: NormalPathStackSet| x@),
                        next@.len() == next0.len() + w,
                        forall|k: int|
                            0 <= k < next0.len() ==> next@.map_values(|x: NormalPathStackSet| x@)[k]
                                == next0[k],
                        forall|k: int|
                            0 <= k < w ==> next@[next0.len() + k]@ == accv[k].push(
                                (lbl, valsv[u as int]),
                            ),
                    decreases acc.len() - w,
                {
                    let mut a = acc[w].duplicate();
                    let x = rows[t].1[u].duplicate();
                    proof {
                        assert(rows@[t as int].1@.map_values(|x: NormalPathStack| x@)[u as int]
                            == rows@[t as int].1@[u as int]@);
                        assert(accv[w as int] == acc@[w as int]@);
                    }
                    a.push_entry(lbl, x);
                    next.push(a);
                    w += 1;
                }
                proof {
                    assert(valsv.take(u + 1) =~= valsv.take(u as int).push(valsv[u as int]));
                    lemma_product_step_snoc(accv, lbl, valsv.take(u as int), valsv[u as int]);
                    assert forall|k: int|
                        0 <= k < next@.len() implies next@[k]@ == (product_step(
                        accv,
                        lbl,
                        valsv.take(u as int),
                    ) + accv.map_values(
                        |a: NpssView| a.push((lbl, valsv[u as int])),
                    ))[k] by {
                        if k >= next0.len() {
                            assert(next@[k]@ == accv[k - next0.len()].push((lbl, valsv[u as int])));
                            assert(accv.map_values(|a: NpssView| a.push((lbl, valsv[u as int])))[k
                                - next0.len()] == accv[k - next0.len()].push(
                                (lbl, valsv[u as int]),
                            ));
                        }
                    }
                    assert(next@.map_values(|x: NormalPathStackSet| x@) =~~= product_step(
                        accv,
                        lbl,
                        valsv.take(u + 1),
                    ));
                }
                u += 1;
            }
            acc = next;
            proof {
                assert(valsv.take(valsv.len() as int) =~= valsv);
                assert(rowsv.take(t + 1).drop_last() =~= rowsv.take(t as int));
                assert(rowsv.take(t + 1).last() == rowsv[t as int]);
                assert(product(rowsv.take(t + 1)) == product_step(
                    product(rowsv.take(t as int)),
                    rowsv[t as int].0,
                    rowsv[t as int].1,
                ));
            }
            t += 1;
        }
        proof {
            assert(rowsv.take(rowsv.len() as int) =~= rowsv);
            assert(rows@.len() == rowsv.len());
        }
        acc
    }
}

/// A per-label recording-set view.
pub type SetView = Seq<(NodeLabel, Seq<PathItem>)>;

/// The pending-snapshot map of the traversal: wire id to the recording
/// taken at its first occurrence.
pub type VarsView = Seq<(usize, Seq<(NodeLabel, Seq<PathItem>)>)>;

/// Strictly increasing wire-id keys.
pub open spec fn sorted_vkeys<X>(s: Seq<(usize, X)>) -> bool {
    forall|i: int, j: int| 0 <= i < j < s.len() ==> s[i].0 < s[j].0
}

/// Index of the first entry whose wire id is at least `key`.
pub open spec fn find_vpos<X>(s: Seq<(usize, X)>, key: usize) -> nat
    decreases s.len(),
{
    if s.len() == 0 {
        0
    } else if s[0].0 >= key {
        0
    } else {
        1 + find_vpos(s.drop_first(), key)
    }
}

pub proof fn lemma_find_vpos<X>(s: Seq<(usize, X)>, key: usize)
    ensures
        find_vpos(s, key) <= s.len(),
        find_vpos(s, key) < s.len() ==> s[find_vpos(s, key) as int].0 >= key,
        forall|k: int| 0 <= k < find_vpos(s, key) ==> s[k].0 < key,
    decreases s.len(),
{
    if s.len() > 0 && s[0].0 < key {
        lemma_find_vpos(s.drop_first(), key);
        assert forall|k: int| 0 <= k < find_vpos(s, key) implies s[k].0 < key by {
            if k > 0 {
                assert(s.drop_first()[k - 1].0 < key);
            }
        }
    }
}

/// Well-formed traversal state: ids ordered, every snapshot ordered.
pub open spec fn vars_ok(vars: VarsView) -> bool {
    sorted_vkeys(vars) && forall|j: int| 0 <= j < vars.len() ==> sorted_lkeys(
        #[trigger] vars[j].1,
    )
}

/// Each recording of a batch extended by one more item.
pub open spec fn push_all(ss: Seq<SetView>, it: PathItem) -> Seq<SetView> {
    ss.map_values(|s: SetView| set_push(s, it))
}

/// The path-recording traversal. Descending into an agent's ports records
/// a descending item per side; returning from a subtree appends the
/// matching ascending item to every recording the subtree emitted. The
/// first visit to a wire snapshots the current recording; the second
/// emits that snapshot and retires the id.
pub open spec fn traverse_spec(t: Tree, ex: SetView, vars: VarsView) -> (Seq<SetView>, VarsView)
    decreases t,
{
    match t {
        Tree::Binary { label, p1, p2 } => {
            let exl = set_push(ex, PathItem { label, first: true, enter: true });
            let exr = set_push(ex, PathItem { label, first: false, enter: true });
            let (ls, v1) = traverse_spec(*p1, exl, vars);
            let (rs, v2) = traverse_spec(*p2, exr, v1);
            (
                push_all(ls, PathItem { label, first: true, enter: false }) + push_all(
                    rs,
                    PathItem { label, first: false, enter: false },
                ),
                v2,
            )
        }
        Tree::Var { id } => {
            let p = find_vpos(vars, id) as int;
            if p < vars.len() && vars[p].0 == id {
                (seq![vars[p].1], vars.take(p) + vars.skip(p + 1))
            } else {
                (Seq::empty(), vars.take(p) + seq![(id, ex)] + vars.skip(p))
            }
        }
    }
}

/// The traversal preserves ordering of the state and of every emission.
pub proof fn lemma_traverse_keeps(t: Tree, ex: SetView, vars: VarsView)
    requires
        sorted_lkeys(ex),
        vars_ok(vars),
    ensures
        vars_ok(traverse_spec(t, ex, vars).1),
        forall|k: int|
            0 <= k < traverse_spec(t, ex, vars).0.len() ==> sorted_lkeys(
                #[trigger] traverse_spec(t, ex, vars).0[k],
            ),
    decreases t,
{
    match t {
        Tree::Binary { label, p1, p2 } => {
            let exl = set_push(ex, PathItem { label, first: true, enter: true });
            let exr = set_push(ex, PathItem { label, first: false, enter: true });
            lemma_set_push_sorted(ex, PathItem { label, first: true, enter: true });
            lemma_set_push_sorted(ex, PathItem { label, first: false, enter: true });
            let (ls, v1) = traverse_spec(*p1, exl, vars);
            lemma_traverse_keeps(*p1, exl, vars);
            let (rs, v2) = traverse_spec(*p2, exr, v1);
            lemma_traverse_keeps(*p2, exr, v1);
            let lout = push_all(ls, PathItem { label, first: true, enter: false });
            let rout = push_all(rs, PathItem { label, first: false, enter: false });
            assert forall|k: int| 0 <= k < (lout + rout).len() implies sorted_lkeys(
                #[trigger] (lout + rout)[k],
            ) by {
                if k < lout.len() {
                    assert(lout[k] == set_push(ls[k], PathItem { label, first: true, enter: false }));
                    lemma_set_push_sorted(ls[k], PathItem { label, first: true, enter: false });
                } else {
                    assert(rout[k - lout.len()] == set_push(
                        rs[k - lout.len()],
                        PathItem { label, first: false, enter: false },
                    ));
                    lemma_set_push_sorted(
                        rs[k - lout.len()],
                        PathItem { label, first: false, enter: false },
                    );
                }
            }
        }
        Tree::Var { id } => {
            lemma_find_vpos(vars, id);
            let p = find_vpos(vars, id) as int;
            if p < vars.len() && vars[p].0 == id {
                let r = vars.take(p) + vars.skip(p + 1);
                assert forall|a: int, b: int| 0 <= a < b < r.len() implies r[a].0 < r[b].0 by {
                    if b < p {
                    } else if a < p {
                        assert(r[b] == vars[b + 1]);
                    } else {
                        assert(r[a] == vars[a + 1] && r[b] == vars[b + 1]);
                    }
                }
                assert forall|j: int| 0 <= j < r.len() implies sorted_lkeys(
                    #[trigger] r[j].1,
                ) by {
                    if j < p {
                        assert(r[j] == vars[j]);
                    } else {
                        assert(r[j] == vars[j + 1]);
                    }
                }
            } else {
                let r = vars.take(p) + seq![(id, ex)] + vars.skip(p);
                assert forall|a: int, b: int| 0 <= a < b < r.len() implies r[a].0 < r[b].0 by {
                    if b < p {
                    } else if b == p {
                    } else if a < p {
                        assert(r[b] == vars[b - 1]);
                        assert(vars[b - 1].0 >= id);
                        assert(vars[b - 1].0 != id);
                    } else if a == p {
                        assert(r[b] == vars[b - 1]);
                        assert(vars[b - 1].0 >= id);
                        assert(vars[b - 1].0 != id);
                    } else {
                        assert(r[a] == vars[a - 1] && r[b] == vars[b - 1]);
                    }
                }
                assert forall|j: int| 0 <= j < r.len() implies sorted_lkeys(
                    #[trigger] r[j].1,
                ) by {
                    if j < p {
                        assert(r[j] == vars[j]);
                    } else if j == p {
                        assert(r[j] == (id, ex));
                    } else {
                        assert(r[j] == vars[j - 1]);
                    }
                }
            }
        }
    }
}

/// The view of the traversal's pending-snapshot store.
pub open spec fn vview(v: Seq<(usize, PathStackSet)>) -> VarsView {
    v.map_values(|e: (usize, PathStackSet)| (e.0, e.1@))
}

/// Record one traversal over `t`, with `ex` as the recording so far.
fn traverse(vars: &mut Vec<(usize, PathStackSet)>, t: &Tree, ex: &PathStackSet) -> (r: Vec<
    PathStackSet,
>)
    requires
        sorted_lkeys(ex@),
        vars_ok(vview(old(vars)@)),
    ensures
        ({
            let (emis, v2) = traverse_spec(*t, ex@, vview(old(vars)@));
            r@.map_values(|s: PathStackSet| s@) == emis && vview(final(vars)@) == v2
        }),
    decreases *t,
{
    proof {
        lemma_traverse_keeps(*t, ex@, vview(vars@));
        assert(forall|k: int|
            0 <= k < vars@.len() ==> vview(vars@)[k] == (vars@[k].0, vars@[k].1@));
    }
    match t {
        Tree::Binary { label, p1, p2 } => {
            let ghost vars0 = vview(vars@);
            let mut exl = ex.duplicate();
            exl.push(PathItem { label: *label, first: true, enter: true });
            let mut exr = ex.duplicate();
            exr.push(PathItem { label: *label, first: false, enter: true });
            proof {
                lemma_set_push_sorted(ex@, PathItem { label: *label, first: true, enter: true });
                lemma_set_push_sorted(ex@, PathItem { label: *label, first: false, enter: true });
            }
            let mut ls = traverse(vars, p1, &exl);
            proof {
                lemma_traverse_keeps(
                    **p1,
                    set_push(ex@, PathItem { label: *label, first: true, enter: true }),
                    vars0,
                );
            }
            let mut rs = traverse(vars, p2, &exr);
            let ghost lsv = ls@.map_values(|s: PathStackSet| s@);
            let ghost rsv = rs@.map_values(|s: PathStackSet| s@);
            proof {
                lemma_traverse_keeps(
                    **p2,
                    set_push(ex@, PathItem { label: *label, first: false, enter: true }),
                    traverse_spec(
                        **p1,
                        set_push(ex@, PathItem { label: *label, first: true, enter: true }),
                        vars0,
                    ).1,
                );
            }
            let exit_l = PathItem { label: *label, first: true, enter: false };
            let exit_r = PathItem { label: *label, first: false, enter: false };
            let mut k: usize = 0;
            while k < ls.len()
                invariant
                    k <= ls.len(),
                    ls@.len() == lsv.len(),
                    forall|q: int| 0 <= q < lsv.len() ==> sorted_lkeys(#[trigger] lsv[q]),
                    forall|q: int| k <= q < lsv.len() ==> ls@[q]@ == lsv[q],
                    forall|q: int| 0 <= q < k ==> ls@[q]@ == set_push(lsv[q], exit_l),
                decreases ls.len() - k,
            {
                proof {
                    assert(ls@[k as int]@ == lsv[k as int]);
                    assert(sorted_lkeys(lsv[k as int]));
                }
                ls[k].push(exit_l);
                k += 1;
            }
            let mut k2: usize = 0;
            while k2 < rs.len()
                invariant
                    k2 <= rs.len(),
                    rs@.len() == rsv.len(),
                    forall|q: int| 0 <= q < rsv.len() ==> sorted_lkeys(#[trigger] rsv[q]),
                    forall|q: int| k2 <= q < rsv.len() ==> rs@[q]@ == rsv[q],
                    forall|q: int| 0 <= q < k2 ==> rs@[q]@ == set_push(rsv[q], exit_r),
                decreases rs.len() - k2,
            {
                proof {
                    assert(rs@[k2 as int]@ == rsv[k2 as int]);
                    assert(sorted_lkeys(rsv[k2 as int]));
                }
                rs[k2].push(exit_r);
                k2 += 1;
            }
            ls.append(&mut rs);
            proof {
                let (emis, v2) = traverse_spec(*t, ex@, vars0);
                assert forall|q: int| 0 <= q < ls@.len() implies ls@.map_values(
                    |s: PathStackSet| s@,
                )[q] == emis[q] by {
                    if q < lsv.len() {
                        assert(ls@[q]@ == set_push(lsv[q], exit_l));
                        assert(push_all(lsv, exit_l)[q] == set_push(lsv[q], exit_l));
                    } else {
                        assert(ls@[q]@ == set_push(rsv[q - lsv.len()], exit_r));
                        assert(push_all(rsv, exit_r)[q - lsv.len()] == set_push(
                            rsv[q - lsv.len()],
                            exit_r,
                        ));
                    }
                }
                assert(ls@.map_values(|s: PathStackSet| s@) =~~= emis);
            }
            ls
        }
        Tree::Var { id } => {
            let ghost vars0 = vview(vars@);
            proof {
                lemma_find_vpos(vars0, *id);
            }
            let n = vars.len();
            let mut i: usize = 0;
            while i < n && vars[i].0 < *id
                invariant
                    i <= n,
                    n == vars@.len(),
                    *vars == *old(vars),
                    vars0 == vview(vars@),
                    n == vars0.len(),
                    forall|k: int| 0 <= k < i ==> vars0[k].0 < *id,
                decreases n - i,
            {
                i += 1;
            }
            proof {
                assert(forall|k: int|
                    0 <= k < vars@.len() ==> vview(vars@)[k] == (vars@[k].0, vars@[k].1@));
                let p = find_vpos(vars0, *id) as int;
                if p < i {
                    assert(vars0[p].0 < *id);
                    assert(false);
                }
                if p > i {
                    assert(vars0[i as int].0 < *id);
                    assert(false);
                }
            }
            if i < n && vars[i].0 == *id {
                let e = vars.remove(i);
                let mut r: Vec<PathStackSet> = Vec::new();
                r.push(e.1);
                proof {
                    let p = find_vpos(vars0, *id) as int;
                    assert forall|k: int| 0 <= k < vview(vars@).len() implies vview(vars@)[k]
                        == (vars0.take(p) + vars0.skip(p + 1))[k] by {
                        assert(vview(vars@)[k] == (vars@[k].0, vars@[k].1@));
                        if k < p {
                            assert(vars0[k] == (old(vars)@[k].0, old(vars)@[k].1@));
                        } else {
                            assert(vars0[k + 1] == (old(vars)@[k + 1].0, old(vars)@[k + 1].1@));
                        }
                    }
                    assert(vview(vars@) =~~= vars0.take(p) + vars0.skip(p + 1));
                    assert(r@.map_values(|s: PathStackSet| s@) =~~= seq![vars0[p].1]);
                }
                r
            } else {
                vars.insert(i, (*id, ex.duplicate()));
                let r: Vec<PathStackSet> = Vec::new();
                proof {
                    let p = find_vpos(vars0, *id) as int;
                    assert forall|k: int| 0 <= k < vview(vars@).len() implies vview(vars@)[k]
                        == (vars0.take(p) + seq![(*id, ex@)] + vars0.skip(p))[k] by {
                        assert(vview(vars@)[k] == (vars@[k].0, vars@[k].1@));
                        if k < p {
                            assert(vars0[k] == (old(vars)@[k].0, old(vars)@[k].1@));
                        } else if k > p {
                            assert(vars0[k - 1] == (old(vars)@[k - 1].0, old(vars)@[k - 1].1@));
                        }
                    }
                    assert(vview(vars@) =~~= vars0.take(p) + seq![(*id, ex@)] + vars0.skip(p));
                    assert(r@.map_values(|s: PathStackSet| s@) =~~= Seq::<SetView>::empty());
                }
                r
            }
        }
    }
}

/// The running maximum updated with one label's descending length.
pub open spec fn insert_max(acc: Seq<(NodeLabel, usize)>, k: NodeLabel, v: usize) -> Seq<
    (NodeLabel, usize),
> {
    let p = find_lpos(acc, k.0) as int;
    if p < acc.len() && acc[p].0.0 == k.0 {
        if acc[p].1 >= v {
            acc
        } else {
            acc.update(p, (acc[p].0, v))
        }
    } else {
        assoc_put(acc, k, v)
    }
}

/// The running maximum merged with one recording's lengths.
pub open spec fn merge_max(acc: Seq<(NodeLabel, usize)>, m: Seq<(NodeLabel, usize)>) -> Seq<
    (NodeLabel, usize),
>
    decreases m.len(),
{
    if m.len() == 0 {
        acc
    } else {
        merge_max(insert_max(acc, m[0].0, m[0].1), m.drop_first())
    }
}

/// The per-label maximum descending length over all recordings.
pub open spec fn fold_max(ns: Seq<Seq<(NodeLabel, usize)>>, acc: Seq<(NodeLabel, usize)>) -> Seq<
    (NodeLabel, usize),
>
    decreases ns.len(),
{
    if ns.len() == 0 {
        acc
    } else {
        fold_max(ns.drop_first(), merge_max(acc, ns[0]))
    }
}

pub proof fn lemma_merge_max_snoc(
    acc: Seq<(NodeLabel, usize)>,
    m: Seq<(NodeLabel, usize)>,
    e: (NodeLabel, usize),
)
    ensures
        merge_max(acc, m.push(e)) == insert_max(merge_max(acc, m), e.0, e.1),
    decreases m.len(),
{
    if m.len() == 0 {
        assert(m.push(e).drop_first() =~= Seq::<(NodeLabel, usize)>::empty());
        assert(m.push(e)[0] == e);
        assert(merge_max(insert_max(acc, e.0, e.1), Seq::<(NodeLabel, usize)>::empty())
            == insert_max(acc, e.0, e.1));
    } else {
        assert(m.push(e).drop_first() =~= m.drop_first().push(e));
        assert(m.push(e)[0] == m[0]);
        lemma_merge_max_snoc(insert_max(acc, m[0].0, m[0].1), m.drop_first(), e);
    }
}

pub proof fn lemma_fold_max_snoc(
    ns: Seq<Seq<(NodeLabel, usize)>>,
    acc: Seq<(NodeLabel, usize)>,
    x: Seq<(NodeLabel, usize)>,
)
    ensures
        fold_max(ns.push(x), acc) == merge_max(fold_max(ns, acc), x),
    decreases ns.len(),
{
    if ns.len() == 0 {
        assert(ns.push(x).drop_first() =~= Seq::<Seq<(NodeLabel, usize)>>::empty());
        assert(ns.push(x)[0] == x);
        assert(fold_max(Seq::<Seq<(NodeLabel, usize)>>::empty(), merge_max(acc, x)) == merge_max(
            acc,
            x,
        ));
    } else {
        assert(ns.push(x).drop_first() =~= ns.drop_first().push(x));
        assert(ns.push(x)[0] == ns[0]);
        lemma_fold_max_snoc(ns.drop_first(), merge_max(acc, ns[0]), x);
    }
}

/// `insert_max` keeps order and only raises recorded lengths.
pub proof fn lemma_insert_max_props(acc: Seq<(NodeLabel, usize)>, k: NodeLabel, v: usize)
    requires
        sorted_lkeys(acc),
    ensures
        sorted_lkeys(insert_max(acc, k, v)),
        forall|key: u64| lookup_len(insert_max(acc, k, v), key) >= lookup_len(acc, key),
        lookup_len(insert_max(acc, k, v), k.0) >= v,
{
    lemma_find_lpos(acc, k.0);
    let p = find_lpos(acc, k.0) as int;
    let r = insert_max(acc, k, v);
    if p < acc.len() && acc[p].0.0 == k.0 {
        assert(sorted_lkeys(r));
        assert forall|key: u64| lookup_len(r, key) >= lookup_len(acc, key) by {
            lemma_lookup_same_keys(acc, r, key);
            if key == k.0 {
                lemma_sorted_key_unique(acc, k.0, p);
                lemma_sorted_key_unique(r, k.0, p);
            }
        }
        lemma_sorted_key_unique(r, k.0, p);
    } else {
        lemma_assoc_put_sorted(acc, k, v);
        assert forall|key: u64| lookup_len(r, key) >= lookup_len(acc, key) by {
            if key == k.0 {
                assert(lookup_l(acc, key) is None);
            } else {
                lemma_lookup_put_other(acc, k, v, key);
            }
        }
    }
}

/// Two sorted associations with pointwise equal keys agree on presence,
/// and the second's values are read off at the same positions.
pub proof fn lemma_lookup_same_keys(
    a: Seq<(NodeLabel, usize)>,
    b: Seq<(NodeLabel, usize)>,
    key: u64,
)
    requires
        sorted_lkeys(a),
        sorted_lkeys(b),
        a.len() == b.len(),
        forall|j: int| 0 <= j < a.len() ==> a[j].0.0 == b[j].0.0,
    ensures
        lookup_l(a, key) is Some <==> lookup_l(b, key) is Some,
        lookup_l(a, key) is Some ==> lookup_l(b, key) == Some(
            b[find_lpos(a, key) as int].1,
        ),
{
    lemma_find_lpos(a, key);
    lemma_find_lpos(b, key);
    let pa = find_lpos(a, key) as int;
    if pa < a.len() && a[pa].0.0 == key {
        lemma_sorted_key_unique(b, key, pa);
    }
    let pb = find_lpos(b, key) as int;
    if pb < b.len() && b[pb].0.0 == key {
        lemma_sorted_key_unique(a, key, pb);
    }
}

/// Putting a fresh key leaves every other key's reading unchanged.
pub proof fn lemma_lookup_put_other(acc: Seq<(NodeLabel, usize)>, k: NodeLabel, v: usize, key: u64)
    requires
        sorted_lkeys(acc),
        lookup_l(acc, k.0) is None,
        key != k.0,
    ensures
        lookup_l(assoc_put(acc, k, v), key) == lookup_l(acc, key),
{
    lemma_find_lpos(acc, k.0);
    lemma_find_lpos(acc, key);
    lemma_assoc_put_sorted(acc, k, v);
    let p = find_lpos(acc, k.0) as int;
    let r = assoc_put(acc, k, v);
    lemma_find_lpos(r, key);
    let pa = find_lpos(acc, key) as int;
    if pa < acc.len() && acc[pa].0.0 == key {
        if pa < p {
            assert(r[pa] == acc[pa]);
            lemma_sorted_key_unique(r, key, pa);
        } else {
            assert(r[pa + 1] == acc[pa]);
            lemma_sorted_key_unique(r, key, pa + 1);
        }
    } else {
        let pr = find_lpos(r, key) as int;
        if pr < r.len() && r[pr].0.0 == key {
            if pr < p {
                assert(acc[pr].0.0 == key);
                lemma_sorted_key_unique(acc, key, pr);
            } else if pr == p {
                assert(false);
            } else {
                assert(acc[pr - 1].0.0 == key);
                lemma_sorted_key_unique(acc, key, pr - 1);
            }
        }
    }
}

/// Merging keeps order and only raises lengths, reaching every merged one.
pub proof fn lemma_merge_max_props(acc: Seq<(NodeLabel, usize)>, m: Seq<(NodeLabel, usize)>)
    requires
        sorted_lkeys(acc),
    ensures
        sorted_lkeys(merge_max(acc, m)),
        forall|key: u64| lookup_len(merge_max(acc, m), key) >= lookup_len(acc, key),
        forall|j: int|
            0 <= j < m.len() ==> lookup_len(merge_max(acc, m), (#[trigger] m[j]).0.0) >= m[j].1,
    decreases m.len(),
{
    if m.len() > 0 {
        lemma_insert_max_props(acc, m[0].0, m[0].1);
        lemma_merge_max_props(insert_max(acc, m[0].0, m[0].1), m.drop_first());
        assert forall|j: int|
            0 <= j < m.len() implies lookup_len(merge_max(acc, m), (#[trigger] m[j]).0.0)
            >= m[j].1 by {
            if j > 0 {
                assert(m.drop_first()[j - 1] == m[j]);
            }
        }
    }
}

/// The fold dominates every length of every merged recording.
pub proof fn lemma_fold_max_props(ns: Seq<Seq<(NodeLabel, usize)>>, acc: Seq<(NodeLabel, usize)>)
    requires
        sorted_lkeys(acc),
    ensures
        sorted_lkeys(fold_max(ns, acc)),
        forall|key: u64| lookup_len(fold_max(ns, acc), key) >= lookup_len(acc, key),
        forall|i: int, j: int|
            0 <= i < ns.len() && 0 <= j < ns[i].len() ==> lookup_len(
                fold_max(ns, acc),
                (#[trigger] ns[i][j]).0.0,
            ) >= ns[i][j].1,
    decreases ns.len(),
{
    if ns.len() > 0 {
        lemma_merge_max_props(acc, ns[0]);
        lemma_fold_max_props(ns.drop_first(), merge_max(acc, ns[0]));
        assert forall|i: int, j: int|
            0 <= i < ns.len() && 0 <= j < ns[i].len() implies lookup_len(
            fold_max(ns, acc),
            (#[trigger] ns[i][j]).0.0,
        ) >= ns[i][j].1 by {
            if i > 0 {
                assert(ns.drop_first()[i - 1] == ns[i]);
            }
        }
    }
}

/// The normalization of one recording set.
pub open spec fn npss_normal(s: SetView) -> NpssView {
    s.map_values(|e: (NodeLabel, Seq<PathItem>)| (e.0, stack_normal(e.1)))
}

/// The normalizations of all emissions.
pub open spec fn normals_of(emis: Seq<SetView>) -> Seq<NpssView> {
    emis.map_values(|s: SetView| npss_normal(s))
}

/// The per-label descending lengths of every normalization.
pub open spec fn neg_lens(normals: Seq<NpssView>) -> Seq<Seq<(NodeLabel, usize)>> {
    normals.map_values(|x: NpssView| npss_neg_len(x))
}

/// Every normalization with the equality-witness label dropped.
pub open spec fn strip_all(normals: Seq<NpssView>) -> Seq<NpssView> {
    normals.map_values(|x: NpssView| assoc_remove(x, EQL_LABEL))
}

/// All padded variants of all stripped normalizations, in emission order.
pub open spec fn variants_of(stripped: Seq<NpssView>, m: Seq<(NodeLabel, usize)>) -> Seq<NpssView>
    decreases stripped.len(),
{
    if stripped.len() == 0 {
        Seq::empty()
    } else {
        npss_extend_spec(stripped[0], m) + variants_of(stripped.drop_first(), m)
    }
}

pub proof fn lemma_variants_snoc(stripped: Seq<NpssView>, m: Seq<(NodeLabel, usize)>, x: NpssView)
    ensures
        variants_of(stripped.push(x), m) == variants_of(stripped, m) + npss_extend_spec(x, m),
    decreases stripped.len(),
{
    if stripped.len() == 0 {
        assert(stripped.push(x).drop_first() =~= Seq::<NpssView>::empty());
        assert(stripped.push(x)[0] == x);
        assert(variants_of(stripped, m) == Seq::<NpssView>::empty());
        assert(variants_of(stripped.push(x), m) == npss_extend_spec(x, m) + variants_of(
            Seq::<NpssView>::empty(),
            m,
        ));
        assert(variants_of(stripped.push(x), m) =~= variants_of(stripped, m) + npss_extend_spec(
            x,
            m,
        ));
    } else {
        assert(stripped.push(x).drop_first() =~= stripped.drop_first().push(x));
        assert(stripped.push(x)[0] == stripped[0]);
        lemma_variants_snoc(stripped.drop_first(), m, x);
        assert(variants_of(stripped.push(x), m) == npss_extend_spec(stripped[0], m) + (
        variants_of(stripped.drop_first(), m) + npss_extend_spec(x, m)));
        assert(variants_of(stripped, m) == npss_extend_spec(stripped[0], m) + variants_of(
            stripped.drop_first(),
            m,
        ));
        assert(variants_of(stripped.push(x), m) =~= variants_of(stripped, m) + npss_extend_spec(
            x,
            m,
        ));
    }
}

/// Removing a label keeps order and the length bound.
pub proof fn lemma_assoc_remove_keeps(s: NpssView, key: u64, m: Seq<(NodeLabel, usize)>)
    requires
        sorted_lkeys(s),
        bounded_by(s, m),
    ensures
        sorted_lkeys(assoc_remove(s, key)),
        bounded_by(assoc_remove(s, key), m),
{
    lemma_find_lpos(s, key);
    let p = find_lpos(s, key) as int;
    let r = assoc_remove(s, key);
    if p < s.len() && s[p].0.0 == key {
        assert forall|a: int, b: int| 0 <= a < b < r.len() implies r[a].0.0 < r[b].0.0 by {
            if b < p {
            } else if a < p {
                assert(r[b] == s[b + 1]);
            } else {
                assert(r[a] == s[a + 1] && r[b] == s[b + 1]);
            }
        }
        assert forall|j: int| 0 <= j < r.len() implies (#[trigger] r[j]).1.0.len() <= lookup_len(
            m,
            r[j].0.0,
        ) by {
            if j < p {
                assert(r[j] == s[j]);
            } else {
                assert(r[j] == s[j + 1]);
            }
        }
    }
}

/// Whether a net's recorded paths are globally self-consistent: after
/// normalization, maximal-depth padding, and dropping the
/// equality-witness label, no two padded recordings may share a key yet
/// differ elsewhere.
pub open spec fn tree_coherent(t: Tree) -> bool {
    let emis = traverse_spec(t, Seq::empty(), Seq::empty()).0;
    let normals = normals_of(emis);
    let maxes = fold_max(neg_lens(normals), Seq::empty());
    let variants = variants_of(strip_all(normals), maxes);
    !(exists|i: int, j: int|
        0 <= i < j < variants.len() && npss_key(variants[i]) == npss_key(variants[j]) && variants[i]
            != variants[j])
}

/// Compare two bit runs.
fn bools_eq(a: &Vec<bool>, b: &Vec<bool>) -> (r: bool)
    ensures
        r == (a@ == b@),
{
    if a.len() != b.len() {
        return false;
    }
    let mut i: usize = 0;
    while i < a.len()
        invariant
            i <= a.len(),
            a@.len() == b@.len(),
            forall|k: int| 0 <= k < i ==> a@[k] == b@[k],
        decreases a.len() - i,
    {
        if a[i] != b[i] {
            return false;
        }
        i += 1;
    }
    proof {
        assert(a@ =~= b@);
    }
    true
}

/// Compare two padded recording sets.
fn npss_eq(a: &NormalPathStackSet, b: &NormalPathStackSet) -> (r: bool)
    ensures
        r == (a@ == b@),
{
    proof {
        assert(forall|k: int|
            0 <= k < a@.len() ==> a@[k] == (a.entries@[k].0, a.entries@[k].1@));
        assert(forall|k: int|
            0 <= k < b@.len() ==> b@[k] == (b.entries@[k].0, b.entries@[k].1@));
    }
    if a.entries.len() != b.entries.len() {
        proof {
            assert(a@.len() != b@.len());
        }
        return false;
    }
    let mut i: usize = 0;
    while i < a.entries.len()
        invariant
            i <= a.entries.len(),
            a@.len() == a.entries@.len(),
            b@.len() == b.entries@.len(),
            a@.len() == b@.len(),
            forall|k: int| 0 <= k < a@.len() ==> a@[k] == (a.entries@[k].0, a.entries@[k].1@),
            forall|k: int| 0 <= k < b@.len() ==> b@[k] == (b.entries@[k].0, b.entries@[k].1@),
            forall|k: int| 0 <= k < i ==> a@[k] == b@[k],
        decreases a.entries.len() - i,
    {
        if a.entries[i].0.0 != b.entries[i].0.0 {
            proof {
                assert(a@[i as int].0 != b@[i as int].0);
            }
            return false;
        }
        let ea = &a.entries[i].1;
        let eb = &b.entries[i].1;
        if !bools_eq(&ea.des, &eb.des) || !bools_eq(&ea.asc, &eb.asc) {
            proof {
                assert(a@[i as int].1 != b@[i as int].1);
            }
            return false;
        }
        i += 1;
    }
    proof {
        assert(a@ =~~= b@);
    }
    true
}

/// The view of an extracted key.
pub open spec fn key_view(v: Seq<(NodeLabel, Vec<bool>)>) -> Seq<(NodeLabel, Seq<bool>)> {
    v.map_values(|e: (NodeLabel, Vec<bool>)| (e.0, e.1@))
}

/// Compare two extracted keys.
fn keys_eq(a: &Vec<(NodeLabel, Vec<bool>)>, b: &Vec<(NodeLabel, Vec<bool>)>) -> (r: bool)
    ensures
        r == (key_view(a@) == key_view(b@)),
{
    proof {
        assert(key_view(a@).len() == a@.len());
        assert(key_view(b@).len() == b@.len());
    }
    if a.len() != b.len() {
        return false;
    }
    let mut i: usize = 0;
    while i < a.len()
        invariant
            i <= a.len(),
            a@.len() == b@.len(),
            forall|k: int| 0 <= k < i ==> key_view(a@)[k] == key_view(b@)[k],
        decreases a.len() - i,
    {
        if a[i].0.0 != b[i].0.0 {
            proof {
                assert(key_view(a@)[i as int] == (a@[i as int].0, a@[i as int].1@));
                assert(key_view(b@)[i as int] == (b@[i as int].0, b@[i as int].1@));
                assert(key_view(a@)[i as int] != key_view(b@)[i as int]);
            }
            return false;
        }
        if !bools_eq(&a[i].1, &b[i].1) {
            proof {
                assert(key_view(a@)[i as int] == (a@[i as int].0, a@[i as int].1@));
                assert(key_view(b@)[i as int] == (b@[i as int].0, b@[i as int].1@));
                assert(key_view(a@)[i as int] != key_view(b@)[i as int]);
            }
            return false;
        }
        i += 1;
    }
    proof {
        assert(key_view(a@) =~~= key_view(b@));
    }
    true
}

/// Raise the running maximum for one label.
fn insert_max_exec(acc: &mut Vec<(NodeLabel, usize)>, k: NodeLabel, v: usize)
    requires
        sorted_lkeys(old(acc)@),
    ensures
        final(acc)@ == insert_max(old(acc)@, k, v),
        sorted_lkeys(final(acc)@),
{
    let ghost a0 = acc@;
    proof {
        lemma_find_lpos(a0, k.0);
        lemma_insert_max_props(a0, k, v);
    }
    let n = acc.len();
    let mut i: usize = 0;
    while i < n && acc[i].0.0 < k.0
        invariant
            i <= n,
            n == acc@.len(),
            *acc == *old(acc),
            a0 == old(acc)@,
            forall|q: int| 0 <= q < i ==> a0[q].0.0 < k.0,
        decreases n - i,
    {
        i += 1;
    }
    proof {
        let p = find_lpos(a0, k.0) as int;
        if p < i {
            assert(a0[p].0.0 < k.0);
            assert(false);
        }
        if p > i {
            assert(a0[i as int].0.0 < k.0);
            assert(false);
        }
    }
    if i < n && acc[i].0.0 == k.0 {
        if acc[i].1 < v {
            let lbl = acc[i].0;
            acc[i] = (lbl, v);
            proof {
                assert(final(acc)@ =~= insert_max(a0, k, v));
            }
        } else {
            proof {
                assert(final(acc)@ =~= insert_max(a0, k, v));
            }
        }
    } else {
        acc.insert(i, (k, v));
        proof {
            assert(final(acc)@ =~= insert_max(a0, k, v));
        }
    }
}

impl Tree {
    /// Decide whether the net rooted here is coherent: whether every
    /// wire's recorded path through the labeled duplication structure is
    /// reproducible however the unrecorded finer structure is filled in.
    #[verifier::rlimit(100)]
    pub fn is_coherent(&self) -> (r: bool)
        ensures
            r == tree_coherent(*self),
    {
        let ghost t = *self;
        let mut vars: Vec<(usize, PathStackSet)> = Vec::new();
        let ex = PathStackSet::new();
        proof {
            assert(vview(vars@) =~= Seq::<(usize, SetView)>::empty());
            lemma_traverse_keeps(t, ex@, vview(vars@));
        }
        let stack = traverse(&mut vars, self, &ex);
        let ghost emis = traverse_spec(t, Seq::empty(), Seq::empty()).0;
        let ghost normalsv = normals_of(emis);
        let mut normals: Vec<NormalPathStackSet> = Vec::new();
        let mut i: usize = 0;
        while i < stack.len()
            invariant
                i <= stack.len(),
                stack@.len() == emis.len(),
                forall|k: int| 0 <= k < emis.len() ==> stack@[k]@ == emis[k],
                normalsv == normals_of(emis),
                normals@.len() == i,
                forall|k: int| 0 <= k < i ==> normals@[k]@ == normalsv[k],
            decreases stack.len() - i,
        {
            let n = stack[i].duplicate().normal();
            proof {
                assert(normalsv[i as int] == npss_normal(emis[i as int]));
            }
            normals.push(n);
            i += 1;
        }
        let ghost negs = neg_lens(normalsv);
        let mut maxes: Vec<(NodeLabel, usize)> = Vec::new();
        let mut j: usize = 0;
        while j < normals.len()
            invariant
                j <= normals.len(),
                normals@.len() == normalsv.len(),
                negs == neg_lens(normalsv),
                forall|k: int| 0 <= k < normalsv.len() ==> normals@[k]@ == normalsv[k],
                maxes@ == fold_max(negs.take(j as int), Seq::<(NodeLabel, usize)>::empty()),
                sorted_lkeys(maxes@),
                forall|a: int, b: int|
                    0 <= a < j && 0 <= b < negs[a].len() ==> (#[trigger] negs[a][b]).1
                        == normalsv[a][b].1.0.len(),
            decreases normals.len() - j,
        {
            let nl = normals[j].neg_len();
            proof {
                assert(negs[j as int] == npss_neg_len(normalsv[j as int]));
            }
            let ghost m0 = maxes@;
            let ghost nlv = nl@;
            let mut u: usize = 0;
            while u < nl.len()
                invariant
                    u <= nl.len(),
                    nlv == nl@,
                    maxes@ == merge_max(m0, nlv.take(u as int)),
                    sorted_lkeys(maxes@),
                decreases nl.len() - u,
            {
                insert_max_exec(&mut maxes, nl[u].0, nl[u].1);
                proof {
                    assert(nlv.take(u + 1) =~= nlv.take(u as int).push(nlv[u as int]));
                    lemma_merge_max_snoc(m0, nlv.take(u as int), nlv[u as int]);
                }
                u += 1;
            }
            proof {
                assert(nlv.take(nlv.len() as int) =~= nlv);
                assert(negs.take(j + 1) =~= negs.take(j as int).push(negs[j as int]));
                lemma_fold_max_snoc(negs.take(j as int), Seq::<(NodeLabel, usize)>::empty(), negs[j as int]);
                assert forall|b: int| 0 <= b < negs[j as int].len() implies (#[trigger] negs[j as int][b]).1 == normalsv[j as int][b].1.0.len() by {
                    assert(nl@[b].1 == normals@[j as int]@[b].1.0.len());
                }
            }
            j += 1;
        }
        proof {
            assert(negs.take(negs.len() as int) =~= negs);
        }
        let ghost maxesv = fold_max(negs, Seq::<(NodeLabel, usize)>::empty());
        let ghost strippedv = strip_all(normalsv);
        proof {
            lemma_fold_max_props(negs, Seq::<(NodeLabel, usize)>::empty());
        }
        let mut variants: Vec<NormalPathStackSet> = Vec::new();
        let mut v: usize = 0;
        while v < normals.len()
            invariant
                v <= normals.len(),
                normals@.len() == normalsv.len(),
                strippedv == strip_all(normalsv),
                maxes@ == maxesv,
                sorted_lkeys(maxesv),
                forall|key: u64|
                    lookup_len(maxesv, key) >= lookup_len(Seq::<(NodeLabel, usize)>::empty(), key),
                forall|a: int, b: int|
                    0 <= a < negs.len() && 0 <= b < negs[a].len() ==> lookup_len(
                        maxesv,
                        (#[trigger] negs[a][b]).0.0,
                    ) >= negs[a][b].1,
                negs == neg_lens(normalsv),
                forall|a: int, b: int|
                    0 <= a < negs.len() && 0 <= b < negs[a].len() ==> (#[trigger] negs[a][b]).1
                        == normalsv[a][b].1.0.len(),
                forall|k: int| 0 <= k < normalsv.len() ==> normals@[k]@ == normalsv[k],
                forall|k: int| 0 <= k < normalsv.len() ==> sorted_lkeys(#[trigger] normalsv[k]),
                variants@.map_values(|x: NormalPathStackSet| x@) == variants_of(
                    strippedv.take(v as int),
                    maxesv,
                ),
            decreases normals.len() - v,
        {
            let mut st = normals[v].duplicate();
            proof {
                assert(bounded_by(normalsv[v as int], maxesv)) by {
                    assert forall|b: int|
                        0 <= b < normalsv[v as int].len() implies (#[trigger] normalsv[v as int][b]).1.0.len() <= lookup_len(maxesv, normalsv[v as int][b].0.0) by {
                        assert(negs[v as int] == npss_neg_len(normalsv[v as int]));
                        assert(negs[v as int][b].1 == normalsv[v as int][b].1.0.len());
                        assert(negs[v as int][b].0 == normalsv[v as int][b].0);
                        assert(lookup_len(maxesv, negs[v as int][b].0.0) >= negs[v as int][b].1);
                    }
                }
                lemma_assoc_remove_keeps(normalsv[v as int], EQL_LABEL, maxesv);
                assert(strippedv[v as int] == assoc_remove(normalsv[v as int], EQL_LABEL));
            }
            st.remove_label(EQL_LABEL);
            let mut vs = st.extend_by(&maxes);
            let ghost pre = variants@.map_values(|x: NormalPathStackSet| x@);
            let ghost vsv = vs@.map_values(|x: NormalPathStackSet| x@);
            variants.append(&mut vs);
            proof {
                assert(strippedv.take(v + 1) =~= strippedv.take(v as int).push(
                    strippedv[v as int],
                ));
                lemma_variants_snoc(strippedv.take(v as int), maxesv, strippedv[v as int]);
                assert forall|k: int|
                    0 <= k < variants@.len() implies variants@[k]@ == (pre + vsv)[k] by {
                }
                assert(variants@.map_values(|x: NormalPathStackSet| x@) =~~= pre + vsv);
            }
            v += 1;
        }
        proof {
            assert(strippedv.take(strippedv.len() as int) =~= strippedv);
            assert(normals@.len() == strippedv.len());
        }
        let ghost variantsv = variants_of(strippedv, maxesv);
        proof {
            assert(tree_coherent(t) == !(exists|i: int, j: int|
                0 <= i < j < variantsv.len() && npss_key(variantsv[i]) == npss_key(variantsv[j])
                    && variantsv[i] != variantsv[j]));
        }
        let mut table: Vec<(Vec<(NodeLabel, Vec<bool>)>, NormalPathStackSet)> = Vec::new();
        let ghost mut widx: Seq<int> = Seq::empty();
        let mut w: usize = 0;
        while w < variants.len()
            invariant
                w <= variants.len(),
                t == *self,
                tree_coherent(t) == !(exists|i: int, j: int|
                    0 <= i < j < variantsv.len() && npss_key(variantsv[i]) == npss_key(
                        variantsv[j],
                    ) && variantsv[i] != variantsv[j]),
                variants@.len() == variantsv.len(),
                forall|k2: int| 0 <= k2 < variantsv.len() ==> variants@[k2]@ == variantsv[k2],
                widx.len() == table@.len(),
                forall|q: int| 0 <= q < widx.len() ==> 0 <= #[trigger] widx[q] < w,
                forall|q: int|
                    0 <= q < table@.len() ==> (#[trigger] table@[q]).1@ == variantsv[widx[q]]
                        && key_view(table@[q].0@) == npss_key(variantsv[widx[q]]),
                forall|q2: int, q3: int|
                    0 <= q2 < q3 < table@.len() ==> key_view((#[trigger] table@[q2]).0@)
                        != key_view((#[trigger] table@[q3]).0@),
                forall|a: int|
                    0 <= a < w ==> exists|q: int|
                        0 <= q < table@.len() && npss_key(#[trigger] variantsv[a]) == key_view(
                            table@[q].0@,
                        ),
                forall|a: int, b: int|
                    0 <= a < b < w && npss_key(variantsv[a]) == npss_key(variantsv[b])
                        ==> variantsv[a] == variantsv[b],
            decreases variants.len() - w,
        {
            let ghost table0 = table@;
            let ghost widx0 = widx;
            let k = variants[w].key();
            proof {
                assert(key_view(k@) == npss_key(variantsv[w as int]));
            }
            let mut found = false;
            let mut q: usize = 0;
            while q < table.len() && !found
                invariant
                    w < variants@.len(),
                    t == *self,
                    tree_coherent(t) == !(exists|i: int, j: int|
                        0 <= i < j < variantsv.len() && npss_key(variantsv[i]) == npss_key(
                            variantsv[j],
                        ) && variantsv[i] != variantsv[j]),
                    q <= table@.len(),
                    variants@.len() == variantsv.len(),
                    forall|k2: int| 0 <= k2 < variantsv.len() ==> variants@[k2]@ == variantsv[k2],
                    widx.len() == table@.len(),
                    forall|q2: int| 0 <= q2 < widx.len() ==> 0 <= #[trigger] widx[q2] < w,
                    forall|q2: int|
                        0 <= q2 < table@.len() ==> (#[trigger] table@[q2]).1@ == variantsv[widx[q2]] && key_view(table@[q2].0@) == npss_key(variantsv[widx[q2]]),
                    table@ == table0,
                    widx == widx0,
                    key_view(k@) == npss_key(variantsv[w as int]),
                    !found ==> forall|q2: int|
                        0 <= q2 < q ==> key_view((#[trigger] table@[q2]).0@) != key_view(k@),
                    found ==> q < table@.len() && key_view(table@[q as int].0@) == key_view(k@)
                        && table@[q as int].1@ == variantsv[w as int],
                decreases table@.len() - q + (if found {
                    0int
                } else {
                    1int
                }),
            {
                if keys_eq(&table[q].0, &k) {
                    if !npss_eq(&table[q].1, &variants[w]) {
                        proof {
                            let a = widx[q as int];
                            let b = w as int;
                            assert(npss_key(variantsv[a]) == npss_key(variantsv[b]));
                            assert(variantsv[a] != variantsv[b]);
                            assert(!tree_coherent(t)) by {
                                assert(0 <= a < b < variantsv.len() && npss_key(variantsv[a])
                                    == npss_key(variantsv[b]) && variantsv[a] != variantsv[b]);
                            }
                        }
                        return false;
                    }
                    found = true;
                } else {
                    q += 1;
                }
            }
            if !found {
                table.push((k, variants[w].duplicate()));
                proof {
                    widx = widx.push(w as int);
                }
            }
            proof {
                let wi = w as int;
                assert forall|a: int|
                    0 <= a < wi + 1 implies exists|q0: int|
                        0 <= q0 < table@.len() && npss_key(#[trigger] variantsv[a]) == key_view(
                            table@[q0].0@,
                        ) by {
                    if a == wi {
                        if found {
                            assert(npss_key(variantsv[a]) == key_view(table@[q as int].0@));
                        } else {
                            assert(npss_key(variantsv[a]) == key_view(
                                table@[table@.len() - 1].0@,
                            ));
                        }
                    } else {
                        let q0 = choose|q0: int|
                            0 <= q0 < table0.len() && npss_key(variantsv[a]) == key_view(
                                table0[q0].0@,
                            );
                        assert(table@[q0] == table0[q0]);
                        assert(npss_key(variantsv[a]) == key_view(table@[q0].0@));
                    }
                }
                assert forall|a: int, b: int|
                    0 <= a < b < wi + 1 && npss_key(variantsv[a]) == npss_key(variantsv[b])
                        implies variantsv[a] == variantsv[b] by {
                    if b == wi {
                        let qa = choose|qa: int|
                            0 <= qa < table0.len() && npss_key(variantsv[a]) == key_view(
                                table0[qa].0@,
                            );
                        if found {
                            assert(key_view(table0[qa].0@) == key_view(table0[q as int].0@));
                            assert(qa == q as int);
                            let ia = widx0[qa];
                            assert(variantsv[ia] == table0[qa].1@);
                            assert(variantsv[ia] == variantsv[b]);
                            assert(npss_key(variantsv[a]) == npss_key(variantsv[ia]));
                            if a != ia {
                                if a < ia {
                                    assert(variantsv[a] == variantsv[ia]);
                                } else {
                                    assert(variantsv[ia] == variantsv[a]);
                                }
                            }
                        } else {
                            assert(key_view(table0[qa].0@) != key_view(k@));
                            assert(false);
                        }
                    }
                }
            }
            w += 1;
        }
        true
    }
}

/// What `Net::is_coherent` decides: coherence of the root after all of
/// its reachable wire references have been resolved.
pub open spec fn net_coherent(n: Net) -> bool {
    tree_coherent(resolve_tree(n.root, n.vars@).0)
}

impl Net {
    /// Resolve the net's wires, then check the root for coherence. This
    /// consumes the wire cells it follows, as resolution does.
    pub fn is_coherent(&mut self) -> (r: bool)
        ensures
            r == net_coherent(*old(self)),
            ({
                let (rt, ss1) = resolve_tree(old(self).root, old(self).vars@);
                let (ps, ss2) = resolve_pairs(old(self).redexes@, ss1);
                final(self).root == rt && final(self).redexes@ == ps && final(self).vars@ == ss2
            }),
    {
        self.resolve_vars();
        self.root.is_coherent()
    }
}

/// Coherence is a pure function of the net's structure: two nets with the
/// same root and the same wire store are judged alike, whatever else they
/// carry and however they were built.
pub proof fn lemma_coherence_deterministic(a: Net, b: Net)
    requires
        a.root == b.root,
        a.vars@ == b.vars@,
    ensures
        net_coherent(a) == net_coherent(b),
{
}

} // verus!
