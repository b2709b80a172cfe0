//! The frequency model: counts of fixed-length character sequences, kept in
//! lexicographic key order, with a running total.
use vstd::prelude::*;
use vstd::slice::{slice_to_vec, slice_subrange};
use crate::counts::{
    Entry, sum_counts, count_of, has_key, lemma_insert, lemma_update, lemma_entry_le_sum,
    lemma_count_distinct, lemma_sum_concat, lemma_single, lemma_filter_run,
};
use crate::keys::{
    lex_lt, compare_keys, starts_with, lemma_lex_irreflexive, lemma_lex_transitive, lemma_lex_total,
    lemma_prefix_not_after, lemma_prefix_between,
};
use crate::text::chars_of;

verus! {

/// The errors of the model and of generation from it.
#[derive(Debug, Clone, Copy, PartialEq, Eq, Structural)]
pub enum ModelError {
    /// A stored model's order differs from the order asked for.
    UsageError,
    /// Sampling was asked of a model with no occurrences.
    EmptyModel,
    /// A stored model is inconsistent: its total disagrees with its counts,
    /// its order is zero, or a key is repeated or has the wrong length.
    ModelCorrupt,
}

/// An order-k Markov model: how often each sequence of k characters occurred.
pub struct MarkovModel {
    order: usize,
    frequencies: Vec<(Vec<char>, u64)>,
    total_occurrences: u64,
}

/// The mathematical content of a model.
pub struct ModelView {
    /// The length of every key.
    pub order: nat,
    /// The (key, count) pairs, in increasing lexicographic key order.
    pub entries: Seq<Entry>,
    /// The recorded number of occurrences.
    pub total: nat,
}

impl ModelView {
    /// Keys have length `order` and are strictly increasing, so distinct.
    pub open spec fn keys_ok(self) -> bool {
        &&& forall|i: int| 0 <= i < self.entries.len() ==> (#[trigger] self.entries[i]).0.len() == self.order
        &&& forall|i: int, j: int|
            0 <= i < j < self.entries.len() ==> lex_lt(
                (#[trigger] self.entries[i]).0,
                (#[trigger] self.entries[j]).0,
            )
    }

    /// A well-formed model: positive order, ordered keys of that length, and
    /// a total that is the sum of the counts and fits in 64 bits.
    pub open spec fn wf(self) -> bool {
        &&& self.order > 0
        &&& self.keys_ok()
        &&& self.total == sum_counts(self.entries)
        &&& self.total <= u64::MAX
    }

    /// Every recorded count is positive, as training leaves them.
    pub open spec fn counts_positive(self) -> bool {
        forall|i: int| 0 <= i < self.entries.len() ==> (#[trigger] self.entries[i]).1 > 0
    }

    /// The count recorded for `k` (zero when absent).
    pub open spec fn count(self, k: Seq<char>) -> nat {
        count_of(self.entries, k)
    }
}

/// Whether an entry's key starts with `p`.
pub open spec fn key_has_prefix(p: Seq<char>) -> spec_fn(Entry) -> bool {
    |e: Entry| p.is_prefix_of(e.0)
}

/// Filtering by prefix keeps the count of each key with that prefix and
/// clears the others.
pub proof fn lemma_count_filter_prefix(e: Seq<Entry>, p: Seq<char>, k: Seq<char>)
    ensures
        count_of(e.filter(key_has_prefix(p)), k) == if p.is_prefix_of(k) {
            count_of(e, k)
        } else {
            0
        },
    decreases e.len(),
{
    reveal(Seq::filter);
    if e.len() > 0 {
        lemma_count_filter_prefix(e.drop_last(), p, k);
        let f = e.filter(key_has_prefix(p));
        let g = e.drop_last().filter(key_has_prefix(p));
        if key_has_prefix(p)(e.last()) {
            assert(f.drop_last() =~= g);
        } else {
            assert(f == g);
        }
    }
}

/// The windows of `k` consecutive characters of `s`, from left to right.
pub open spec fn windows(s: Seq<char>, k: nat) -> Seq<Seq<char>> {
    if s.len() >= k {
        Seq::new((s.len() - k + 1) as nat, |i: int| s.subrange(i, i + k))
    } else {
        Seq::empty()
    }
}

/// How many of `ws` equal `w`.
pub open spec fn occurrences(ws: Seq<Seq<char>>, w: Seq<char>) -> nat
    decreases ws.len(),
{
    if ws.len() == 0 {
        0
    } else {
        occurrences(ws.drop_last(), w) + if ws.last() == w {
            1nat
        } else {
            0nat
        }
    }
}

/// The mathematical content of a stored entry.
pub open spec fn entry_view(e: (Vec<char>, u64)) -> Entry {
    (e.0@, e.1 as nat)
}

impl View for MarkovModel {
    type V = ModelView;

    closed spec fn view(&self) -> ModelView {
        ModelView {
            order: self.order as nat,
            entries: self.frequencies@.map_values(|e: (Vec<char>, u64)| entry_view(e)),
            total: self.total_occurrences as nat,
        }
    }
}

/// Ordered keys are distinct, so each key's count is that of its one entry.
pub proof fn lemma_keys_distinct(v: ModelView)
    requires
        v.keys_ok(),
    ensures
        forall|i: int, j: int|
            0 <= i < j < v.entries.len() ==> (#[trigger] v.entries[i]).0 != (#[trigger] v.entries[j]).0,
        forall|k: Seq<char>| !has_key(v.entries, k) ==> #[trigger] v.count(k) == 0,
        forall|i: int| 0 <= i < v.entries.len() ==> #[trigger] v.count(v.entries[i].0) == v.entries[i].1,
{
    assert forall|i: int, j: int| 0 <= i < j < v.entries.len() implies (#[trigger] v.entries[i]).0
        != (#[trigger] v.entries[j]).0 by {
        lemma_lex_irreflexive(v.entries[i].0);
    }
    assert forall|k: Seq<char>| !has_key(v.entries, k) implies #[trigger] v.count(k) == 0 by {
        lemma_count_distinct(v.entries, k);
    }
    assert forall|i: int| 0 <= i < v.entries.len() implies #[trigger] v.count(v.entries[i].0)
        == v.entries[i].1 by {
        lemma_count_distinct(v.entries, v.entries[i].0);
    }
}

impl MarkovModel {
    /// The model is well formed (see `ModelView::wf`).
    pub open spec fn wf(&self) -> bool {
        self@.wf()
    }

    /// An empty model of the given order.
    pub fn new(order: usize) -> (r: MarkovModel)
        requires
            order > 0,
        ensures
            r.wf(),
            r@.order == order,
            r@.entries.len() == 0,
            r@.total == 0,
    {
        let r = MarkovModel { order, frequencies: Vec::new(), total_occurrences: 0 };
        assert(r@.entries =~= Seq::<Entry>::empty());
        r
    }

    /// Whether the model holds no entry.
    pub fn is_empty(&self) -> (r: bool)
        ensures
            r == (self@.entries.len() == 0),
    {
        self.frequencies.len() == 0
    }

    /// The order of the model.
    pub fn order(&self) -> (r: usize)
        ensures
            r == self@.order,
    {
        self.order
    }

    /// The total number of occurrences.
    pub fn total_occurrences(&self) -> (r: u64)
        ensures
            r == self@.total,
    {
        self.total_occurrences
    }

    /// The number of distinct keys.
    pub fn len(&self) -> (r: usize)
        ensures
            r == self@.entries.len(),
    {
        self.frequencies.len()
    }

    /// The key of the `i`-th entry in key order.
    pub fn key_at(&self, i: usize) -> (r: &Vec<char>)
        requires
            i < self@.entries.len(),
        ensures
            r@ == self@.entries[i as int].0,
    {
        &self.frequencies[i].0
    }

    /// The count of the `i`-th entry in key order.
    pub fn count_at(&self, i: usize) -> (r: u64)
        requires
            i < self@.entries.len(),
        ensures
            r == self@.entries[i as int].1,
    {
        self.frequencies[i].1
    }

    /// The first position whose key does not come before `key`.
    fn lower_bound(&self, key: &[char]) -> (pos: usize)
        requires
            self.wf(),
        ensures
            pos <= self@.entries.len(),
            forall|i: int| 0 <= i < pos ==> lex_lt(#[trigger] self@.entries[i].0, key@),
            forall|i: int| pos <= i < self@.entries.len() ==> !lex_lt(#[trigger] self@.entries[i].0, key@),
    {
        let mut lo: usize = 0;
        let mut hi: usize = self.frequencies.len();
        while lo < hi
            invariant
                self.wf(),
                lo <= hi <= self@.entries.len(),
                forall|i: int| 0 <= i < lo ==> lex_lt(#[trigger] self@.entries[i].0, key@),
                forall|i: int| hi <= i < self@.entries.len() ==> !lex_lt(#[trigger] self@.entries[i].0, key@),
            decreases hi - lo,
        {
            let mid = lo + (hi - lo) / 2;
            let c = compare_keys(self.frequencies[mid].0.as_slice(), key);
            assert(self@.entries[mid as int].0 == self.frequencies@[mid as int].0@);
            if c < 0 {
                assert forall|i: int| 0 <= i <= mid implies lex_lt(#[trigger] self@.entries[i].0, key@) by {
                    if i < mid {
                        lemma_lex_transitive(self@.entries[i].0, self@.entries[mid as int].0, key@);
                    }
                }
                lo = mid + 1;
            } else {
                assert forall|i: int| mid <= i < self@.entries.len() implies !lex_lt(
                    #[trigger] self@.entries[i].0,
                    key@,
                ) by {
                    if i > mid && lex_lt(self@.entries[i].0, key@) {
                        lemma_lex_transitive(self@.entries[mid as int].0, self@.entries[i].0, key@);
                        lemma_lex_irreflexive(key@);
                        lemma_lex_total(self@.entries[mid as int].0, key@);
                    }
                }
                hi = mid;
            }
        }
        lo
    }

    /// Where `key` stands or would stand in key order, and whether it is there.
    pub(crate) fn locate(&self, key: &[char]) -> (r: (usize, bool))
        requires
            self.wf(),
        ensures
            r.0 <= self@.entries.len(),
            r.1 <==> has_key(self@.entries, key@),
            r.1 ==> r.0 < self@.entries.len() && self@.entries[r.0 as int].0 == key@,
            forall|i: int| 0 <= i < r.0 ==> lex_lt(#[trigger] self@.entries[i].0, key@),
            !r.1 ==> forall|i: int|
                r.0 <= i < self@.entries.len() ==> lex_lt(key@, #[trigger] self@.entries[i].0),
    {
        let pos = self.lower_bound(key);
        let found = pos < self.frequencies.len() && compare_keys(
            self.frequencies[pos].0.as_slice(),
            key,
        ) == 0;
        proof {
            let e = self@.entries;
            if found {
                assert(e[pos as int].0 == self.frequencies@[pos as int].0@);
            } else {
                assert forall|i: int| pos <= i < e.len() implies lex_lt(key@, #[trigger] e[i].0) by {
                    lemma_lex_total(e[i].0, key@);
                    if i > pos {
                        assert(lex_lt(e[pos as int].0, e[i].0));
                        if e[i].0 == key@ {
                            lemma_lex_total(e[pos as int].0, key@);
                        }
                    } else {
                        assert(e[pos as int].0 == self.frequencies@[pos as int].0@);
                    }
                }
                assert(!has_key(e, key@)) by {
                    if has_key(e, key@) {
                        let j = choose|j: int| 0 <= j < e.len() && (#[trigger] e[j]).0 == key@;
                        if j < pos {
                            lemma_lex_irreflexive(key@);
                        } else {
                            lemma_lex_irreflexive(key@);
                        }
                    }
                }
            }
        }
        (pos, found)
    }

    /// Puts `(key, count)` at its place: over the entry of that key if there
    /// is one, else inserted at `pos`.
    fn place(&mut self, pos: usize, found: bool, key: Vec<char>, count: u64)
        requires
            old(self).wf(),
            key@.len() == old(self)@.order,
            pos <= old(self)@.entries.len(),
            found ==> pos < old(self)@.entries.len() && old(self)@.entries[pos as int].0 == key@,
            found <==> has_key(old(self)@.entries, key@),
            forall|i: int| 0 <= i < pos ==> lex_lt(#[trigger] old(self)@.entries[i].0, key@),
            !found ==> forall|i: int|
                pos <= i < old(self)@.entries.len() ==> lex_lt(key@, #[trigger] old(self)@.entries[i].0),
        ensures
            final(self)@.order == old(self)@.order,
            final(self)@.keys_ok(),
            final(self)@.total == old(self)@.total,
            sum_counts(final(self)@.entries) + old(self)@.count(key@) == sum_counts(old(self)@.entries)
                + count,
            forall|k: Seq<char>|
                #[trigger] has_key(final(self)@.entries, k) <==> (has_key(old(self)@.entries, k) || k
                    == key@),
            forall|k: Seq<char>|
                #[trigger] final(self)@.count(k) == if k == key@ {
                    count as nat
                } else {
                    old(self)@.count(k)
                },
            forall|i: int|
                0 <= i < final(self)@.entries.len() ==> (#[trigger] final(self)@.entries[i]).1 > 0
                    || final(self)@.entries[i].0 == key@ || exists|j: int|
                    0 <= j < old(self)@.entries.len() && #[trigger] old(self)@.entries[j]
                        == final(self)@.entries[i] && old(self)@.entries[j].1 == 0,
    {
        let ghost e0 = self@.entries;
        let ghost kv = key@;
        proof {
            lemma_keys_distinct(self@);
        }
        if found {
            self.frequencies.set(pos, (key, count));
            proof {
                let e1 = self@.entries;
                assert(e1 =~= e0.update(pos as int, (kv, count as nat)));
                assert forall|k: Seq<char>| #[trigger] has_key(e1, k) <==> (has_key(e0, k) || k == kv) by {
                    if has_key(e1, k) {
                        let j = choose|j: int| 0 <= j < e1.len() && (#[trigger] e1[j]).0 == k;
                        assert(e0[j].0 == k);
                    }
                    if has_key(e0, k) {
                        let j = choose|j: int| 0 <= j < e0.len() && (#[trigger] e0[j]).0 == k;
                        assert(e1[j].0 == k);
                    }
                    if k == kv {
                        assert(e1[pos as int].0 == k);
                    }
                }
                assert forall|k: Seq<char>| #[trigger] self@.count(k) == if k == kv {
                    count as nat
                } else {
                    count_of(e0, k)
                } by {
                    lemma_update(e0, pos as int, (kv, count as nat), k);
                }
                lemma_update(e0, pos as int, (kv, count as nat), kv);
                assert forall|i: int, j: int| 0 <= i < j < e1.len() implies lex_lt(
                    (#[trigger] e1[i]).0,
                    (#[trigger] e1[j]).0,
                ) by {
                    assert(e1[i].0 == e0[i].0);
                    assert(e1[j].0 == e0[j].0);
                }
                assert forall|i: int| 0 <= i < e1.len() implies (#[trigger] e1[i]).0.len() == self@.order by {
                    assert(e1[i].0 == e0[i].0);
                }
                assert forall|i: int| 0 <= i < e1.len() implies (#[trigger] e1[i]).1 > 0 || e1[i].0
                    == kv || exists|j: int|
                    0 <= j < e0.len() && #[trigger] e0[j] == e1[i] && e0[j].1 == 0 by {
                    if i != pos && e1[i].1 == 0 {
                        assert(e0[i] == e1[i]);
                    }
                }
            }
        } else {
            self.frequencies.insert(pos, (key, count));
            proof {
                let e1 = self@.entries;
                assert(e1 =~= e0.insert(pos as int, (kv, count as nat)));
                assert forall|k: Seq<char>| #[trigger] has_key(e1, k) <==> (has_key(e0, k) || k == kv) by {
                    if has_key(e1, k) {
                        let j = choose|j: int| 0 <= j < e1.len() && (#[trigger] e1[j]).0 == k;
                        if j < pos {
                            assert(e0[j].0 == k);
                        } else if j > pos {
                            assert(e0[j - 1].0 == k);
                        }
                    }
                    if has_key(e0, k) {
                        let j = choose|j: int| 0 <= j < e0.len() && (#[trigger] e0[j]).0 == k;
                        if j < pos {
                            assert(e1[j].0 == k);
                        } else {
                            assert(e1[j + 1].0 == k);
                        }
                    }
                    if k == kv {
                        assert(e1[pos as int].0 == k);
                    }
                }
                lemma_count_distinct(e0, kv);
                assert forall|k: Seq<char>| #[trigger] self@.count(k) == if k == kv {
                    count as nat
                } else {
                    count_of(e0, k)
                } by {
                    lemma_insert(e0, pos as int, (kv, count as nat), k);
                }
                lemma_insert(e0, pos as int, (kv, count as nat), kv);
                assert forall|i: int, j: int| 0 <= i < j < e1.len() implies lex_lt(
                    (#[trigger] e1[i]).0,
                    (#[trigger] e1[j]).0,
                ) by {
                    if j < pos {
                        assert(e1[i] == e0[i] && e1[j] == e0[j]);
                    } else if j == pos {
                        assert(e1[i] == e0[i]);
                    } else if i < pos {
                        assert(e1[i] == e0[i] && e1[j] == e0[j - 1]);
                        lemma_lex_transitive(e0[i].0, kv, e0[j - 1].0);
                    } else if i == pos {
                        assert(e1[j] == e0[j - 1]);
                    } else {
                        assert(e1[i] == e0[i - 1] && e1[j] == e0[j - 1]);
                    }
                }
                assert forall|i: int| 0 <= i < e1.len() implies (#[trigger] e1[i]).0.len() == self@.order by {
                    if i < pos {
                        assert(e1[i] == e0[i]);
                    } else if i > pos {
                        assert(e1[i] == e0[i - 1]);
                    }
                }
                assert forall|i: int| 0 <= i < e1.len() implies (#[trigger] e1[i]).1 > 0 || e1[i].0
                    == kv || exists|j: int|
                    0 <= j < e0.len() && #[trigger] e0[j] == e1[i] && e0[j].1 == 0 by {
                    if i < pos && e1[i].1 == 0 {
                        assert(e0[i] == e1[i]);
                    } else if i > pos && e1[i].1 == 0 {
                        assert(e0[i - 1] == e1[i]);
                    }
                }
            }
        }
    }

    /// The entries whose key starts with `p`, as a model of their own.
    pub fn submodel_of(&self, p: &[char]) -> (r: MarkovModel)
        requires
            self.wf(),
        ensures
            r.wf(),
            r@.order == self@.order,
            r@.entries == self@.entries.filter(key_has_prefix(p@)),
            r@.total == sum_counts(r@.entries),
    {
        let start = self.lower_bound(p);
        let ghost e = self@.entries;
        let mut out: Vec<(Vec<char>, u64)> = Vec::new();
        let mut total: u64 = 0;
        let mut i: usize = start;
        while i < self.frequencies.len() && starts_with(self.frequencies[i].0.as_slice(), p)
            invariant
                self.wf(),
                e == self@.entries,
                start <= i <= e.len(),
                forall|j: int| start <= j < i ==> p@.is_prefix_of(#[trigger] e[j].0),
                out@.map_values(|x: (Vec<char>, u64)| entry_view(x)) == e.subrange(start as int, i as int),
                total == sum_counts(e.subrange(start as int, i as int)),
            decreases e.len() - i,
        {
            let key = slice_to_vec(self.frequencies[i].0.as_slice());
            let c = self.frequencies[i].1;
            proof {
                assert(e[i as int] == entry_view(self.frequencies@[i as int]));
                lemma_sum_concat(e.subrange(start as int, i as int), seq![e[i as int]]);
                lemma_single(e[i as int], e[i as int].0);
                assert(e.subrange(start as int, i + 1) =~= e.subrange(start as int, i as int) + seq![e[i as int]]);
                assert(e.subrange(0, i + 1) =~= e.subrange(0, start as int) + e.subrange(start as int, i + 1));
                lemma_sum_concat(e.subrange(0, start as int), e.subrange(start as int, i + 1));
                lemma_sum_concat(e.subrange(0, i + 1), e.subrange(i + 1, e.len() as int));
                assert(e =~= e.subrange(0, i + 1) + e.subrange(i + 1, e.len() as int));
            }
            out.push((key, c));
            total = total + c;
            assert(out@.map_values(|x: (Vec<char>, u64)| entry_view(x)) =~= e.subrange(start as int, i + 1));
            i = i + 1;
        }
        proof {
            let pred = key_has_prefix(p@);
            assert forall|j: int| 0 <= j < e.len() implies (pred(#[trigger] e[j]) <==> start <= j < i) by {
                if j < start {
                    if p@.is_prefix_of(e[j].0) {
                        lemma_prefix_not_after(p@, e[j].0);
                    }
                } else if j >= i {
                    assert(e[i as int] == entry_view(self.frequencies@[i as int]));
                    if j > i && p@.is_prefix_of(e[j].0) {
                        lemma_prefix_between(p@, e[i as int].0, e[j].0);
                    }
                }
            }
            lemma_filter_run(e, pred, start as int, i as int);
        }
        let r = MarkovModel { order: self.order, frequencies: out, total_occurrences: total };
        proof {
            let f = r@.entries;
            assert(f == e.subrange(start as int, i as int));
            assert forall|a: int, b: int| 0 <= a < b < f.len() implies lex_lt(
                (#[trigger] f[a]).0,
                (#[trigger] f[b]).0,
            ) by {
                assert(f[a] == e[start + a] && f[b] == e[start + b]);
            }
            assert forall|a: int| 0 <= a < f.len() implies (#[trigger] f[a]).0.len() == r@.order by {
                assert(f[a] == e[start + a]);
            }
        }
        r
    }

    /// The entries whose key starts with `prefix`, copied into a new model of
    /// the same order, with their sum as its total.
    pub fn submodel(&self, prefix: &str) -> (r: MarkovModel)
        requires
            self.wf(),
        ensures
            r.wf(),
            r@.order == self@.order,
            r@.entries == self@.entries.filter(key_has_prefix(prefix@)),
            r@.total == sum_counts(r@.entries),
            forall|k: Seq<char>|
                #[trigger] r@.count(k) == if prefix@.is_prefix_of(k) {
                    self@.count(k)
                } else {
                    0
                },
    {
        let p = chars_of(prefix);
        let r = self.submodel_of(p.as_slice());
        assert forall|k: Seq<char>| #[trigger] r@.count(k) == if prefix@.is_prefix_of(k) {
            self@.count(k)
        } else {
            0
        } by {
            lemma_count_filter_prefix(self@.entries, prefix@, k);
        }
        r
    }

    /// Adds one occurrence of `key`.
    fn accumulate(&mut self, key: Vec<char>)
        requires
            old(self).wf(),
            key@.len() == old(self)@.order,
            old(self)@.total < u64::MAX,
        ensures
            final(self).wf(),
            final(self)@.order == old(self)@.order,
            final(self)@.total == old(self)@.total + 1,
            forall|k: Seq<char>|
                #[trigger] final(self)@.count(k) == old(self)@.count(k) + if k == key@ {
                    1nat
                } else {
                    0nat
                },
            old(self)@.counts_positive() ==> final(self)@.counts_positive(),
    {
        let (pos, found) = self.locate(key.as_slice());
        let ghost e0 = self@.entries;
        proof {
            lemma_keys_distinct(self@);
        }
        let c: u64 = if found {
            self.frequencies[pos].1
        } else {
            0
        };
        proof {
            if found {
                assert(e0[pos as int].1 == c);
                lemma_entry_le_sum(e0, pos as int);
            }
            assert(self@.count(key@) == c);
        }
        let ghost kv = key@;
        self.place(pos, found, key, c + 1);
        let ghost mid = self@;
        self.total_occurrences = self.total_occurrences + 1;
        proof {
            let e1 = self@.entries;
            assert(e1 == mid.entries);
            assert forall|k: Seq<char>| #[trigger] self@.count(k) == count_of(e0, k) + if k == kv {
                1nat
            } else {
                0nat
            } by {
                assert(mid.count(k) == self@.count(k));
            }
            if old(self)@.counts_positive() {
                assert forall|i: int| 0 <= i < e1.len() implies (#[trigger] e1[i]).1 > 0 by {
                    assert(mid.entries[i] == e1[i]);
                    if e1[i].0 == kv {
                        lemma_keys_distinct(mid);
                        assert(mid.count(kv) == e1[i].1);
                    } else if e1[i].1 == 0 {
                        let j = choose|j: int|
                            0 <= j < e0.len() && #[trigger] e0[j] == mid.entries[i] && e0[j].1 == 0;
                        assert(old(self)@.entries[j].1 > 0);
                    }
                }
            }
        }
    }

    /// Adds one occurrence of `key`, a sequence of `order` characters.
    pub fn inc_sequence_frequency(&mut self, key: &str)
        requires
            old(self).wf(),
            key@.len() == old(self)@.order,
            old(self)@.total < u64::MAX,
        ensures
            final(self).wf(),
            final(self)@.order == old(self)@.order,
            final(self)@.total == old(self)@.total + 1,
            final(self)@.total == sum_counts(final(self)@.entries),
            forall|k: Seq<char>|
                #[trigger] final(self)@.count(k) == old(self)@.count(k) + if k == key@ {
                    1nat
                } else {
                    0nat
                },
            old(self)@.counts_positive() ==> final(self)@.counts_positive(),
    {
        let k = chars_of(key);
        self.accumulate(k);
    }

    /// Sets the count of `key` to `freq`, whatever it was.
    pub(crate) fn overwrite(&mut self, key: Vec<char>, freq: u64)
        requires
            old(self).wf(),
            key@.len() == old(self)@.order,
            old(self)@.total - old(self)@.count(key@) + freq <= u64::MAX,
        ensures
            final(self).wf(),
            final(self)@.order == old(self)@.order,
            final(self)@.total == old(self)@.total - old(self)@.count(key@) + freq,
            forall|k: Seq<char>|
                #[trigger] final(self)@.count(k) == if k == key@ {
                    freq as nat
                } else {
                    old(self)@.count(k)
                },
            forall|k: Seq<char>|
                #[trigger] has_key(final(self)@.entries, k) <==> (has_key(old(self)@.entries, k) || k
                    == key@),
            old(self)@.counts_positive() && freq > 0 ==> final(self)@.counts_positive(),
    {
        let (pos, found) = self.locate(key.as_slice());
        let ghost e0 = self@.entries;
        proof {
            lemma_keys_distinct(self@);
        }
        let c: u64 = if found {
            self.frequencies[pos].1
        } else {
            0
        };
        proof {
            if found {
                assert(e0[pos as int].1 == c);
                lemma_entry_le_sum(e0, pos as int);
            }
            assert(self@.count(key@) == c);
        }
        let ghost kv = key@;
        self.place(pos, found, key, freq);
        let ghost mid = self@;
        self.total_occurrences = self.total_occurrences - c + freq;
        proof {
            let e1 = self@.entries;
            assert(e1 == mid.entries);
            assert forall|k: Seq<char>| #[trigger] self@.count(k) == if k == kv {
                freq as nat
            } else {
                count_of(e0, k)
            } by {
                assert(mid.count(k) == self@.count(k));
            }
            assert forall|k: Seq<char>| #[trigger] has_key(e1, k) <==> (has_key(e0, k) || k == kv) by {
                assert(has_key(mid.entries, k) == has_key(e1, k));
            }
            if old(self)@.counts_positive() && freq > 0 {
                assert forall|i: int| 0 <= i < e1.len() implies (#[trigger] e1[i]).1 > 0 by {
                    assert(mid.entries[i] == e1[i]);
                    if e1[i].0 == kv {
                        lemma_keys_distinct(mid);
                        assert(mid.count(kv) == e1[i].1);
                    } else if e1[i].1 == 0 {
                        let j = choose|j: int|
                            0 <= j < e0.len() && #[trigger] e0[j] == mid.entries[i] && e0[j].1 == 0;
                        assert(old(self)@.entries[j].1 > 0);
                    }
                }
            }
        }
    }

    /// Sets the count of `key`, a sequence of `order` characters, to `freq`;
    /// the total moves by the difference.
    pub fn set_frequency(&mut self, key: &str, freq: u64)
        requires
            old(self).wf(),
            key@.len() == old(self)@.order,
            old(self)@.total - old(self)@.count(key@) + freq <= u64::MAX,
        ensures
            final(self).wf(),
            final(self)@.order == old(self)@.order,
            final(self)@.total == old(self)@.total - old(self)@.count(key@) + freq,
            final(self)@.total == sum_counts(final(self)@.entries),
            forall|k: Seq<char>|
                #[trigger] final(self)@.count(k) == if k == key@ {
                    freq as nat
                } else {
                    old(self)@.count(k)
                },
            old(self)@.counts_positive() && freq > 0 ==> final(self)@.counts_positive(),
    {
        let k = chars_of(key);
        self.overwrite(k, freq);
    }

    /// Counts every window of `order` consecutive characters of `corpus`.
    pub fn train(&mut self, corpus: &str)
        requires
            old(self).wf(),
            old(self)@.total + windows(corpus@, old(self)@.order).len() <= u64::MAX,
        ensures
            final(self).wf(),
            final(self)@.order == old(self)@.order,
            final(self)@.total == old(self)@.total + windows(corpus@, old(self)@.order).len(),
            final(self)@.total == sum_counts(final(self)@.entries),
            forall|k: Seq<char>|
                #[trigger] final(self)@.count(k) == old(self)@.count(k) + occurrences(
                    windows(corpus@, old(self)@.order),
                    k,
                ),
            old(self)@.counts_positive() ==> final(self)@.counts_positive(),
    {
        let chars = chars_of(corpus);
        let k = self.order;
        let ghost ws = windows(corpus@, k as nat);
        let ghost m0 = self@;
        if chars.len() < k {
            assert forall|key: Seq<char>| #[trigger] self@.count(key) == m0.count(key) + occurrences(ws, key) by {
                assert(ws.len() == 0);
            }
            return;
        }
        let n = chars.len() - k + 1;
        let mut i: usize = 0;
        assert(ws.take(0) =~= Seq::<Seq<char>>::empty());
        while i < n
            invariant
                self.wf(),
                self@.order == k,
                k == m0.order,
                chars@ == corpus@,
                n == chars.len() - k + 1,
                ws == windows(corpus@, k as nat),
                ws.len() == n,
                i <= n,
                m0.total + n <= u64::MAX,
                self@.total == m0.total + i,
                forall|key: Seq<char>|
                    #[trigger] self@.count(key) == m0.count(key) + occurrences(ws.take(i as int), key),
                m0.counts_positive() ==> self@.counts_positive(),
            decreases n - i,
        {
            let w = slice_to_vec(slice_subrange(chars.as_slice(), i, i + k));
            assert(w@ == ws[i as int]);
            let ghost before = self@;
            self.accumulate(w);
            proof {
                assert(ws.take(i + 1).drop_last() =~= ws.take(i as int));
                assert forall|key: Seq<char>|
                    #[trigger] self@.count(key) == m0.count(key) + occurrences(ws.take(i + 1), key) by {
                    assert(before.count(key) == m0.count(key) + occurrences(ws.take(i as int), key));
                }
            }
            i = i + 1;
        }
        assert(ws.take(n as int) =~= ws);
    }

    /// The model to go on training: `existing` when there is one and it has
    /// the requested order (`UsageError` when its order differs), else a new
    /// empty model of that order.
    pub fn load_or_create(existing: Option<MarkovModel>, order: usize) -> (r: Result<MarkovModel, ModelError>)
        requires
            order > 0,
            existing is Some ==> existing->0.wf(),
        ensures
            r is Ok ==> r->Ok_0.wf(),
            r is Err ==> r->Err_0 == ModelError::UsageError,
            existing is None ==> r is Ok && r->Ok_0@.order == order && r->Ok_0@.entries.len() == 0
                && r->Ok_0@.total == 0,
            existing is Some ==> (r is Ok <==> existing->0@.order == order),
            existing is Some && r is Ok ==> r->Ok_0@ == existing->0@,
    {
        match existing {
            Some(m) => {
                if m.order == order {
                    Ok(m)
                } else {
                    Err(ModelError::UsageError)
                }
            },
            None => Ok(MarkovModel::new(order)),
        }
    }

    /// The count recorded for `key` (zero when absent).
    pub fn frequency(&self, key: &str) -> (r: u64)
        requires
            self.wf(),
        ensures
            r == self@.count(key@),
    {
        let k = chars_of(key);
        let (pos, found) = self.locate(k.as_slice());
        proof {
            lemma_keys_distinct(self@);
        }
        if found {
            self.frequencies[pos].1
        } else {
            0
        }
    }
}

} // verus!
