//! The stored form of a model, and the checks made when one is brought back.
use vstd::prelude::*;
use crate::counts::{
    Entry, sum_counts, count_of, has_key, lemma_count_distinct, lemma_count_concat, lemma_sum_concat,
    lemma_single,
};
use crate::keys::{lex_lt, lemma_lex_irreflexive, lemma_lex_total};
use crate::model::{MarkovModel, ModelError, ModelView, lemma_keys_distinct};
use crate::text::{chars_of, string_of};

verus! {

/// A model as plain values, in the shape it is stored in: its order, its
/// (sequence, count) pairs and its recorded total.
pub struct ModelRecord {
    pub order: usize,
    pub frequencies: Vec<(String, u64)>,
    pub total_occurrences: u64,
}

impl View for ModelRecord {
    type V = ModelView;

    open spec fn view(&self) -> ModelView {
        ModelView {
            order: self.order as nat,
            entries: self.frequencies@.map_values(|e: (String, u64)| (e.0@, e.1 as nat)),
            total: self.total_occurrences as nat,
        }
    }
}

/// A record that can be restored: positive order, keys of that length with
/// none repeated, and a stored total equal to the sum of the counts.
pub open spec fn record_ok(rec: ModelView) -> bool {
    &&& rec.order > 0
    &&& forall|i: int| 0 <= i < rec.entries.len() ==> (#[trigger] rec.entries[i]).0.len() == rec.order
    &&& forall|i: int, j: int|
        0 <= i < j < rec.entries.len() ==> (#[trigger] rec.entries[i]).0 != (#[trigger] rec.entries[j]).0
    &&& rec.total == sum_counts(rec.entries)
}

/// `m` is what restoring `rec` gives: a well-formed model with the record's
/// order, keys, counts and total.
pub open spec fn restores(rec: ModelView, m: ModelView) -> bool {
    &&& m.wf()
    &&& m.order == rec.order
    &&& m.total == rec.total
    &&& forall|k: Seq<char>| #[trigger] has_key(m.entries, k) <==> has_key(rec.entries, k)
    &&& forall|k: Seq<char>| #[trigger] m.count(k) == rec.count(k)
}

/// Keys strictly increase from each entry to the next.
pub open spec fn key_ordered(e: Seq<Entry>) -> bool {
    forall|i: int, j: int| 0 <= i < j < e.len() ==> lex_lt((#[trigger] e[i]).0, (#[trigger] e[j]).0)
}

/// Two key-ordered entry sequences with the same keys and the same count for
/// every key are the same sequence.
proof fn lemma_ordered_unique(a: Seq<Entry>, b: Seq<Entry>)
    requires
        key_ordered(a),
        key_ordered(b),
        forall|k: Seq<char>| #[trigger] has_key(a, k) <==> has_key(b, k),
        forall|k: Seq<char>| #[trigger] count_of(a, k) == count_of(b, k),
    ensures
        a == b,
    decreases a.len(),
{
    if a.len() == 0 {
        if b.len() > 0 {
            assert(has_key(b, b[0].0));
            assert(has_key(a, b[0].0));
            assert(false);
        }
        assert(a =~= b);
    } else {
        assert(has_key(a, a[0].0));
        let j = choose|j: int| 0 <= j < b.len() && (#[trigger] b[j]).0 == a[0].0;
        assert(has_key(b, a[0].0));
        assert(has_key(b, b[0].0));
        assert(has_key(a, b[0].0));
        let l = choose|l: int| 0 <= l < a.len() && (#[trigger] a[l]).0 == b[0].0;
        if j > 0 {
            assert(lex_lt(b[0].0, a[0].0));
            if l > 0 {
                assert(lex_lt(a[0].0, b[0].0));
                lemma_lex_total(a[0].0, b[0].0);
            } else {
                lemma_lex_irreflexive(a[0].0);
            }
        }
        let k0 = a[0].0;
        assert forall|x: int, y: int| 0 <= x < y < a.len() implies (#[trigger] a[x]).0 != (#[trigger] a[y]).0 by {
            lemma_lex_irreflexive(a[x].0);
        }
        assert forall|x: int, y: int| 0 <= x < y < b.len() implies (#[trigger] b[x]).0 != (#[trigger] b[y]).0 by {
            lemma_lex_irreflexive(b[x].0);
        }
        lemma_count_distinct(a, k0);
        lemma_count_distinct(b, k0);
        assert(count_of(a, k0) == a[0].1);
        assert(count_of(b, k0) == b[0].1);
        let a1 = a.drop_first();
        let b1 = b.drop_first();
        assert(a =~= seq![a[0]] + a1);
        assert(b =~= seq![b[0]] + b1);
        assert forall|k: Seq<char>| #[trigger] has_key(a1, k) <==> has_key(b1, k) by {
            if has_key(a1, k) {
                let x = choose|x: int| 0 <= x < a1.len() && (#[trigger] a1[x]).0 == k;
                assert(a[x + 1].0 == k);
                assert(has_key(a, k));
                assert(has_key(b, k));
                let y = choose|y: int| 0 <= y < b.len() && (#[trigger] b[y]).0 == k;
                assert(y != 0);
                assert(b1[y - 1].0 == k);
            }
            if has_key(b1, k) {
                let x = choose|x: int| 0 <= x < b1.len() && (#[trigger] b1[x]).0 == k;
                assert(b[x + 1].0 == k);
                assert(has_key(b, k));
                assert(has_key(a, k));
                let y = choose|y: int| 0 <= y < a.len() && (#[trigger] a[y]).0 == k;
                assert(y != 0);
                assert(a1[y - 1].0 == k);
            }
        }
        assert forall|k: Seq<char>| #[trigger] count_of(a1, k) == count_of(b1, k) by {
            lemma_count_concat(seq![a[0]], a1, k);
            lemma_count_concat(seq![b[0]], b1, k);
            lemma_single(a[0], k);
            lemma_single(b[0], k);
            assert(count_of(a, k) == count_of(b, k));
        }
        assert(key_ordered(a1)) by {
            assert forall|x: int, y: int| 0 <= x < y < a1.len() implies lex_lt((#[trigger] a1[x]).0, (#[trigger] a1[y]).0) by {
                assert(a1[x] == a[x + 1] && a1[y] == a[y + 1]);
            }
        }
        assert(key_ordered(b1)) by {
            assert forall|x: int, y: int| 0 <= x < y < b1.len() implies lex_lt((#[trigger] b1[x]).0, (#[trigger] b1[y]).0) by {
                assert(b1[x] == b[x + 1] && b1[y] == b[y + 1]);
            }
        }
        lemma_ordered_unique(a1, b1);
    }
}

/// Persisting a well-formed model and restoring the record gives the model
/// back: the record is accepted, and whatever restoring it yields has the
/// same order, the same (key, count) pairs and the same total.
pub proof fn lemma_persist_round_trip(m: ModelView, back: ModelView)
    requires
        m.wf(),
    ensures
        record_ok(m),
        restores(m, back) ==> back == m,
{
    lemma_keys_distinct(m);
    if restores(m, back) {
        assert forall|k: Seq<char>| #[trigger] count_of(back.entries, k) == count_of(m.entries, k) by {
            assert(back.count(k) == m.count(k));
        }
        lemma_ordered_unique(back.entries, m.entries);
    }
}

impl MarkovModel {
    /// The model as a record of plain values, entries in key order.
    pub fn persist(&self) -> (r: ModelRecord)
        requires
            self.wf(),
        ensures
            r@ == self@,
    {
        let mut out: Vec<(String, u64)> = Vec::new();
        let mut i: usize = 0;
        while i < self.len()
            invariant
                i <= self@.entries.len(),
                out@.map_values(|e: (String, u64)| (e.0@, e.1 as nat)) == self@.entries.take(i as int),
            decreases self@.entries.len() - i,
        {
            let key = string_of(self.key_at(i).as_slice());
            let c = self.count_at(i);
            assert(key@ == self@.entries[i as int].0);
            let ghost prev = out@;
            out.push((key, c));
            assert(out@ == prev.push((key, c)));
            assert(self@.entries.take(i + 1) =~= self@.entries.take(i as int).push(self@.entries[i as int]));
            assert(out@.map_values(|e: (String, u64)| (e.0@, e.1 as nat)) =~= self@.entries.take(i + 1));
            i = i + 1;
        }
        let r = ModelRecord { order: self.order(), frequencies: out, total_occurrences: self.total_occurrences() };
        assert(r@.entries =~= self@.entries);
        r
    }

    /// Rebuilds a model from a record, checking it: `ModelCorrupt` when the
    /// order is zero, a key is repeated or has the wrong length, or the stored
    /// total is not the sum of the counts.
    pub fn restore(rec: &ModelRecord) -> (r: Result<MarkovModel, ModelError>)
        ensures
            r is Ok <==> record_ok(rec@),
            r is Ok ==> restores(rec@, r->Ok_0@),
            r is Err ==> r->Err_0 == ModelError::ModelCorrupt,
    {
        if rec.order == 0 {
            return Err(ModelError::ModelCorrupt);
        }
        let ghost e = rec@.entries;
        let mut m = MarkovModel::new(rec.order);
        let mut i: usize = 0;
        assert(e.take(0) =~= Seq::<Entry>::empty());
        while i < rec.frequencies.len()
            invariant
                m.wf(),
                e == rec@.entries,
                m@.order == rec.order,
                rec.order > 0,
                i <= e.len(),
                m@.total == sum_counts(e.take(i as int)),
                forall|k: Seq<char>| #[trigger] has_key(m@.entries, k) <==> has_key(e.take(i as int), k),
                forall|k: Seq<char>| #[trigger] m@.count(k) == count_of(e.take(i as int), k),
                forall|a: int| 0 <= a < i ==> (#[trigger] e[a]).0.len() == rec.order,
                forall|a: int, b: int| 0 <= a < b < i ==> (#[trigger] e[a]).0 != (#[trigger] e[b]).0,
            decreases e.len() - i,
        {
            let key = chars_of(rec.frequencies[i].0.as_str());
            let c = rec.frequencies[i].1;
            let ghost t = e.take(i as int);
            let ghost t1 = e.take(i + 1);
            proof {
                assert(e[i as int] == (key@, c as nat));
                assert(t1 =~= t + seq![e[i as int]]);
                lemma_sum_concat(t, seq![e[i as int]]);
                lemma_single(e[i as int], key@);
            }
            if key.len() != rec.order {
                return Err(ModelError::ModelCorrupt);
            }
            let (_, found) = m.locate(key.as_slice());
            if found {
                proof {
                    let a = choose|a: int| 0 <= a < t.len() && (#[trigger] t[a]).0 == key@;
                    assert(e[a].0 == e[i as int].0);
                }
                return Err(ModelError::ModelCorrupt);
            }
            if m.total_occurrences() > u64::MAX - c {
                proof {
                    assert(e =~= t1 + e.skip(i + 1));
                    lemma_sum_concat(t1, e.skip(i + 1));
                }
                return Err(ModelError::ModelCorrupt);
            }
            proof {
                lemma_keys_distinct(m@);
                lemma_count_distinct(t, key@);
            }
            let ghost before = m@;
            m.overwrite(key, c);
            proof {
                assert forall|k: Seq<char>| #[trigger] has_key(m@.entries, k) <==> has_key(t1, k) by {
                    if has_key(t1, k) {
                        let a = choose|a: int| 0 <= a < t1.len() && (#[trigger] t1[a]).0 == k;
                        if a < i {
                            assert(t[a].0 == k);
                        }
                    }
                    if has_key(t, k) {
                        let a = choose|a: int| 0 <= a < t.len() && (#[trigger] t[a]).0 == k;
                        assert(t1[a].0 == k);
                    }
                    if k == key@ {
                        assert(t1[i as int].0 == k);
                    }
                }
                assert forall|k: Seq<char>| #[trigger] m@.count(k) == count_of(t1, k) by {
                    lemma_count_concat(t, seq![e[i as int]], k);
                    lemma_single(e[i as int], k);
                    assert(before.count(k) == count_of(t, k));
                }
                assert forall|a: int, b: int| 0 <= a < b < i + 1 implies (#[trigger] e[a]).0
                    != (#[trigger] e[b]).0 by {
                    if b == i && e[a].0 == e[b].0 {
                        assert(t[a].0 == key@);
                    }
                }
            }
            i = i + 1;
        }
        assert(e.take(i as int) =~= e);
        if m.total_occurrences() != rec.total_occurrences {
            return Err(ModelError::ModelCorrupt);
        }
        Ok(m)
    }
}

} // verus!
