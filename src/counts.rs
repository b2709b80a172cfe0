//! Spec-level arithmetic over sequences of (key, count) entries.
use vstd::prelude::*;

verus! {

/// One entry of a frequency table: a key and its count.
pub type Entry = (Seq<char>, nat);

/// The sum of all counts.
pub open spec fn sum_counts(e: Seq<Entry>) -> nat
    decreases e.len(),
{
    if e.len() == 0 {
        0
    } else {
        sum_counts(e.drop_last()) + e.last().1
    }
}

/// The count recorded for `k`: the sum of the counts of the entries keyed by `k`
/// (zero when there is none).
pub open spec fn count_of(e: Seq<Entry>, k: Seq<char>) -> nat
    decreases e.len(),
{
    if e.len() == 0 {
        0
    } else {
        count_of(e.drop_last(), k) + if e.last().0 == k {
            e.last().1
        } else {
            0
        }
    }
}

/// Whether some entry is keyed by `k`.
pub open spec fn has_key(e: Seq<Entry>, k: Seq<char>) -> bool {
    exists|i: int| 0 <= i < e.len() && (#[trigger] e[i]).0 == k
}

pub proof fn lemma_sum_concat(a: Seq<Entry>, b: Seq<Entry>)
    ensures
        sum_counts(a + b) == sum_counts(a) + sum_counts(b),
    decreases b.len(),
{
    if b.len() > 0 {
        assert((a + b).drop_last() =~= a + b.drop_last());
        lemma_sum_concat(a, b.drop_last());
    } else {
        assert(a + b =~= a);
    }
}

pub proof fn lemma_count_concat(a: Seq<Entry>, b: Seq<Entry>, k: Seq<char>)
    ensures
        count_of(a + b, k) == count_of(a, k) + count_of(b, k),
    decreases b.len(),
{
    if b.len() > 0 {
        assert((a + b).drop_last() =~= a + b.drop_last());
        lemma_count_concat(a, b.drop_last(), k);
    } else {
        assert(a + b =~= a);
    }
}

pub proof fn lemma_single(x: Entry, k: Seq<char>)
    ensures
        sum_counts(seq![x]) == x.1,
        count_of(seq![x], k) == if x.0 == k {
            x.1
        } else {
            0
        },
{
    let z = Seq::<Entry>::empty();
    assert(seq![x].drop_last() =~= z);
    assert(sum_counts(z) == 0);
    assert(count_of(z, k) == 0);
}

/// Inserting an entry adds its count to the sum and to the count of its key.
pub proof fn lemma_insert(e: Seq<Entry>, i: int, x: Entry, k: Seq<char>)
    requires
        0 <= i <= e.len(),
    ensures
        sum_counts(e.insert(i, x)) == sum_counts(e) + x.1,
        count_of(e.insert(i, x), k) == count_of(e, k) + if x.0 == k {
            x.1
        } else {
            0
        },
{
    let a = e.take(i);
    let b = e.skip(i);
    assert(e.insert(i, x) =~= a + seq![x] + b);
    assert(e =~= a + b);
    lemma_sum_concat(a + seq![x], b);
    lemma_sum_concat(a, seq![x]);
    lemma_sum_concat(a, b);
    lemma_count_concat(a + seq![x], b, k);
    lemma_count_concat(a, seq![x], k);
    lemma_count_concat(a, b, k);
    lemma_single(x, k);
}

/// Replacing an entry trades its count for the new one.
pub proof fn lemma_update(e: Seq<Entry>, i: int, x: Entry, k: Seq<char>)
    requires
        0 <= i < e.len(),
    ensures
        sum_counts(e.update(i, x)) + e[i].1 == sum_counts(e) + x.1,
        count_of(e.update(i, x), k) + (if e[i].0 == k {
            e[i].1
        } else {
            0
        }) == count_of(e, k) + if x.0 == k {
            x.1
        } else {
            0
        },
{
    let a = e.take(i);
    let b = e.skip(i + 1);
    assert(e.update(i, x) =~= a + seq![x] + b);
    assert(e =~= a + seq![e[i]] + b);
    lemma_sum_concat(a + seq![x], b);
    lemma_sum_concat(a, seq![x]);
    lemma_sum_concat(a + seq![e[i]], b);
    lemma_sum_concat(a, seq![e[i]]);
    lemma_count_concat(a + seq![x], b, k);
    lemma_count_concat(a, seq![x], k);
    lemma_count_concat(a + seq![e[i]], b, k);
    lemma_count_concat(a, seq![e[i]], k);
    lemma_single(x, k);
    lemma_single(e[i], k);
}

/// No single count exceeds the sum.
pub proof fn lemma_entry_le_sum(e: Seq<Entry>, i: int)
    requires
        0 <= i < e.len(),
    ensures
        e[i].1 <= sum_counts(e),
{
    let a = e.take(i);
    let b = e.skip(i + 1);
    assert(e =~= a + seq![e[i]] + b);
    lemma_sum_concat(a + seq![e[i]], b);
    lemma_sum_concat(a, seq![e[i]]);
    lemma_single(e[i], e[i].0);
}

/// Where keys are distinct, the count of a key is that of its one entry,
/// and a key without an entry counts zero.
pub proof fn lemma_count_distinct(e: Seq<Entry>, k: Seq<char>)
    requires
        forall|i: int, j: int| 0 <= i < j < e.len() ==> (#[trigger] e[i]).0 != (#[trigger] e[j]).0,
    ensures
        !has_key(e, k) ==> count_of(e, k) == 0,
        forall|i: int| 0 <= i < e.len() && (#[trigger] e[i]).0 == k ==> count_of(e, k) == e[i].1,
    decreases e.len(),
{
    if e.len() > 0 {
        let d = e.drop_last();
        lemma_count_distinct(d, k);
        if e.last().0 == k {
            assert(!has_key(d, k)) by {
                if has_key(d, k) {
                    let j = choose|j: int| 0 <= j < d.len() && (#[trigger] d[j]).0 == k;
                    assert(e[j].0 == e[e.len() - 1].0);
                }
            }
            assert forall|i: int| 0 <= i < e.len() && (#[trigger] e[i]).0 == k implies count_of(
                e,
                k,
            ) == e[i].1 by {
                if i < e.len() - 1 {
                    assert(e[i].0 == e[e.len() - 1].0);
                }
            }
        } else {
            assert(!has_key(e, k) ==> !has_key(d, k)) by {
                if has_key(d, k) {
                    let j = choose|j: int| 0 <= j < d.len() && (#[trigger] d[j]).0 == k;
                    assert(e[j].0 == k);
                }
            }
            assert forall|i: int| 0 <= i < e.len() && (#[trigger] e[i]).0 == k implies count_of(
                e,
                k,
            ) == e[i].1 by {
                assert(d[i].0 == k);
            }
        }
    }
}

/// What holds of every entry holds of every entry kept by a filter.
pub proof fn lemma_filter_keeps(e: Seq<Entry>, pred: spec_fn(Entry) -> bool, prop: spec_fn(Entry) -> bool)
    requires
        forall|i: int| 0 <= i < e.len() ==> prop(#[trigger] e[i]),
    ensures
        forall|i: int| 0 <= i < e.filter(pred).len() ==> prop(#[trigger] e.filter(pred)[i]),
    decreases e.len(),
{
    reveal(Seq::filter);
    if e.len() > 0 {
        let d = e.drop_last();
        assert forall|i: int| 0 <= i < d.len() implies prop(#[trigger] d[i]) by {
            assert(d[i] == e[i]);
        }
        lemma_filter_keeps(d, pred, prop);
        assert(prop(e[e.len() - 1]));
        let f = e.filter(pred);
        let g = d.filter(pred);
        assert forall|i: int| 0 <= i < f.len() implies prop(#[trigger] f[i]) by {
            if i < g.len() {
                assert(f[i] == g[i]);
            }
        }
    }
}

/// Entries that all count at least one sum to at least one, unless there are none.
pub proof fn lemma_sum_positive(e: Seq<Entry>)
    requires
        e.len() > 0,
        forall|i: int| 0 <= i < e.len() ==> (#[trigger] e[i]).1 > 0,
    ensures
        sum_counts(e) > 0,
{
    assert(e[e.len() - 1].1 > 0);
}

/// Entries that all count zero sum to zero.
pub proof fn lemma_sum_zero(e: Seq<Entry>)
    requires
        forall|i: int| 0 <= i < e.len() ==> (#[trigger] e[i]).1 == 0,
    ensures
        sum_counts(e) == 0,
    decreases e.len(),
{
    if e.len() > 0 {
        let d = e.drop_last();
        assert forall|i: int| 0 <= i < d.len() implies (#[trigger] d[i]).1 == 0 by {
            assert(d[i] == e[i]);
        }
        lemma_sum_zero(d);
        assert(e[e.len() - 1].1 == 0);
    }
}

/// Filtering a run of entries that all pass keeps it whole; a run that all
/// fail leaves nothing.
pub proof fn lemma_filter_uniform(e: Seq<Entry>, pred: spec_fn(Entry) -> bool, keep: bool)
    requires
        forall|i: int| 0 <= i < e.len() ==> pred(#[trigger] e[i]) == keep,
    ensures
        e.filter(pred) == if keep {
            e
        } else {
            Seq::<Entry>::empty()
        },
    decreases e.len(),
{
    reveal(Seq::filter);
    if e.len() > 0 {
        let d = e.drop_last();
        assert forall|i: int| 0 <= i < d.len() implies pred(#[trigger] d[i]) == keep by {
            assert(d[i] == e[i]);
        }
        lemma_filter_uniform(d, pred, keep);
        assert(pred(e[e.len() - 1]) == keep);
        if keep {
            assert(d.push(e.last()) =~= e);
        }
    } else {
        assert(e =~= Seq::<Entry>::empty());
    }
}

/// Entries passing `pred` exactly on the positions `[a, b)` filter to that run.
pub proof fn lemma_filter_run(e: Seq<Entry>, pred: spec_fn(Entry) -> bool, a: int, b: int)
    requires
        0 <= a <= b <= e.len(),
        forall|i: int| 0 <= i < e.len() ==> (pred(#[trigger] e[i]) <==> a <= i < b),
    ensures
        e.filter(pred) == e.subrange(a, b),
{
    let x = e.subrange(0, a);
    let y = e.subrange(a, b);
    let z = e.subrange(b, e.len() as int);
    assert(e =~= x + y + z);
    assert forall|i: int| 0 <= i < x.len() implies pred(#[trigger] x[i]) == false by {
        assert(x[i] == e[i]);
    }
    assert forall|i: int| 0 <= i < y.len() implies pred(#[trigger] y[i]) == true by {
        assert(y[i] == e[a + i]);
    }
    assert forall|i: int| 0 <= i < z.len() implies pred(#[trigger] z[i]) == false by {
        assert(z[i] == e[b + i]);
    }
    lemma_filter_uniform(x, pred, false);
    lemma_filter_uniform(y, pred, true);
    lemma_filter_uniform(z, pred, false);
    Seq::filter_distributes_over_add(x + y, z, pred);
    Seq::filter_distributes_over_add(x, y, pred);
    assert(Seq::<Entry>::empty() + y + Seq::<Entry>::empty() =~= y);
}

} // verus!
