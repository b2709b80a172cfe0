//! Generation from a model: weighted choice of a sequence, and the next
//! character for a context, falling back to shorter contexts where the
//! model has nothing to say.
use vstd::prelude::*;
use vstd::set_lib::{set_int_range, lemma_int_range};
use vstd::slice::slice_subrange;
use crate::counts::{
    Entry, sum_counts, lemma_sum_concat, lemma_single, lemma_filter_keeps, lemma_sum_positive, lemma_sum_zero,
    lemma_entry_le_sum,
};
use crate::model::{MarkovModel, ModelError, ModelView, key_has_prefix};
use crate::text::{chars_of, string_of};

verus! {

/// The number of occurrences counted by the entries before position `i`;
/// entry `i` owns the draws `[cum(e, i), cum(e, i) + e[i].1)`.
pub open spec fn cum(e: Seq<Entry>, i: int) -> nat {
    sum_counts(e.take(i))
}

/// Whether draw `n` falls in the bucket of entry `i`.
pub open spec fn in_bucket(e: Seq<Entry>, i: int, n: int) -> bool {
    0 <= i < e.len() && cum(e, i) <= n < cum(e, i) + e[i].1
}

/// The entry whose bucket holds draw `n`.
pub open spec fn selected(e: Seq<Entry>, n: int) -> int {
    choose|i: int| in_bucket(e, i, n)
}

/// The key that draw `n` selects.
pub open spec fn sampled_key(e: Seq<Entry>, n: int) -> Seq<char> {
    e[selected(e, n)].0
}

/// The character chosen for context `ctx` with the raw draw `draw`. The
/// empty context samples the whole model and takes the first character of the
/// key drawn. Otherwise the context's first character is dropped and the
/// entries whose key starts with the rest are sampled, giving the last
/// character of the key drawn; where no key starts with it, the shortened
/// context is tried instead. A draw is taken modulo the sampled total.
pub open spec fn next_char_spec(m: ModelView, ctx: Seq<char>, draw: nat) -> Result<char, ModelError>
    decreases ctx.len(),
{
    if ctx.len() == 0 {
        if m.total == 0 {
            Err(ModelError::EmptyModel)
        } else {
            Ok(sampled_key(m.entries, (draw % m.total) as int)[0])
        }
    } else {
        let sub = m.entries.filter(key_has_prefix(ctx.drop_first()));
        if sub.len() == 0 {
            next_char_spec(m, ctx.drop_first(), draw)
        } else if sum_counts(sub) == 0 {
            Err(ModelError::EmptyModel)
        } else {
            Ok(sampled_key(sub, (draw % sum_counts(sub)) as int).last())
        }
    }
}

pub proof fn lemma_cum_step(e: Seq<Entry>, i: int)
    requires
        0 <= i < e.len(),
    ensures
        cum(e, i + 1) == cum(e, i) + e[i].1,
{
    assert(e.take(i + 1) =~= e.take(i) + seq![e[i]]);
    lemma_sum_concat(e.take(i), seq![e[i]]);
    lemma_single(e[i], e[i].0);
}

pub proof fn lemma_cum_monotone(e: Seq<Entry>, i: int, j: int)
    requires
        0 <= i <= j <= e.len(),
    ensures
        cum(e, i) <= cum(e, j),
{
    assert(e.take(j) =~= e.take(i) + e.subrange(i, j));
    lemma_sum_concat(e.take(i), e.subrange(i, j));
}

/// Each draw below the sum of the counts lies in exactly one bucket.
pub proof fn lemma_bucket_unique(e: Seq<Entry>, n: int)
    requires
        0 <= n < sum_counts(e),
    ensures
        in_bucket(e, selected(e, n), n),
        forall|i: int| #[trigger] in_bucket(e, i, n) ==> i == selected(e, n),
    decreases e.len(),
{
    assert(e.take(e.len() as int) =~= e);
    if n < cum(e, e.len() - 1) {
        let d = e.drop_last();
        assert(d =~= e.take(e.len() - 1));
        lemma_bucket_unique(d, n);
        let i = selected(d, n);
        assert(d.take(i) =~= e.take(i));
        assert(in_bucket(e, i, n));
    } else {
        lemma_cum_step(e, e.len() - 1);
        assert(in_bucket(e, e.len() - 1, n));
    }
    assert forall|i: int, j: int| #[trigger] in_bucket(e, i, n) && #[trigger] in_bucket(e, j, n) implies i == j by {
        if i < j {
            lemma_cum_step(e, i);
            lemma_cum_monotone(e, i + 1, j);
        } else if j < i {
            lemma_cum_step(e, j);
            lemma_cum_monotone(e, j + 1, i);
        }
    }
}

/// Sampling is weighted by the counts: of the `total` equally likely draws
/// in `[0, total)`, entry `i` is selected by exactly `count_i` of them, those
/// of one interval.
pub proof fn lemma_sampling_weights(m: ModelView, i: int)
    requires
        m.wf(),
        0 <= i < m.entries.len(),
    ensures
        Set::new(|n: int| 0 <= n < m.total && selected(m.entries, n) == i) == set_int_range(
            cum(m.entries, i) as int,
            (cum(m.entries, i) + m.entries[i].1) as int,
        ),
        Set::new(|n: int| 0 <= n < m.total && selected(m.entries, n) == i).finite(),
        Set::new(|n: int| 0 <= n < m.total && selected(m.entries, n) == i).len() == m.entries[i].1,
{
    let e = m.entries;
    let lo = cum(e, i) as int;
    let hi = (lo + e[i].1) as int;
    lemma_cum_step(e, i);
    lemma_cum_monotone(e, i + 1, e.len() as int);
    assert(e.take(e.len() as int) =~= e);
    let s = Set::new(|n: int| 0 <= n < m.total && selected(e, n) == i);
    assert forall|n: int| s.contains(n) <==> set_int_range(lo, hi).contains(n) by {
        if 0 <= n < m.total {
            lemma_bucket_unique(e, n);
        }
        if lo <= n < hi {
            lemma_cum_monotone(e, 0, i);
            assert(in_bucket(e, i, n));
        }
    }
    assert(s =~= set_int_range(lo, hi));
    lemma_int_range(lo, hi);
}

/// Generation never gets stuck: on a model with occurrences and no zero
/// count, every context yields a character, and that character stands in
/// some key of the model.
pub proof fn lemma_next_char_found(m: ModelView, ctx: Seq<char>, draw: nat)
    requires
        m.wf(),
        m.total > 0,
        m.counts_positive(),
    ensures
        next_char_spec(m, ctx, draw) is Ok,
        exists|i: int|
            0 <= i < m.entries.len() && (#[trigger] m.entries[i]).0.contains(
                next_char_spec(m, ctx, draw)->Ok_0,
            ),
    decreases ctx.len(),
{
    if ctx.len() == 0 {
        let n = (draw % m.total) as int;
        lemma_bucket_unique(m.entries, n);
        let i = selected(m.entries, n);
        assert(m.entries[i].0.len() > 0);
        assert(m.entries[i].0[0] == m.entries[i].0[0]);
    } else {
        let sub = m.entries.filter(key_has_prefix(ctx.drop_first()));
        if sub.len() == 0 {
            lemma_next_char_found(m, ctx.drop_first(), draw);
        } else {
            lemma_filter_keeps(m.entries, key_has_prefix(ctx.drop_first()), |x: Entry| x.1 > 0);
            lemma_filter_keeps(
                m.entries,
                key_has_prefix(ctx.drop_first()),
                |x: Entry| exists|j: int| 0 <= j < m.entries.len() && #[trigger] m.entries[j] == x,
            );
            assert forall|j: int| 0 <= j < m.entries.len() implies (|x: Entry|
                exists|j: int| 0 <= j < m.entries.len() && #[trigger] m.entries[j] == x)(
                #[trigger] m.entries[j],
            ) by {
                assert(m.entries[j] == m.entries[j]);
            }
            lemma_sum_positive(sub);
            let n = (draw % sum_counts(sub)) as int;
            lemma_bucket_unique(sub, n);
            let i = selected(sub, n);
            let j = choose|j: int| 0 <= j < m.entries.len() && #[trigger] m.entries[j] == sub[i];
            assert(m.entries[j].0.len() > 0);
            assert(m.entries[j].0.contains(m.entries[j].0[m.entries[j].0.len() - 1]));
        }
    }
}

/// A model without occurrences yields no character, whatever the context.
pub proof fn lemma_next_char_empty(m: ModelView, ctx: Seq<char>, draw: nat)
    requires
        m.wf(),
        m.total == 0,
    ensures
        next_char_spec(m, ctx, draw) == Err::<char, ModelError>(ModelError::EmptyModel),
    decreases ctx.len(),
{
    if ctx.len() > 0 {
        let sub = m.entries.filter(key_has_prefix(ctx.drop_first()));
        if sub.len() == 0 {
            lemma_next_char_empty(m, ctx.drop_first(), draw);
        } else {
            assert forall|i: int| 0 <= i < m.entries.len() implies (|x: Entry| x.1 == 0)(
                #[trigger] m.entries[i],
            ) by {
                lemma_entry_le_sum(m.entries, i);
            }
            lemma_filter_keeps(m.entries, key_has_prefix(ctx.drop_first()), |x: Entry| x.1 == 0);
            lemma_sum_zero(sub);
        }
    }
}

impl MarkovModel {
    /// The position of the entry whose bucket holds draw `n`.
    pub fn select(&self, n: u64) -> (r: usize)
        requires
            self.wf(),
            n < self@.total,
        ensures
            r < self@.entries.len(),
            r == selected(self@.entries, n as int),
            in_bucket(self@.entries, r as int, n as int),
    {
        let ghost e = self@.entries;
        proof {
            lemma_bucket_unique(e, n as int);
            assert(e.take(e.len() as int) =~= e);
        }
        let mut low: u64 = 0;
        let mut i: usize = 0;
        assert(e.take(0) =~= Seq::<Entry>::empty());
        while i < self.len()
            invariant
                self.wf(),
                e == self@.entries,
                n < self@.total,
                i <= e.len(),
                low == cum(e, i as int),
                low <= n,
                cum(e, e.len() as int) == self@.total,
                in_bucket(e, selected(e, n as int), n as int),
                forall|j: int| #[trigger] in_bucket(e, j, n as int) ==> j == selected(e, n as int),
            decreases e.len() - i,
        {
            let c = self.count_at(i);
            proof {
                lemma_cum_step(e, i as int);
                lemma_cum_monotone(e, i + 1, e.len() as int);
            }
            let high = low + c;
            if n < high {
                assert(in_bucket(e, i as int, n as int));
                return i;
            }
            low = high;
            i = i + 1;
        }
        proof {
            assert(false);
        }
        0
    }

    /// The key that `draw`, taken modulo the total, selects; `EmptyModel`
    /// when the model has no occurrences.
    pub fn generate_str_from(&self, draw: u64) -> (r: Result<String, ModelError>)
        requires
            self.wf(),
        ensures
            r is Err <==> self@.total == 0,
            r is Err ==> r->Err_0 == ModelError::EmptyModel,
            r is Ok ==> r->Ok_0@ == sampled_key(self@.entries, (draw as nat % self@.total) as int),
    {
        let total = self.total_occurrences();
        if total == 0 {
            return Err(ModelError::EmptyModel);
        }
        let i = self.select(draw % total);
        Ok(string_of(self.key_at(i).as_slice()))
    }

    /// The next character after context `prior`, as `next_char_spec` gives it
    /// for the raw draw `draw`.
    pub fn generate_next_char_from(&self, prior: &str, draw: u64) -> (r: Result<char, ModelError>)
        requires
            self.wf(),
        ensures
            r == next_char_spec(self@, prior@, draw as nat),
            self@.total == 0 ==> r == Err::<char, ModelError>(ModelError::EmptyModel),
    {
        proof {
            if self@.total == 0 {
                lemma_next_char_empty(self@, prior@, draw as nat);
            }
        }
        let ctx = chars_of(prior);
        let mut s: usize = 0;
        assert(ctx@.skip(0) =~= ctx@);
        while s < ctx.len()
            invariant
                self.wf(),
                ctx@ == prior@,
                s <= ctx.len(),
                next_char_spec(self@, prior@, draw as nat) == next_char_spec(
                    self@,
                    ctx@.skip(s as int),
                    draw as nat,
                ),
                self@.total == 0 ==> next_char_spec(self@, prior@, draw as nat) == Err::<
                    char,
                    ModelError,
                >(ModelError::EmptyModel),
            decreases ctx.len() - s,
        {
            let rest = slice_subrange(ctx.as_slice(), s + 1, ctx.len());
            assert(rest@ =~= ctx@.skip(s as int).drop_first());
            let sub = self.submodel_of(rest);
            if !sub.is_empty() {
                let t = sub.total_occurrences();
                if t == 0 {
                    return Err(ModelError::EmptyModel);
                }
                let i = sub.select(draw % t);
                let key = sub.key_at(i);
                assert(key@.len() == self@.order);
                return Ok(key[key.len() - 1]);
            }
            assert(ctx@.skip(s as int).drop_first() =~= ctx@.skip(s + 1));
            s = s + 1;
        }
        assert(ctx@.skip(s as int) =~= Seq::<char>::empty());
        let t = self.total_occurrences();
        if t == 0 {
            return Err(ModelError::EmptyModel);
        }
        let i = self.select(draw % t);
        let key = self.key_at(i);
        assert(key@.len() == self@.order);
        Ok(key[0])
    }

    /// A key drawn at random, each with probability its count over the total;
    /// `EmptyModel` when the model has no occurrences.
    pub fn generate_str(&self) -> (r: Result<String, ModelError>)
        requires
            self.wf(),
        ensures
            r is Err <==> self@.total == 0,
            r is Err ==> r->Err_0 == ModelError::EmptyModel,
            r is Ok ==> exists|n: int|
                0 <= n < self@.total && r->Ok_0@ == #[trigger] sampled_key(self@.entries, n),
    {
        let draw: u64 = rand::random::<u64>();
        let r = self.generate_str_from(draw);
        proof {
            if r is Ok {
                let n = (draw as nat % self@.total) as int;
                assert(r->Ok_0@ == sampled_key(self@.entries, n));
            }
        }
        r
    }

    /// The next character after context `prior`, drawn at random.
    pub fn generate_next_char(&self, prior: &str) -> (r: Result<char, ModelError>)
        requires
            self.wf(),
        ensures
            exists|d: nat| r == next_char_spec(self@, prior@, d),
            self@.total == 0 ==> r == Err::<char, ModelError>(ModelError::EmptyModel),
    {
        let draw: u64 = rand::random::<u64>();
        let r = self.generate_next_char_from(prior, draw);
        assert(r == next_char_spec(self@, prior@, draw as nat));
        r
    }
}

/// Relies on rand's `random`, a value drawn from the thread-local generator;
/// nothing is promised of it.
pub assume_specification<T>[ rand::random::<T> ]() -> (r: T)
    where
        rand::distributions::Standard: rand::distributions::Distribution<T>,
;

} // verus!
