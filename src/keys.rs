//! Sequence keys: lexicographic order on character sequences and prefix tests.
use vstd::prelude::*;

verus! {

/// Strict lexicographic order on character sequences, comparing characters
/// by code point; a proper prefix comes before every extension of it.
pub open spec fn lex_lt(a: Seq<char>, b: Seq<char>) -> bool
    decreases a.len(),
{
    if b.len() == 0 {
        false
    } else if a.len() == 0 {
        true
    } else if a[0] != b[0] {
        a[0] < b[0]
    } else {
        lex_lt(a.drop_first(), b.drop_first())
    }
}

pub proof fn lemma_lex_irreflexive(a: Seq<char>)
    ensures
        !lex_lt(a, a),
    decreases a.len(),
{
    if a.len() > 0 {
        lemma_lex_irreflexive(a.drop_first());
    }
}

pub proof fn lemma_lex_transitive(a: Seq<char>, b: Seq<char>, c: Seq<char>)
    requires
        lex_lt(a, b),
        lex_lt(b, c),
    ensures
        lex_lt(a, c),
    decreases a.len(),
{
    if a.len() > 0 && a[0] == b[0] && b[0] == c[0] {
        lemma_lex_transitive(a.drop_first(), b.drop_first(), c.drop_first());
    }
}

/// Two different sequences are ordered one way or the other, never both.
pub proof fn lemma_lex_total(a: Seq<char>, b: Seq<char>)
    ensures
        a != b ==> (lex_lt(a, b) || lex_lt(b, a)),
        !(lex_lt(a, b) && lex_lt(b, a)),
    decreases a.len(),
{
    if a.len() > 0 && b.len() > 0 && a[0] == b[0] {
        lemma_lex_total(a.drop_first(), b.drop_first());
        if a != b {
            assert(a =~= seq![a[0]] + a.drop_first());
            assert(b =~= seq![b[0]] + b.drop_first());
        }
    } else if a.len() == 0 && b.len() == 0 {
        assert(a =~= b);
    }
}

/// A sequence never comes before one of its prefixes.
pub proof fn lemma_prefix_not_after(p: Seq<char>, b: Seq<char>)
    requires
        p.is_prefix_of(b),
    ensures
        !lex_lt(b, p),
    decreases p.len(),
{
    if p.len() > 0 {
        assert(b[0] == p[0]);
        assert(p.drop_first().is_prefix_of(b.drop_first())) by {
            assert(p.drop_first() =~= b.drop_first().subrange(0, p.len() - 1));
        }
        lemma_prefix_not_after(p.drop_first(), b.drop_first());
    }
}

/// Sequences that share a prefix are contiguous in lexicographic order:
/// whatever lies between the prefix and one of its extensions extends it too.
pub proof fn lemma_prefix_between(p: Seq<char>, b: Seq<char>, c: Seq<char>)
    requires
        p.is_prefix_of(c),
        !lex_lt(b, p),
        lex_lt(b, c),
    ensures
        p.is_prefix_of(b),
    decreases p.len(),
{
    if p.len() > 0 {
        assert(c[0] == p[0]);
        assert(b.len() > 0);
        if b[0] != p[0] {
            assert(p[0] < b[0]);
            assert(b[0] < c[0]);
        } else {
            assert(p.drop_first().is_prefix_of(c.drop_first())) by {
                assert(p.drop_first() =~= c.drop_first().subrange(0, p.len() - 1));
            }
            lemma_prefix_between(p.drop_first(), b.drop_first(), c.drop_first());
            assert(p =~= b.subrange(0, p.len() as int)) by {
                assert(p.drop_first() =~= b.drop_first().subrange(0, p.len() - 1));
                assert forall|i: int| 0 <= i < p.len() implies p[i] == b[i] by {
                    if i > 0 {
                        assert(p.drop_first()[i - 1] == b.drop_first()[i - 1]);
                    }
                }
            }
        }
    }
}

/// Compares two keys: negative, zero or positive as `a` comes before,
/// equals or comes after `b`.
pub fn compare_keys(a: &[char], b: &[char]) -> (r: i8)
    ensures
        r < 0 <==> lex_lt(a@, b@),
        r == 0 <==> a@ == b@,
        r > 0 <==> lex_lt(b@, a@),
{
    let mut i: usize = 0;
    assert(a@.skip(0) =~= a@);
    assert(b@.skip(0) =~= b@);
    while i < a.len() && i < b.len()
        invariant
            i <= a.len(),
            i <= b.len(),
            a@.subrange(0, i as int) == b@.subrange(0, i as int),
            lex_lt(a@, b@) == lex_lt(a@.skip(i as int), b@.skip(i as int)),
            lex_lt(b@, a@) == lex_lt(b@.skip(i as int), a@.skip(i as int)),
        decreases a.len() - i,
    {
        let x = a[i];
        let y = b[i];
        assert(a@.skip(i as int)[0] == x);
        assert(b@.skip(i as int)[0] == y);
        if x != y {
            proof {
                if a@ == b@ {
                    assert(a@[i as int] == b@[i as int]);
                }
            }
            if x < y {
                return -1;
            } else {
                return 1;
            }
        }
        assert(a@.skip(i as int).drop_first() =~= a@.skip(i + 1));
        assert(b@.skip(i as int).drop_first() =~= b@.skip(i + 1));
        assert(a@.subrange(0, i + 1) =~= a@.subrange(0, i as int).push(x));
        assert(b@.subrange(0, i + 1) =~= b@.subrange(0, i as int).push(y));
        i = i + 1;
    }
    proof {
        lemma_lex_irreflexive(a@);
        lemma_lex_total(a@, b@);
    }
    if i < b.len() {
        assert(a@ =~= a@.subrange(0, i as int));
        proof {
            if a@ == b@ {
                assert(a@.len() == b@.len());
            }
        }
        -1
    } else if i < a.len() {
        assert(b@ =~= b@.subrange(0, i as int));
        proof {
            if a@ == b@ {
                assert(a@.len() == b@.len());
            }
        }
        1
    } else {
        assert(a@ =~= a@.subrange(0, i as int));
        assert(b@ =~= b@.subrange(0, i as int));
        0
    }
}

/// Whether `p` is a prefix of `key`.
pub fn starts_with(key: &[char], p: &[char]) -> (r: bool)
    ensures
        r == p@.is_prefix_of(key@),
{
    if p.len() > key.len() {
        return false;
    }
    let mut i: usize = 0;
    while i < p.len()
        invariant
            p.len() <= key.len(),
            i <= p.len(),
            p@.subrange(0, i as int) == key@.subrange(0, i as int),
        decreases p.len() - i,
    {
        if p[i] != key[i] {
            assert(p@[i as int] != key@.subrange(0, p.len() as int)[i as int]);
            return false;
        }
        assert(p@.subrange(0, i + 1) =~= p@.subrange(0, i as int).push(p[i as int]));
        assert(key@.subrange(0, i + 1) =~= key@.subrange(0, i as int).push(key[i as int]));
        i = i + 1;
    }
    assert(p@ =~= p@.subrange(0, i as int));
    true
}

} // verus!
