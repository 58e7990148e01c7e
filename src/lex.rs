//! Lexicographic order and longest common prefixes of byte sequences.
use vstd::prelude::*;

verus! {

/// `u` comes before `v` in lexicographic order, or equals it; a prefix
/// comes before the longer sequence.
pub open spec fn lex_le(u: Seq<u8>, v: Seq<u8>) -> bool
    decreases u.len(),
{
    if u.len() == 0 {
        true
    } else if v.len() == 0 {
        false
    } else if u[0] != v[0] {
        u[0] < v[0]
    } else {
        lex_le(u.drop_first(), v.drop_first())
    }
}

/// Length of the longest common prefix of `u` and `v`.
pub open spec fn lcp(u: Seq<u8>, v: Seq<u8>) -> nat
    decreases u.len(),
{
    if u.len() == 0 || v.len() == 0 || u[0] != v[0] {
        0
    } else {
        1 + lcp(u.drop_first(), v.drop_first())
    }
}

pub proof fn lemma_lex_le_refl(u: Seq<u8>)
    ensures
        lex_le(u, u),
    decreases u.len(),
{
    if u.len() > 0 {
        lemma_lex_le_refl(u.drop_first());
    }
}

pub proof fn lemma_lex_le_trans(u: Seq<u8>, v: Seq<u8>, w: Seq<u8>)
    requires
        lex_le(u, v),
        lex_le(v, w),
    ensures
        lex_le(u, w),
    decreases u.len(),
{
    if u.len() > 0 && v.len() > 0 && w.len() > 0 && u[0] == v[0] && v[0] == w[0] {
        lemma_lex_le_trans(u.drop_first(), v.drop_first(), w.drop_first());
    }
}

/// Any two sequences are ordered one way or the other.
pub proof fn lemma_lex_le_total(u: Seq<u8>, v: Seq<u8>)
    ensures
        lex_le(u, v) || lex_le(v, u),
    decreases u.len(),
{
    if u.len() > 0 && v.len() > 0 && u[0] == v[0] {
        lemma_lex_le_total(u.drop_first(), v.drop_first());
    }
}

/// Two sequences each at or before the other are equal.
pub proof fn lemma_lex_le_antisym(u: Seq<u8>, v: Seq<u8>)
    requires
        lex_le(u, v),
        lex_le(v, u),
    ensures
        u == v,
    decreases u.len(),
{
    if u.len() > 0 {
        lemma_lex_le_antisym(u.drop_first(), v.drop_first());
        assert(u =~= seq![u[0]] + u.drop_first());
        assert(v =~= seq![v[0]] + v.drop_first());
    } else {
        assert(v.len() == 0);
        assert(u =~= v);
    }
}

/// Sequences that start with the same byte compare as their rests do.
pub proof fn lemma_lex_le_cons(c: u8, u: Seq<u8>, v: Seq<u8>)
    ensures
        lex_le(seq![c] + u, seq![c] + v) == lex_le(u, v),
{
    assert((seq![c] + u).drop_first() =~= u);
    assert((seq![c] + v).drop_first() =~= v);
}

pub proof fn lemma_lcp_symmetric(u: Seq<u8>, v: Seq<u8>)
    ensures
        lcp(u, v) == lcp(v, u),
    decreases u.len(),
{
    if u.len() > 0 && v.len() > 0 && u[0] == v[0] {
        lemma_lcp_symmetric(u.drop_first(), v.drop_first());
    }
}

/// `u` and `v` agree on `l` bytes, and then one ends or they differ: `l`
/// is their longest common prefix, and their order is decided there.
pub proof fn lemma_lcp_exact(u: Seq<u8>, v: Seq<u8>, l: nat)
    requires
        l <= u.len(),
        l <= v.len(),
        u.subrange(0, l as int) == v.subrange(0, l as int),
        l == u.len() || l == v.len() || u[l as int] != v[l as int],
    ensures
        lcp(u, v) == l,
        l == u.len() ==> lex_le(u, v),
        l < u.len() && l < v.len() && u[l as int] < v[l as int] ==> lex_le(u, v),
        l == v.len() ==> lex_le(v, u),
        l < u.len() && l < v.len() && u[l as int] > v[l as int] ==> lex_le(v, u),
    decreases l,
{
    if l > 0 {
        assert(u[0] == u.subrange(0, l as int)[0]);
        assert(v[0] == v.subrange(0, l as int)[0]);
        assert(u.drop_first().subrange(0, l - 1) =~= u.subrange(0, l as int).drop_first());
        assert(v.drop_first().subrange(0, l - 1) =~= v.subrange(0, l as int).drop_first());
        lemma_lcp_exact(u.drop_first(), v.drop_first(), (l - 1) as nat);
    }
}

/// Agreeing on `l` bytes makes the longest common prefix at least `l`.
pub proof fn lemma_lcp_at_least(u: Seq<u8>, v: Seq<u8>, l: nat)
    requires
        l <= u.len(),
        l <= v.len(),
        u.subrange(0, l as int) == v.subrange(0, l as int),
    ensures
        l <= lcp(u, v),
    decreases l,
{
    if l > 0 {
        assert(u[0] == u.subrange(0, l as int)[0]);
        assert(v[0] == v.subrange(0, l as int)[0]);
        assert(u.drop_first().subrange(0, l - 1) =~= u.subrange(0, l as int).drop_first());
        assert(v.drop_first().subrange(0, l - 1) =~= v.subrange(0, l as int).drop_first());
        lemma_lcp_at_least(u.drop_first(), v.drop_first(), (l - 1) as nat);
    }
}

/// Of two sequences at or before `x`, the later one shares at least as
/// long a prefix with `x`.
pub proof fn lemma_lcp_below(u: Seq<u8>, v: Seq<u8>, x: Seq<u8>)
    requires
        lex_le(u, v),
        lex_le(v, x),
    ensures
        lcp(u, x) <= lcp(v, x),
    decreases u.len(),
{
    if u.len() > 0 && x.len() > 0 && u[0] == x[0] {
        assert(v.len() > 0);
        assert(v[0] == x[0]);
        lemma_lcp_below(u.drop_first(), v.drop_first(), x.drop_first());
    }
}

/// Of two sequences at or after `x`, the earlier one shares at least as
/// long a prefix with `x`.
pub proof fn lemma_lcp_above(x: Seq<u8>, v: Seq<u8>, u: Seq<u8>)
    requires
        lex_le(x, v),
        lex_le(v, u),
    ensures
        lcp(x, u) <= lcp(x, v),
    decreases x.len(),
{
    if x.len() > 0 && u.len() > 0 && u[0] == x[0] {
        assert(v.len() > 0);
        assert(v[0] == x[0]);
        lemma_lcp_above(x.drop_first(), v.drop_first(), u.drop_first());
    }
}

} // verus!
