//! The strong matcher: a suffix array of the base, built by prefix doubling
//! and checked in linear time (with a slow construction by insertion, proved
//! to pass the check, behind it), answers "longest prefix of `new[j..]`
//! found in the base" by binary search. Matches are taken greedily with one step
//! of lazy look-ahead, and every COPY emitted is a longest match where it
//! starts.
use crate::builder::{common_forward, matcher_output, OpBuilder};
use crate::instr::{apply_ops, lemma_apply_len, ops_len, ops_of, ops_valid, Instruction, Op, MIN_MATCH};
use crate::lex::{
    lemma_lcp_above, lemma_lcp_at_least, lemma_lcp_below, lemma_lcp_exact, lemma_lcp_symmetric,
    lemma_lex_le_antisym, lemma_lex_le_cons, lemma_lex_le_refl, lemma_lex_le_total, lemma_lex_le_trans, lcp, lex_le,
};
use vstd::prelude::*;

verus! {

/// All entries of `v` are below `n`.
pub open spec fn all_below(v: Seq<usize>, n: nat) -> bool {
    forall|i: int| 0 <= i < v.len() ==> #[trigger] v[i] < n
}

/// The suffix of `s` from `p`.
pub open spec fn suffix_at(s: Seq<u8>, p: int) -> Seq<u8> {
    s.subrange(p, s.len() as int)
}

/// At most `l` bytes of `s` from `p`.
pub open spec fn prefix_at(s: Seq<u8>, p: int, l: nat) -> Seq<u8> {
    if p + l <= s.len() {
        s.subrange(p, p + l)
    } else {
        s.subrange(p, s.len() as int)
    }
}

/// `sa` and `inv` are inverse permutations of the positions of `s`.
pub open spec fn inverse_pair(s: Seq<u8>, sa: Seq<usize>, inv: Seq<usize>) -> bool {
    &&& sa.len() == s.len()
    &&& inv.len() == s.len()
    &&& forall|i: int| 0 <= i < sa.len() ==> #[trigger] sa[i] < s.len() && inv[sa[i] as int] == i
    &&& forall|p: int| 0 <= p < s.len() ==> #[trigger] inv[p] < s.len() && sa[inv[p] as int] == p
}

/// `sa` lists every suffix of `s` once, in lexicographic order, and `inv`
/// gives the place of each position in it.
pub open spec fn is_suffix_array(s: Seq<u8>, sa: Seq<usize>, inv: Seq<usize>) -> bool {
    &&& inverse_pair(s, sa, inv)
    &&& forall|i: int, j: int|
        #![trigger sa[i], sa[j]]
        0 <= i < j < sa.len() ==> lex_le(suffix_at(s, sa[i] as int), suffix_at(s, sa[j] as int))
}

/// Neighbours `i` and `i + 1` of `sa` are in order as far as their first
/// bytes and the places of the suffixes one byte on tell.
pub open spec fn adjacent_ok(s: Seq<u8>, sa: Seq<usize>, inv: Seq<usize>, i: int) -> bool {
    let a = sa[i] as int;
    let b = sa[i + 1] as int;
    s[a] < s[b] || (s[a] == s[b] && (a + 1 == s.len() || (b + 1 < s.len() && inv[a + 1]
        < inv[b + 1])))
}

proof fn lemma_prefix_chain(s: Seq<u8>, sa: Seq<usize>, level: nat, i: int, j: int)
    requires
        0 <= i <= j < sa.len(),
        forall|k: int|
            0 <= k < sa.len() - 1 ==> #[trigger] lex_le(
                prefix_at(s, sa[k] as int, level),
                prefix_at(s, sa[k + 1] as int, level),
            ),
    ensures
        lex_le(prefix_at(s, sa[i] as int, level), prefix_at(s, sa[j] as int, level)),
    decreases j - i,
{
    if i == j {
        lemma_lex_le_refl(prefix_at(s, sa[i] as int, level));
    } else {
        lemma_prefix_chain(s, sa, level, i, j - 1);
        let k = j - 1;
        assert(lex_le(prefix_at(s, sa[k] as int, level), prefix_at(s, sa[k + 1] as int, level)));
        assert(k + 1 == j);
        lemma_lex_le_trans(
            prefix_at(s, sa[i] as int, level),
            prefix_at(s, sa[j - 1] as int, level),
            prefix_at(s, sa[j] as int, level),
        );
    }
}

/// Checked neighbours order the prefixes of every length.
proof fn lemma_prefix_order(s: Seq<u8>, sa: Seq<usize>, inv: Seq<usize>, level: nat)
    requires
        inverse_pair(s, sa, inv),
        forall|i: int| 0 <= i < s.len() - 1 ==> #[trigger] adjacent_ok(s, sa, inv, i),
    ensures
        forall|i: int, j: int|
            #![trigger sa[i], sa[j]]
            0 <= i < j < sa.len() ==> lex_le(
                prefix_at(s, sa[i] as int, level),
                prefix_at(s, sa[j] as int, level),
            ),
    decreases level,
{
    let n = s.len();
    if level == 0 {
        assert forall|i: int, j: int|
            #![trigger sa[i], sa[j]]
            0 <= i < j < sa.len() implies lex_le(
                prefix_at(s, sa[i] as int, level),
                prefix_at(s, sa[j] as int, level),
            ) by {
            assert(prefix_at(s, sa[i] as int, level).len() == 0);
        }
    } else {
        let lv = (level - 1) as nat;
        lemma_prefix_order(s, sa, inv, lv);
        assert forall|k: int| 0 <= k < sa.len() - 1 implies #[trigger] lex_le(
            prefix_at(s, sa[k] as int, level),
            prefix_at(s, sa[k + 1] as int, level),
        ) by {
            let a = sa[k] as int;
            let b = sa[k + 1] as int;
            assert(adjacent_ok(s, sa, inv, k));
            assert(sa[k] < n && sa[k + 1] < n);
            let pa = prefix_at(s, a, level);
            let pb = prefix_at(s, b, level);
            assert(pa =~= seq![s[a]] + prefix_at(s, a + 1, lv));
            assert(pb =~= seq![s[b]] + prefix_at(s, b + 1, lv));
            if s[a] < s[b] {
                assert(pa[0] == s[a] && pb[0] == s[b]);
            } else if a + 1 == n {
                assert(prefix_at(s, a + 1, lv).len() == 0);
                lemma_lex_le_cons(s[a], prefix_at(s, a + 1, lv), prefix_at(s, b + 1, lv));
            } else {
                let i2 = inv[a + 1] as int;
                let j2 = inv[b + 1] as int;
                assert(sa[i2] == a + 1 && sa[j2] == b + 1);
                assert(lex_le(prefix_at(s, sa[i2] as int, lv), prefix_at(s, sa[j2] as int, lv)));
                lemma_lex_le_cons(s[a], prefix_at(s, a + 1, lv), prefix_at(s, b + 1, lv));
            }
        }
        assert forall|i: int, j: int|
            #![trigger sa[i], sa[j]]
            0 <= i < j < sa.len() implies lex_le(
                prefix_at(s, sa[i] as int, level),
                prefix_at(s, sa[j] as int, level),
            ) by {
            lemma_prefix_chain(s, sa, level, i, j);
        }
    }
}

/// In a true suffix array, every pair of neighbours passes the check.
proof fn lemma_sa_adjacent(s: Seq<u8>, sa: Seq<usize>, g: Seq<usize>, i: int)
    requires
        is_suffix_array(s, sa, g),
        0 <= i < s.len() - 1,
    ensures
        adjacent_ok(s, sa, g, i),
{
    let n = s.len();
    let a = sa[i] as int;
    let b = sa[i + 1] as int;
    assert(sa[i] < n && g[a] == i);
    assert(sa[i + 1] < n && g[b] == i + 1);
    let u = suffix_at(s, a);
    let v = suffix_at(s, b);
    assert(lex_le(u, v));
    assert(u[0] == s[a] && v[0] == s[b]);
    if s[a] == s[b] && a + 1 != n {
        assert(u.drop_first() =~= suffix_at(s, a + 1));
        assert(v.drop_first() =~= suffix_at(s, b + 1));
        assert(lex_le(suffix_at(s, a + 1), suffix_at(s, b + 1)));
        if b + 1 == n {
            assert(suffix_at(s, b + 1).len() == 0);
        } else {
            let i1 = g[a + 1] as int;
            let j1 = g[b + 1] as int;
            assert(g[a + 1] < n && sa[i1] == a + 1);
            assert(g[b + 1] < n && sa[j1] == b + 1);
            if j1 < i1 {
                assert(lex_le(suffix_at(s, sa[j1] as int), suffix_at(s, sa[i1] as int)));
                lemma_lex_le_antisym(suffix_at(s, a + 1), suffix_at(s, b + 1));
            }
        }
    }
}

/// Checks in linear time that `sa` is the suffix array of `s`; on success
/// hands back the place of each position in it.
pub fn check_suffix_array(s: &[u8], sa: &Vec<usize>) -> (r: Option<Vec<usize>>)
    ensures
        r matches Some(inv) ==> is_suffix_array(s@, sa@, inv@),
        (exists|g: Seq<usize>| is_suffix_array(s@, sa@, g)) ==> r is Some,
{
    let ghost valid = exists|g: Seq<usize>| is_suffix_array(s@, sa@, g);
    let ghost g: Seq<usize> = if valid {
        choose|g: Seq<usize>| is_suffix_array(s@, sa@, g)
    } else {
        Seq::empty()
    };
    let n = s.len();
    if sa.len() != n {
        return None;
    }
    let mut inv: Vec<usize> = Vec::new();
    let mut t: usize = 0;
    while t < n
        invariant
            t <= n,
            inv@.len() == t,
            forall|q: int| 0 <= q < t ==> #[trigger] inv@[q] == n,
        decreases n - t,
    {
        inv.push(n);
        t = t + 1;
    }
    let mut i: usize = 0;
    while i < n
        invariant
            n == s@.len(),
            sa@.len() == n,
            inv@.len() == n,
            i <= n,
            forall|t: int| 0 <= t < i ==> #[trigger] sa@[t] < n && inv@[sa@[t] as int] == t,
            forall|q: int|
                0 <= q < n ==> #[trigger] inv@[q] == n || (inv@[q] < i && sa@[inv@[q] as int]
                    == q),
            valid ==> is_suffix_array(s@, sa@, g),
            valid == exists|g2: Seq<usize>| is_suffix_array(s@, sa@, g2),
        decreases n - i,
    {
        let p = sa[i];
        if p >= n || inv[p] != n {
            proof {
                if valid {
                    assert(sa@[i as int] < n && g[sa@[i as int] as int] == i);
                    let t0 = inv@[p as int] as int;
                    assert(sa@[t0] == p);
                    assert(g[sa@[t0] as int] == t0);
                }
            }
            return None;
        }
        inv.set(p, i);
        i = i + 1;
    }
    let mut q: usize = 0;
    while q < n
        invariant
            n == s@.len(),
            inv@.len() == n,
            q <= n,
            sa@.len() == n,
            forall|t: int| 0 <= t < q ==> #[trigger] inv@[t] != n,
            forall|t: int| 0 <= t < n ==> #[trigger] sa@[t] < n && inv@[sa@[t] as int] == t,
            valid ==> is_suffix_array(s@, sa@, g),
            valid == exists|g2: Seq<usize>| is_suffix_array(s@, sa@, g2),
        decreases n - q,
    {
        if inv[q] == n {
            proof {
                if valid {
                    let t0 = g[q as int] as int;
                    assert(g[q as int] < n && sa@[t0] == q);
                    assert(inv@[sa@[t0] as int] == t0);
                }
            }
            return None;
        }
        q = q + 1;
    }
    assert(inverse_pair(s@, sa@, inv@));
    proof {
        if valid {
            assert forall|p: int| 0 <= p < n implies #[trigger] inv@[p] == g[p] by {
                let t0 = g[p] as int;
                assert(g[p] < n && sa@[t0] == p);
            }
            assert(inv@ =~= g);
        }
    }
    let mut k: usize = 0;
    while n > 0 && k < n - 1
        invariant
            n == s@.len(),
            inverse_pair(s@, sa@, inv@),
            k < n || n == 0,
            forall|t: int| 0 <= t < k ==> #[trigger] adjacent_ok(s@, sa@, inv@, t),
            valid ==> is_suffix_array(s@, sa@, inv@),
            valid == exists|g2: Seq<usize>| is_suffix_array(s@, sa@, g2),
        decreases n - k,
    {
        let a = sa[k];
        let b = sa[k + 1];
        let ok = s[a] < s[b] || (s[a] == s[b] && (a + 1 == n || (b + 1 < n && inv[a + 1] < inv[
            b + 1
        ])));
        if !ok {
            proof {
                if valid {
                    lemma_sa_adjacent(s@, sa@, inv@, k as int);
                }
            }
            return None;
        }
        assert(adjacent_ok(s@, sa@, inv@, k as int));
        k = k + 1;
    }
    proof {
        lemma_prefix_order(s@, sa@, inv@, n as nat);
        assert forall|i: int, j: int|
            #![trigger sa@[i], sa@[j]]
            0 <= i < j < sa@.len() implies lex_le(
                suffix_at(s@, sa@[i] as int),
                suffix_at(s@, sa@[j] as int),
            ) by {
            assert(prefix_at(s@, sa@[i] as int, n as nat) =~= suffix_at(s@, sa@[i] as int));
            assert(prefix_at(s@, sa@[j] as int, n as nat) =~= suffix_at(s@, sa@[j] as int));
        }
    }
    Some(inv)
}

/// Whether the suffix of `s` at `a` comes at or before the one at `b`.
pub fn suffix_le(s: &[u8], a: usize, b: usize) -> (r: bool)
    requires
        a <= s@.len(),
        b <= s@.len(),
    ensures
        r == lex_le(suffix_at(s@, a as int), suffix_at(s@, b as int)),
{
    let n = s.len();
    let l = common_forward(s, a, s, b);
    let ghost u = suffix_at(s@, a as int);
    let ghost v = suffix_at(s@, b as int);
    proof {
        lemma_forward_lcp(s@, a as int, s@, b as int, l as int);
    }
    if a + l == n {
        true
    } else if b + l == n {
        proof {
            if lex_le(u, v) {
                lemma_lex_le_antisym(u, v);
            }
        }
        false
    } else {
        proof {
            if s@[a + l] > s@[b + l] && lex_le(u, v) {
                lemma_lex_le_antisym(u, v);
                assert(u[l as int] == s@[a + l] && v[l as int] == s@[b + l]);
            }
        }
        s[a + l] < s[b + l]
    }
}

/// The suffix array of `s` built by inserting each suffix at its place,
/// comparing suffixes directly. It takes quadratic time and more, and
/// serves only should the doubling construction fail its check.
pub fn suffix_array_by_insertion(s: &[u8]) -> (sa: Vec<usize>)
    ensures
        exists|g: Seq<usize>| is_suffix_array(s@, sa@, g),
{
    let n = s.len();
    let mut sa: Vec<usize> = Vec::new();
    let ghost mut g: Seq<usize> = Seq::empty();
    let mut i: usize = 0;
    while i < n
        invariant
            n == s@.len(),
            i <= n,
            sa@.len() == i,
            g.len() == i,
            forall|t: int| 0 <= t < i ==> #[trigger] sa@[t] < i && g[sa@[t] as int] == t,
            forall|p: int| 0 <= p < i ==> #[trigger] g[p] < i && sa@[g[p] as int] == p,
            forall|a: int, b: int|
                #![trigger sa@[a], sa@[b]]
                0 <= a < b < i ==> lex_le(suffix_at(s@, sa@[a] as int), suffix_at(s@, sa@[b] as int)),
        decreases n - i,
    {
        let mut pos: usize = 0;
        while pos < i && !suffix_le(s, i, sa[pos])
            invariant
                n == s@.len(),
                i < n,
                pos <= i,
                sa@.len() == i,
                forall|t: int| 0 <= t < i ==> #[trigger] sa@[t] < i,
                forall|t: int|
                    0 <= t < pos ==> #[trigger] lex_le(
                        suffix_at(s@, sa@[t] as int),
                        suffix_at(s@, i as int),
                    ),
            decreases i - pos,
        {
            proof {
                lemma_lex_le_total(suffix_at(s@, i as int), suffix_at(s@, sa@[pos as int] as int));
            }
            pos = pos + 1;
        }
        let ghost old_sa = sa@;
        let ghost old_g = g;
        proof {
            old_sa.insert_ensures(pos as int, i);
        }
        sa.insert(pos, i);
        proof {
            g = Seq::new(
                (i + 1) as nat,
                |p: int|
                    if p == i {
                        pos
                    } else if old_g[p] >= pos {
                        (old_g[p] + 1) as usize
                    } else {
                        old_g[p]
                    },
            );
            let ns = sa@;
            assert forall|t: int| 0 <= t < i + 1 implies #[trigger] ns[t] < i + 1 && g[ns[t] as int]
                == t by {
                if t < pos {
                    assert(ns[t] == old_sa[t]);
                } else if t > pos {
                    assert(ns[t] == old_sa[t - 1]);
                }
            }
            assert forall|p: int| 0 <= p < i + 1 implies #[trigger] g[p] < i + 1 && ns[g[p] as int]
                == p by {
                if p < i {
                    let t0 = old_g[p] as int;
                    assert(old_sa[t0] == p);
                    if t0 >= pos {
                        assert(ns[t0 + 1] == old_sa[t0]);
                    } else {
                        assert(ns[t0] == old_sa[t0]);
                    }
                }
            }
            assert forall|a: int, b: int|
                #![trigger ns[a], ns[b]]
                0 <= a < b < i + 1 implies lex_le(
                suffix_at(s@, ns[a] as int),
                suffix_at(s@, ns[b] as int),
            ) by {
                let si = suffix_at(s@, i as int);
                if b < pos {
                    assert(ns[a] == old_sa[a] && ns[b] == old_sa[b]);
                } else if b == pos {
                    assert(ns[a] == old_sa[a]);
                    assert(lex_le(suffix_at(s@, old_sa[a] as int), si));
                } else if a < pos {
                    assert(ns[a] == old_sa[a] && ns[b] == old_sa[b - 1]);
                    assert(lex_le(suffix_at(s@, old_sa[a] as int), suffix_at(s@, old_sa[b - 1] as int)));
                } else if a == pos {
                    assert(ns[b] == old_sa[b - 1]);
                    let w = suffix_at(s@, old_sa[pos as int] as int);
                    assert(lex_le(si, w));
                    if b - 1 > pos {
                        assert(lex_le(w, suffix_at(s@, old_sa[b - 1] as int)));
                        lemma_lex_le_trans(si, w, suffix_at(s@, old_sa[b - 1] as int));
                    }
                } else {
                    assert(ns[a] == old_sa[a - 1] && ns[b] == old_sa[b - 1]);
                    assert(lex_le(
                        suffix_at(s@, old_sa[a - 1] as int),
                        suffix_at(s@, old_sa[b - 1] as int),
                    ));
                }
            }
        }
        i = i + 1;
    }
    proof {
        assert(is_suffix_array(s@, sa@, g));
    }
    sa
}

/// The key of suffix `i` in a doubling round of step `k`: the second part
/// is one more than the rank `k` places on, or 0 past the end.
pub open spec fn key_pair(rank: Seq<usize>, k: nat, i: nat) -> (nat, nat) {
    (
        rank[i as int] as nat,
        if i + k < rank.len() {
            (rank[(i + k) as int] + 1) as nat
        } else {
            0
        },
    )
}

/// Whether suffix `a` comes before suffix `b` by their key pairs.
fn key_less(rank: &Vec<usize>, k: usize, a: usize, b: usize) -> (r: bool)
    requires
        a < rank@.len(),
        b < rank@.len(),
        rank@.len() < usize::MAX,
        all_below(rank@, usize::MAX as nat),
    ensures
        r == (key_pair(rank@, k as nat, a as nat).0 < key_pair(rank@, k as nat, b as nat).0 || (
        key_pair(rank@, k as nat, a as nat).0 == key_pair(rank@, k as nat, b as nat).0
            && key_pair(rank@, k as nat, a as nat).1 < key_pair(rank@, k as nat, b as nat).1)),
{
    let n = rank.len();
    if rank[a] != rank[b] {
        return rank[a] < rank[b];
    }
    let ka: usize = if k < n - a {
        rank[a + k] + 1
    } else {
        0
    };
    let kb: usize = if k < n - b {
        rank[b + k] + 1
    } else {
        0
    };
    ka < kb
}

/// Orders the suffix indices `idx` by their key pairs with a bottom-up merge
/// sort. What is proved is that the result has the same length and holds
/// only indices in range.
fn sort_by_keys(idx: Vec<usize>, rank: &Vec<usize>, k: usize) -> (r: Vec<usize>)
    requires
        idx@.len() == rank@.len(),
        rank@.len() < usize::MAX,
        all_below(idx@, rank@.len() as nat),
        all_below(rank@, usize::MAX as nat),
    ensures
        r@.len() == idx@.len(),
        all_below(r@, rank@.len() as nat),
{
    let n = idx.len();
    let mut cur = idx;
    let mut width: usize = 1;
    while width < n
        invariant
            n == rank@.len(),
            n < usize::MAX,
            cur@.len() == n,
            width >= 1,
            all_below(cur@, n as nat),
            all_below(rank@, usize::MAX as nat),
        decreases n - width,
    {
        let mut next: Vec<usize> = Vec::new();
        let mut lo: usize = 0;
        while lo < n
            invariant
                n == rank@.len(),
                n < usize::MAX,
                cur@.len() == n,
                width >= 1,
                lo <= n,
                next@.len() == lo,
                all_below(cur@, n as nat),
                all_below(next@, n as nat),
                all_below(rank@, usize::MAX as nat),
            decreases n - lo,
        {
            let mid: usize = if width < n - lo {
                lo + width
            } else {
                n
            };
            let hi: usize = if width < n - mid {
                mid + width
            } else {
                n
            };
            let mut i: usize = lo;
            let mut j: usize = mid;
            while i < mid || j < hi
                invariant
                    n == rank@.len(),
                    n < usize::MAX,
                    cur@.len() == n,
                    lo <= i <= mid <= j <= hi <= n,
                    next@.len() == lo + (i - lo) + (j - mid),
                    all_below(cur@, n as nat),
                    all_below(next@, n as nat),
                    all_below(rank@, usize::MAX as nat),
                decreases (mid - i) + (hi - j),
            {
                let take_left = if i < mid && j < hi {
                    !key_less(rank, k, cur[j], cur[i])
                } else {
                    i < mid
                };
                if take_left {
                    next.push(cur[i]);
                    i = i + 1;
                } else {
                    next.push(cur[j]);
                    j = j + 1;
                }
            }
            lo = hi;
        }
        cur = next;
        if width > n / 2 {
            break;
        }
        width = width * 2;
    }
    cur
}

/// The suffix array of `s` by prefix doubling: each round orders the
/// suffixes by their rank and the rank `k` places on, then ranks them anew,
/// until all ranks differ. What is proved is that the array has one entry
/// per byte and each entry is a position of `s`.
pub fn suffix_array(s: &[u8]) -> (sa: Vec<usize>)
    requires
        s@.len() < usize::MAX,
    ensures
        sa@.len() == s@.len(),
        all_below(sa@, s@.len() as nat),
{
    let n = s.len();
    let mut sa: Vec<usize> = Vec::new();
    let mut rank: Vec<usize> = Vec::new();
    let mut i: usize = 0;
    while i < n
        invariant
            n == s@.len(),
            i <= n,
            sa@.len() == i,
            rank@.len() == i,
            all_below(sa@, n as nat),
            all_below(rank@, 256),
        decreases n - i,
    {
        sa.push(i);
        rank.push(s[i] as usize);
        i = i + 1;
    }
    let mut k: usize = 1;
    while k < n
        invariant
            n == s@.len(),
            n < usize::MAX,
            sa@.len() == n,
            rank@.len() == n,
            k >= 1,
            all_below(sa@, n as nat),
            all_below(rank@, usize::MAX as nat),
        decreases n - k,
    {
        sa = sort_by_keys(sa, &rank, k);
        let mut fresh: Vec<usize> = Vec::new();
        let mut t: usize = 0;
        while t < n
            invariant
                fresh@.len() == t,
                t <= n,
                all_below(fresh@, n as nat),
            decreases n - t,
        {
            fresh.push(0);
            t = t + 1;
        }
        let mut cls: usize = 0;
        let mut j: usize = 1;
        while j < n
            invariant
                n == s@.len(),
                n < usize::MAX,
                sa@.len() == n,
                rank@.len() == n,
                fresh@.len() == n,
                1 <= j <= n,
                cls < j,
                all_below(sa@, n as nat),
                all_below(rank@, usize::MAX as nat),
                all_below(fresh@, n as nat),
            decreases n - j,
        {
            if key_less(&rank, k, sa[j - 1], sa[j]) {
                cls = cls + 1;
            }
            fresh.set(sa[j], cls);
            j = j + 1;
        }
        rank = fresh;
        if cls + 1 >= n || k > n / 2 {
            break;
        }
        k = k * 2;
    }
    sa
}

/// No match of the base at `new[at..]` is longer than `len` bytes.
pub open spec fn longest_at(base: Seq<u8>, new: Seq<u8>, at: int, len: nat) -> bool {
    forall|o: int, l: int|
        0 <= o && 0 <= l && o + l <= base.len() && at + l <= new.len() && #[trigger] base.subrange(
            o,
            o + l,
        ) == new.subrange(at, at + l) ==> l <= len
}

/// The greedy walk may leave the byte at `q` as a literal: no match of
/// `MIN_MATCH` bytes starts there, or the next byte starts a match more than
/// one byte longer than any that starts there.
pub open spec fn literal_justified(base: Seq<u8>, new: Seq<u8>, q: int) -> bool {
    ||| longest_at(base, new, q, (MIN_MATCH - 1) as nat)
    ||| exists|o: int, l: int|
        0 <= o && 2 <= l && o + l <= base.len() && q + 1 + l <= new.len() && #[trigger] base.subrange(
            o,
            o + l,
        ) == new.subrange(q + 1, q + 1 + l) && longest_at(base, new, q, (l - 2) as nat)
}

/// Instruction `i` follows the greedy policy: a COPY is a longest match at
/// the place in `new` where its output starts, and the walk may leave each
/// byte of an ADD as a literal.
pub open spec fn greedy_choice(base: Seq<u8>, new: Seq<u8>, ops: Seq<Op>, i: int) -> bool {
    let pos = ops_len(ops.take(i)) as int;
    match ops[i] {
        Op::Copy { offset, length } => longest_at(base, new, pos, length),
        Op::Add { literal } => forall|q: int|
            pos <= q < pos + literal.len() ==> #[trigger] literal_justified(base, new, q),
    }
}

/// What `common_forward` found, read on the suffixes: their longest common
/// prefix and, where they differ or one ends, their order.
pub proof fn lemma_forward_lcp(a: Seq<u8>, ai: int, b: Seq<u8>, bi: int, l: int)
    requires
        0 <= ai,
        0 <= bi,
        0 <= l,
        ai + l <= a.len(),
        bi + l <= b.len(),
        a.subrange(ai, ai + l) == b.subrange(bi, bi + l),
        ai + l == a.len() || bi + l == b.len() || a[ai + l] != b[bi + l],
    ensures
        lcp(suffix_at(a, ai), suffix_at(b, bi)) == l,
        ai + l == a.len() ==> lex_le(suffix_at(a, ai), suffix_at(b, bi)),
        ai + l < a.len() && bi + l < b.len() && a[ai + l] < b[bi + l] ==> lex_le(
            suffix_at(a, ai),
            suffix_at(b, bi),
        ),
        bi + l == b.len() ==> lex_le(suffix_at(b, bi), suffix_at(a, ai)),
        ai + l < a.len() && bi + l < b.len() && a[ai + l] > b[bi + l] ==> lex_le(
            suffix_at(b, bi),
            suffix_at(a, ai),
        ),
{
    let u = suffix_at(a, ai);
    let v = suffix_at(b, bi);
    assert(u.subrange(0, l) =~= a.subrange(ai, ai + l));
    assert(v.subrange(0, l) =~= b.subrange(bi, bi + l));
    if ai + l < a.len() {
        assert(u[l] == a[ai + l]);
    }
    if bi + l < b.len() {
        assert(v[l] == b[bi + l]);
    }
    lemma_lcp_exact(u, v, l as nat);
}

/// The longest prefix of `new[j..]` that occurs in the base: its offset and
/// its length. It is found by binary search for the place of `new[j..]`
/// among the sorted suffixes; the longest match is with a neighbour of
/// that place.
pub fn longest_match(base: &[u8], sa: &Vec<usize>, inv: &Vec<usize>, new: &[u8], j: usize) -> (r: (
    usize,
    usize,
))
    requires
        j <= new@.len(),
        is_suffix_array(base@, sa@, inv@),
    ensures
        r.0 + r.1 <= base@.len(),
        j + r.1 <= new@.len(),
        base@.subrange(r.0 as int, r.0 + r.1) == new@.subrange(j as int, j + r.1),
        forall|o: int, l: int|
            0 <= o && 0 <= l && o + l <= base@.len() && j + l <= new@.len() && #[trigger] base@.subrange(
                o,
                o + l,
            ) == new@.subrange(j as int, j + l) ==> l <= r.1,
{
    let n = sa.len();
    let nb = base.len();
    let nn = new.len();
    let ghost x = suffix_at(new@, j as int);
    let mut lo: usize = 0;
    let mut hi: usize = n;
    while lo < hi
        invariant
            n == sa@.len(),
            nb == base@.len(),
            nn == new@.len(),
            j <= nn,
            lo <= hi <= n,
            x == suffix_at(new@, j as int),
            is_suffix_array(base@, sa@, inv@),
            forall|t: int| 0 <= t < lo ==> #[trigger] lex_le(suffix_at(base@, sa@[t] as int), x),
            forall|t: int| hi <= t < n ==> #[trigger] lex_le(x, suffix_at(base@, sa@[t] as int)),
        decreases hi - lo,
    {
        let mid = lo + (hi - lo) / 2;
        let p = sa[mid];
        let l = common_forward(base, p, new, j);
        let ghost u = suffix_at(base@, p as int);
        proof {
            lemma_forward_lcp(base@, p as int, new@, j as int, l as int);
        }
        if j + l == nn {
            proof {
                assert forall|t: int| mid <= t < n implies #[trigger] lex_le(
                    x,
                    suffix_at(base@, sa@[t] as int),
                ) by {
                    if t > mid {
                        assert(lex_le(u, suffix_at(base@, sa@[t] as int)));
                        lemma_lex_le_trans(x, u, suffix_at(base@, sa@[t] as int));
                    }
                }
            }
            hi = mid;
        } else if p + l == nb || base[p + l] < new[j + l] {
            proof {
                assert forall|t: int| 0 <= t <= mid implies #[trigger] lex_le(
                    suffix_at(base@, sa@[t] as int),
                    x,
                ) by {
                    if t < mid {
                        assert(lex_le(suffix_at(base@, sa@[t] as int), u));
                        lemma_lex_le_trans(suffix_at(base@, sa@[t] as int), u, x);
                    }
                }
            }
            lo = mid + 1;
        } else {
            proof {
                assert forall|t: int| mid <= t < n implies #[trigger] lex_le(
                    x,
                    suffix_at(base@, sa@[t] as int),
                ) by {
                    if t > mid {
                        assert(lex_le(u, suffix_at(base@, sa@[t] as int)));
                        lemma_lex_le_trans(x, u, suffix_at(base@, sa@[t] as int));
                    }
                }
            }
            hi = mid;
        }
    }
    let mut best_off: usize = 0;
    let mut best_len: usize = 0;
    assert(base@.subrange(0, 0) =~= new@.subrange(j as int, j as int));
    if lo > 0 {
        let p = sa[lo - 1];
        let l = common_forward(base, p, new, j);
        proof {
            lemma_forward_lcp(base@, p as int, new@, j as int, l as int);
        }
        best_off = p;
        best_len = l;
    }
    if lo < n {
        let p = sa[lo];
        let l = common_forward(base, p, new, j);
        proof {
            lemma_forward_lcp(base@, p as int, new@, j as int, l as int);
            lemma_lcp_symmetric(suffix_at(base@, p as int), x);
        }
        if l > best_len {
            best_off = p;
            best_len = l;
        }
    }
    proof {
        assert forall|o: int, l: int|
            0 <= o && 0 <= l && o + l <= nb && j + l <= nn && #[trigger] base@.subrange(o, o + l)
                == new@.subrange(j as int, j + l) implies l <= best_len by {
            if l > 0 {
                let u = suffix_at(base@, o);
                assert(u.subrange(0, l) =~= base@.subrange(o, o + l));
                assert(x.subrange(0, l) =~= new@.subrange(j as int, j + l));
                lemma_lcp_at_least(u, x, l as nat);
                let t = inv@[o] as int;
                assert(sa@[t] == o);
                if t < lo {
                    let w = suffix_at(base@, sa@[lo - 1] as int);
                    if t < lo - 1 {
                        assert(lex_le(u, w));
                    } else {
                        lemma_lex_le_refl(u);
                    }
                    lemma_lcp_below(u, w, x);
                } else {
                    let w = suffix_at(base@, sa@[lo as int] as int);
                    if t > lo {
                        assert(lex_le(w, u));
                    } else {
                        lemma_lex_le_refl(u);
                    }
                    lemma_lcp_above(x, w, u);
                    lemma_lcp_symmetric(u, x);
                }
            }
        }
    }
    (best_off, best_len)
}

/// Instructions that rebuild `new` from `base`, found on the suffix array
/// `sa` of the base (with `inv` its inverse) by the greedy walk.
pub fn strong_ops_with(base: &[u8], sa: &Vec<usize>, inv: &Vec<usize>, new: &[u8]) -> (r: Vec<
    Instruction,
>)
    requires
        is_suffix_array(base@, sa@, inv@),
    ensures
        matcher_output(ops_of(r@), base@, new@),
        forall|i: int| 0 <= i < r@.len() ==> #[trigger] greedy_choice(base@, new@, ops_of(r@), i),
{
    let nb = base.len();
    let nn = new.len();
    let mut bld = OpBuilder::new(base, new);
    let mut j: usize = 0;
    while j < nn
        invariant
            nb == base@.len(),
            nn == new@.len(),
            j <= nn,
            is_suffix_array(base@, sa@, inv@),
            bld.wf(base@, new@),
            forall|i: int|
                0 <= i < bld.ops@.len() ==> #[trigger] greedy_choice(
                    base@,
                    new@,
                    ops_of(bld.ops@),
                    i,
                ),
            forall|q: int| bld.lit_start <= q < j ==> #[trigger] literal_justified(base@, new@, q),
            bld.lit_start <= j,
            bld.ops@.len() == 0 ==> bld.lit_start == 0,
            nb == 0 ==> bld.ops@.len() == 0,
        decreases nn - j,
    {
        let (off, len) = longest_match(base, sa, inv, new, j);
        if len >= MIN_MATCH {
            let mut taken = false;
            if j + 1 < nn {
                let (off2, len2) = longest_match(base, sa, inv, new, j + 1);
                if len2 > len && len2 - len > 1 {
                    let ghost before = ops_of(bld.ops@);
                    let ghost ls = bld.lit_start;
                    proof {
                        assert(longest_at(base@, new@, j as int, (len2 - 2) as nat));
                        assert(base@.subrange(off2 as int, off2 + len2) == new@.subrange(
                            j + 1,
                            j + 1 + len2,
                        ));
                        assert(literal_justified(base@, new@, j as int));
                    }
                    bld.push_copy(base, new, j + 1, off2, len2);
                    proof {
                        lemma_keep_greedy(
                            base@,
                            new@,
                            before,
                            ops_of(bld.ops@),
                            ls as int,
                            (j + 1) as int,
                        );
                    }
                    j = j + 1 + len2;
                    taken = true;
                }
            }
            if !taken {
                let ghost before = ops_of(bld.ops@);
                let ghost ls = bld.lit_start;
                bld.push_copy(base, new, j, off, len);
                proof {
                    lemma_keep_greedy(base@, new@, before, ops_of(bld.ops@), ls as int, j as int);
                }
                j = j + len;
            }
        } else {
            proof {
                assert(longest_at(base@, new@, j as int, (MIN_MATCH - 1) as nat));
            }
            j = j + 1;
        }
    }
    let ghost before = ops_of(bld.ops@);
    let ghost ls = bld.lit_start;
    proof {
        lemma_apply_len(base@, before);
    }
    let r = bld.finish(base, new);
    proof {
        let after = ops_of(r@);
        assert forall|i: int| 0 <= i < r@.len() implies #[trigger] greedy_choice(
            base@,
            new@,
            after,
            i,
        ) by {
            assert(after.take(i) =~= before.take(i) || i == before.len());
            if i < before.len() {
                assert(after[i] == before[i]);
                assert(after.take(i) =~= before.take(i));
                assert(greedy_choice(base@, new@, before, i));
            } else {
                assert(after.take(i) =~= before);
            }
        }
    }
    r
}

/// Appending a COPY that is a longest match where it starts, after the
/// pending literal bytes as an ADD, keeps the greedy policy.
proof fn lemma_keep_greedy(
    base: Seq<u8>,
    new: Seq<u8>,
    before: Seq<Op>,
    after: Seq<Op>,
    ls: int,
    at: int,
)
    requires
        forall|i: int| 0 <= i < before.len() ==> #[trigger] greedy_choice(base, new, before, i),
        forall|q: int| ls <= q < at ==> #[trigger] literal_justified(base, new, q),
        ops_valid(before, base.len()),
        0 <= ls <= at <= new.len(),
        apply_ops(base, before) == new.subrange(0, ls),
        after.len() > 0,
        after.last() matches Op::Copy { offset, length } && longest_at(base, new, at, length),
        ops_len(after.drop_last()) == at,
        after.drop_last() == before || after.drop_last() == before.push(
            Op::Add { literal: new.subrange(ls, at) },
        ),
    ensures
        forall|i: int| 0 <= i < after.len() ==> #[trigger] greedy_choice(base, new, after, i),
{
    lemma_apply_len(base, before);
    assert forall|i: int| 0 <= i < after.len() implies #[trigger] greedy_choice(
        base,
        new,
        after,
        i,
    ) by {
        if i == after.len() - 1 {
            assert(after.take(i) =~= after.drop_last());
        } else if i < before.len() {
            assert(after[i] == after.drop_last()[i]);
            if after.drop_last() != before {
                assert(after.drop_last()[i] == before[i]);
            }
            assert(after.take(i) =~= before.take(i));
            assert(greedy_choice(base, new, before, i));
        } else {
            assert(after[i] == after.drop_last().last());
            assert(after.take(i) =~= before);
        }
    }
}

/// Instructions that rebuild `new` from `base` by the strong matcher: every
/// COPY is a longest match where it starts, and every literal byte is one
/// the greedy walk may leave. The doubling suffix array is checked before
/// use; should the check ever fail, the array is built again by insertion,
/// which always passes it.
pub fn strong_ops(base: &[u8], new: &[u8]) -> (r: Vec<Instruction>)
    requires
        base@.len() < usize::MAX,
    ensures
        matcher_output(ops_of(r@), base@, new@),
        forall|i: int| 0 <= i < r@.len() ==> #[trigger] greedy_choice(base@, new@, ops_of(r@), i),
{
    let sa = suffix_array(base);
    match check_suffix_array(base, &sa) {
        Some(inv) => strong_ops_with(base, &sa, &inv, new),
        None => {
            let sorted = suffix_array_by_insertion(base);
            match check_suffix_array(base, &sorted) {
                Some(inv) => strong_ops_with(base, &sorted, &inv, new),
                None => {
                    proof {
                        assert(false);
                    }
                    Vec::new()
                },
            }
        },
    }
}

} // verus!
