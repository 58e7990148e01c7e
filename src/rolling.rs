//! A rolling fingerprint over a window of bytes (the rsync checksum): the
//! plain sum `a` of the window and the position-weighted sum `b`, where the
//! first byte of a window of `w` bytes weighs `w` and the last weighs 1.
//! Sliding the window one byte costs a constant number of operations.
use vstd::prelude::*;

verus! {

/// Largest window the fingerprint is kept for.
pub const MAX_WINDOW: usize = 64;

/// Sum of the bytes.
pub open spec fn sum_a(s: Seq<u8>) -> nat
    decreases s.len(),
{
    if s.len() == 0 {
        0
    } else {
        sum_a(s.drop_last()) + s.last() as nat
    }
}

/// Sum of the prefix sums: the byte at `i` of `s` weighs `s.len() - i`.
pub open spec fn sum_b(s: Seq<u8>) -> nat
    decreases s.len(),
{
    if s.len() == 0 {
        0
    } else {
        sum_b(s.drop_last()) + sum_a(s)
    }
}

/// The fingerprint of a window.
pub open spec fn window_hash(s: Seq<u8>) -> nat {
    sum_a(s) + 65536 * sum_b(s)
}

pub proof fn lemma_sum_bounds(s: Seq<u8>)
    ensures
        sum_a(s) <= 255 * s.len(),
        sum_b(s) <= 255 * s.len() * s.len(),
    decreases s.len(),
{
    if s.len() > 0 {
        lemma_sum_bounds(s.drop_last());
        let n = s.len();
        assert(255 * (n - 1) * (n - 1) + 255 * n <= 255 * n * n) by (nonlinear_arith)
            requires n >= 1;
    }
}

/// Dropping the first byte `x` of a window `[x] + t`.
pub proof fn lemma_sum_prepend(x: u8, t: Seq<u8>)
    ensures
        sum_a(seq![x] + t) == x + sum_a(t),
        sum_b(seq![x] + t) == (t.len() + 1) * x + sum_b(t),
    decreases t.len(),
{
    let s = seq![x] + t;
    if t.len() == 0 {
        assert(s.drop_last() =~= Seq::<u8>::empty());
        reveal_with_fuel(sum_a, 2);
        reveal_with_fuel(sum_b, 2);
    } else {
        assert(s.drop_last() =~= seq![x] + t.drop_last());
        lemma_sum_prepend(x, t.drop_last());
        assert(s.last() == t.last());
        let n = t.len();
        assert((n + 1) * x == n * x + x) by (nonlinear_arith);
    }
}

/// The fingerprint state of the window it was last given.
pub struct RollingHash {
    pub a: u64,
    pub b: u64,
}

impl RollingHash {
    /// The state holds the sums of `w`.
    pub open spec fn tracks(&self, w: Seq<u8>) -> bool {
        self.a == sum_a(w) && self.b == sum_b(w)
    }

    /// The fingerprint of `s[start..start + w]`.
    pub fn new(s: &[u8], start: usize, w: usize) -> (r: Self)
        requires
            w <= MAX_WINDOW,
            start + w <= s@.len(),
        ensures
            r.tracks(s@.subrange(start as int, start + w)),
    {
        let mut a: u64 = 0;
        let mut b: u64 = 0;
        let n = s.len();
        let mut k: usize = 0;
        while k < w
            invariant
                n == s@.len(),
                k <= w <= MAX_WINDOW,
                start + w <= s@.len(),
                a == sum_a(s@.subrange(start as int, start + k)),
                b == sum_b(s@.subrange(start as int, start + k)),
            decreases w - k,
        {
            let ghost prev = s@.subrange(start as int, start + k);
            let ghost next = s@.subrange(start as int, start + k + 1);
            assert(next.drop_last() =~= prev);
            proof {
                lemma_sum_bounds(next);
                assert(255 * next.len() * next.len() <= 255 * 64 * 64) by (nonlinear_arith)
                    requires next.len() <= 64;
            }
            a = a + s[start + k] as u64;
            b = b + a;
            k = k + 1;
        }
        RollingHash { a, b }
    }

    /// Slides the window `s[start..start + w]` one byte to the right.
    pub fn roll(&mut self, s: &[u8], start: usize, w: usize)
        requires
            1 <= w <= MAX_WINDOW,
            start + w < s@.len(),
            old(self).tracks(s@.subrange(start as int, start + w)),
        ensures
            final(self).tracks(s@.subrange(start + 1, start + 1 + w)),
    {
        let x = s[start];
        let y = s[start + w];
        let ghost t = s@.subrange(start + 1, start + w);
        let ghost next = s@.subrange(start + 1, start + 1 + w);
        proof {
            assert(s@.subrange(start as int, start + w) =~= seq![x] + t);
            lemma_sum_prepend(x, t);
            assert(next.drop_last() =~= t);
            lemma_sum_bounds(next);
            assert(255 * next.len() * next.len() <= 255 * 64 * 64) by (nonlinear_arith)
                requires next.len() <= 64;
        }
        let a2 = self.a - x as u64 + y as u64;
        let b2 = self.b - (w as u64) * (x as u64) + a2;
        self.a = a2;
        self.b = b2;
    }

    /// The fingerprint value.
    pub fn value(&self) -> (r: u64)
        requires
            self.a <= 255 * 64,
            self.b <= 255 * 64 * 64,
        ensures
            r == self.a + 65536 * self.b,
    {
        self.a + 65536 * self.b
    }
}

/// A state that tracks a window of at most `MAX_WINDOW` bytes has its
/// fingerprint in range.
pub proof fn lemma_tracks_bounded(h: RollingHash, w: Seq<u8>)
    requires
        h.tracks(w),
        w.len() <= MAX_WINDOW,
    ensures
        h.a <= 255 * 64,
        h.b <= 255 * 64 * 64,
        h.a + 65536 * h.b == window_hash(w),
{
    lemma_sum_bounds(w);
    assert(255 * w.len() * w.len() <= 255 * 64 * 64) by (nonlinear_arith)
        requires w.len() <= 64;
}

} // verus!
