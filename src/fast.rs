//! The fast matcher: an index of the base's non-overlapping blocks by their
//! rolling fingerprint, and a scan of every window of the new bytes against
//! it. A hit is checked byte by byte and then stretched both ways.
use crate::builder::{back_len, common_backward, common_forward, matcher_output, OpBuilder};
use crate::instr::{apply_ops, lemma_apply_len, ops_len, ops_of, ops_valid, Instruction, Op, MIN_MATCH};
use crate::lex::lcp;
use crate::rolling::{lemma_tracks_bounded, window_hash, RollingHash, MAX_WINDOW};
use crate::suffix::{lemma_forward_lcp, suffix_at};
use vstd::prelude::*;

verus! {

/// Block size for small inputs, short enough to find short shared runs.
pub const SMALL_BLOCK: usize = 4;

/// Block size for large inputs.
pub const LARGE_BLOCK: usize = 32;

/// Number of slots of the block index for a base of `nb` bytes.
pub open spec fn index_size(nb: nat, w: nat) -> nat {
    if nb / w <= usize::MAX / 4 {
        nb / w * 2 + 1
    } else {
        nb / w
    }
}

/// Where the blocks of `w` bytes of a base of `nb` bytes end.
pub open spec fn blocks_end(nb: nat, w: nat) -> nat
    decreases nb,
{
    if w == 0 || nb < w {
        0
    } else {
        w + blocks_end((nb - w) as nat, w)
    }
}

/// The block index once the blocks before `off` are entered: the slot of a
/// block's fingerprint holds one more than the offset of the first block
/// whose fingerprint falls there, or 0.
pub open spec fn block_index(base: Seq<u8>, w: nat, tsize: nat, off: nat) -> Seq<usize>
    decreases off,
{
    if w == 0 || off < w {
        Seq::new(tsize, |i: int| 0usize)
    } else {
        let prev = (off - w) as nat;
        let t = block_index(base, w, tsize, prev);
        let slot = window_hash(base.subrange(prev as int, (prev + w) as int)) % tsize;
        if t[slot as int] == 0 {
            t.update(slot as int, (prev + 1) as usize)
        } else {
            t
        }
    }
}

/// The block index of the whole base.
pub open spec fn index_of(base: Seq<u8>, w: nat) -> Seq<usize> {
    block_index(base, w, index_size(base.len(), w), blocks_end(base.len(), w))
}

/// The index slot of the window of `w` bytes at `q` of `new`.
pub open spec fn window_slot(base: Seq<u8>, new: Seq<u8>, w: nat, q: int) -> int {
    (window_hash(new.subrange(q, q + w)) % index_size(base.len(), w)) as int
}

/// The window of `w` bytes at `q` of `new` has a checked hit: its slot in
/// the index names a base offset from which the base agrees with `new[q..]`
/// on at least `w` bytes.
pub open spec fn fast_hit(base: Seq<u8>, new: Seq<u8>, w: nat, q: int) -> bool {
    let c = index_of(base, w)[window_slot(base, new, w, q)];
    c > 0 && c - 1 <= base.len() && lcp(suffix_at(new, q), suffix_at(base, c - 1)) >= w
}

/// The fast matcher may leave the byte at `q` as a literal: no window of
/// `w` bytes fits from there, or the window there has no checked hit.
pub open spec fn fast_literal_ok(base: Seq<u8>, new: Seq<u8>, w: nat, q: int) -> bool {
    q + w > new.len() || !fast_hit(base, new, w, q)
}

/// What the fast matcher emits from position `j` of `new`, when the
/// pending literal run starts at `ls` and `ops` are emitted: a window with a
/// checked hit becomes a COPY stretched back into the pending run and
/// forward as far as the bytes agree; otherwise the walk moves one byte on.
/// At the end the pending run becomes an ADD.
pub open spec fn fast_scan(base: Seq<u8>, new: Seq<u8>, w: nat, j: int, ls: int, ops: Seq<Op>) -> Seq<
    Op,
>
    decreases new.len() - j,
{
    if w == 0 || j < 0 || ls < 0 || ls > j || j + w > new.len() {
        if 0 <= ls < new.len() {
            ops.push(Op::Add { literal: new.subrange(ls, new.len() as int) })
        } else {
            ops
        }
    } else {
        let c = index_of(base, w)[window_slot(base, new, w, j)];
        let off = c - 1;
        let fwd = lcp(suffix_at(new, j), suffix_at(base, off));
        if c > 0 && off <= base.len() && fwd >= w && j + fwd <= new.len() {
            let back = back_len(new, j, base, off, j - ls);
            let at = j - back;
            let ops2 = if at > ls {
                ops.push(Op::Add { literal: new.subrange(ls, at) })
            } else {
                ops
            };
            fast_scan(
                base,
                new,
                w,
                j + fwd,
                j + fwd,
                ops2.push(Op::Copy { offset: (off - back) as nat, length: (back + fwd) as nat }),
            )
        } else {
            fast_scan(base, new, w, j + 1, ls, ops)
        }
    }
}

/// The instructions the fast matcher emits for `new` against `base`.
pub open spec fn fast_ops_spec(base: Seq<u8>, new: Seq<u8>, w: nat) -> Seq<Op> {
    fast_scan(base, new, w, 0, 0, Seq::empty())
}

/// Every byte of an ADD at index `i` is one the fast matcher may leave.
pub open spec fn fast_choice(base: Seq<u8>, new: Seq<u8>, w: nat, ops: Seq<Op>, i: int) -> bool {
    let pos = ops_len(ops.take(i)) as int;
    match ops[i] {
        Op::Copy { offset, length } => true,
        Op::Add { literal } => forall|q: int|
            pos <= q < pos + literal.len() ==> #[trigger] fast_literal_ok(base, new, w, q),
    }
}

/// Appending a COPY, after the pending literal bytes as an ADD, keeps every
/// ADD made of bytes the fast matcher may leave.
proof fn lemma_keep_fast(
    base: Seq<u8>,
    new: Seq<u8>,
    w: nat,
    before: Seq<Op>,
    after: Seq<Op>,
    ls: int,
    at: int,
)
    requires
        forall|i: int| 0 <= i < before.len() ==> #[trigger] fast_choice(base, new, w, before, i),
        forall|q: int| ls <= q < at ==> #[trigger] fast_literal_ok(base, new, w, q),
        ops_valid(before, base.len()),
        0 <= ls <= at <= new.len(),
        apply_ops(base, before) == new.subrange(0, ls),
        after.len() > 0,
        after.last() is Copy,
        after.drop_last() == before || after.drop_last() == before.push(
            Op::Add { literal: new.subrange(ls, at) },
        ),
    ensures
        forall|i: int| 0 <= i < after.len() ==> #[trigger] fast_choice(base, new, w, after, i),
{
    lemma_apply_len(base, before);
    assert forall|i: int| 0 <= i < after.len() implies #[trigger] fast_choice(
        base,
        new,
        w,
        after,
        i,
    ) by {
        if i == after.len() - 1 {
        } else if i < before.len() {
            assert(after[i] == after.drop_last()[i]);
            if after.drop_last() != before {
                assert(after.drop_last()[i] == before[i]);
            }
            assert(after.take(i) =~= before.take(i));
            assert(fast_choice(base, new, w, before, i));
        } else {
            assert(after[i] == after.drop_last().last());
            assert(after.take(i) =~= before);
        }
    }
}

/// Instructions that rebuild `new` from `base`, found with blocks of `w`
/// bytes. Each window of `new` is looked up in the block index; a checked
/// hit becomes a COPY stretched both ways, and every byte left as a literal
/// either has no room for a window or no checked hit there.
pub fn fast_ops(base: &[u8], new: &[u8], w: usize) -> (r: Vec<Instruction>)
    requires
        MIN_MATCH <= w <= MAX_WINDOW,
    ensures
        matcher_output(ops_of(r@), base@, new@),
        forall|i: int| 0 <= i < r@.len() ==> #[trigger] fast_choice(base@, new@, w as nat, ops_of(r@), i),
        ops_of(r@) == fast_ops_spec(base@, new@, w as nat),
{
    let nb = base.len();
    let nn = new.len();
    let nblocks = nb / w;
    let tsize: usize = if nblocks <= usize::MAX / 4 {
        nblocks * 2 + 1
    } else {
        nblocks
    };
    assert(tsize == index_size(nb as nat, w as nat));
    let mut table: Vec<usize> = Vec::new();
    let mut t: usize = 0;
    while t < tsize
        invariant
            t <= tsize,
            table@.len() == t,
            forall|i: int| 0 <= i < t ==> #[trigger] table@[i] == 0,
        decreases tsize - t,
    {
        table.push(0);
        t = t + 1;
    }
    assert(table@ =~= block_index(base@, w as nat, tsize as nat, 0));
    let mut off: usize = 0;
    while w <= nb - off
        invariant
            nb == base@.len(),
            MIN_MATCH <= w <= MAX_WINDOW,
            off <= nb,
            tsize > 0,
            table@.len() == tsize,
            table@ == block_index(base@, w as nat, tsize as nat, off as nat),
            off + blocks_end((nb - off) as nat, w as nat) == blocks_end(nb as nat, w as nat),
        decreases nb - off,
    {
        let h = RollingHash::new(base, off, w);
        proof {
            lemma_tracks_bounded(h, base@.subrange(off as int, off + w));
            assert(blocks_end((nb - off) as nat, w as nat) == w + blocks_end(
                (nb - off - w) as nat,
                w as nat,
            ));
        }
        let slot = (h.value() % tsize as u64) as usize;
        if table[slot] == 0 {
            table.set(slot, off + 1);
        }
        off = off + w;
    }
    proof {
        assert(blocks_end((nb - off) as nat, w as nat) == 0);
        assert(table@ == index_of(base@, w as nat));
    }
    let mut bld = OpBuilder::new(base, new);
    assert(ops_of(bld.ops@) =~= Seq::<Op>::empty());
    let mut j: usize = 0;
    let mut h = RollingHash { a: 0, b: 0 };
    let mut valid = false;
    while w <= nn - j
        invariant
            nb == base@.len(),
            nn == new@.len(),
            MIN_MATCH <= w <= MAX_WINDOW,
            j <= nn,
            tsize > 0,
            tsize == index_size(nb as nat, w as nat),
            table@.len() == tsize,
            table@ == index_of(base@, w as nat),
            bld.wf(base@, new@),
            forall|i: int|
                0 <= i < bld.ops@.len() ==> #[trigger] fast_choice(
                    base@,
                    new@,
                    w as nat,
                    ops_of(bld.ops@),
                    i,
                ),
            forall|q: int| bld.lit_start <= q < j ==> #[trigger] fast_literal_ok(base@, new@, w as nat, q),
            bld.lit_start <= j,
            bld.ops@.len() == 0 ==> bld.lit_start == 0,
            nb == 0 ==> bld.ops@.len() == 0,
            valid ==> h.tracks(new@.subrange(j as int, j + w)),
            fast_ops_spec(base@, new@, w as nat) == fast_scan(
                base@,
                new@,
                w as nat,
                j as int,
                bld.lit_start as int,
                ops_of(bld.ops@),
            ),
        decreases nn - j,
    {
        if !valid {
            h = RollingHash::new(new, j, w);
            valid = true;
        }
        proof {
            lemma_tracks_bounded(h, new@.subrange(j as int, j + w));
        }
        let slot = (h.value() % tsize as u64) as usize;
        let cand = table[slot];
        let mut advanced = false;
        if cand > 0 && cand - 1 <= nb {
            let off = cand - 1;
            let fwd = common_forward(new, j, base, off);
            proof {
                lemma_forward_lcp(new@, j as int, base@, off as int, fwd as int);
            }
            if fwd >= w {
                let back = common_backward(new, j, base, off, j - bld.lit_start);
                let total = back + fwd;
                let ghost before = ops_of(bld.ops@);
                let ghost ls = bld.lit_start;
                proof {
                    assert(base@.subrange(off - back, off + fwd) =~= base@.subrange(
                        off - back,
                        off as int,
                    ) + base@.subrange(off as int, off + fwd));
                    assert(new@.subrange(j - back, j + fwd) =~= new@.subrange(
                        j - back,
                        j as int,
                    ) + new@.subrange(j as int, j + fwd));
                }
                bld.push_copy(base, new, j - back, off - back, total);
                proof {
                    lemma_keep_fast(
                        base@,
                        new@,
                        w as nat,
                        before,
                        ops_of(bld.ops@),
                        ls as int,
                        j - back,
                    );
                    let after = ops_of(bld.ops@);
                    assert(after =~= after.drop_last().push(after.last()));
                    assert(fast_hit(base@, new@, w as nat, j as int));
                }
                j = j - back + total;
                valid = false;
                advanced = true;
            }
        }
        if !advanced {
            proof {
                assert(!fast_hit(base@, new@, w as nat, j as int));
            }
            if w < nn - j {
                h.roll(new, j, w);
            } else {
                valid = false;
            }
            j = j + 1;
        }
    }
    let ghost before = ops_of(bld.ops@);
    proof {
        lemma_apply_len(base@, before);
        assert forall|q: int| bld.lit_start <= q < nn implies #[trigger] fast_literal_ok(
            base@,
            new@,
            w as nat,
            q,
        ) by {
            if q >= j {
                assert(q + w > nn);
            }
        }
    }
    let r = bld.finish(base, new);
    proof {
        let after = ops_of(r@);
        assert forall|i: int| 0 <= i < r@.len() implies #[trigger] fast_choice(
            base@,
            new@,
            w as nat,
            after,
            i,
        ) by {
            if i < before.len() {
                assert(after[i] == before[i]);
                assert(after.take(i) =~= before.take(i));
                assert(fast_choice(base@, new@, w as nat, before, i));
            } else {
                assert(after.take(i) =~= before);
            }
        }
    }
    r
}

} // verus!
