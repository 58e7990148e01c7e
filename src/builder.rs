//! Collects the instructions a matcher finds while it walks the new bytes:
//! runs of unmatched bytes become one ADD each, matches become COPYs.
use crate::instr::{
    apply_ops, canonical, copy_long_enough, is_add, lemma_apply_len, lemma_apply_push, op_valid,
    ops_len, ops_of, ops_valid, Instruction, Op, MIN_MATCH,
};
use vstd::prelude::*;

verus! {

/// What a matcher hands back: valid instructions in canonical form that
/// produce `new`, none when `new` is empty, and a single ADD when the base
/// is empty.
pub open spec fn matcher_output(ops: Seq<Op>, base: Seq<u8>, new: Seq<u8>) -> bool {
    &&& ops_valid(ops, base.len())
    &&& canonical(ops)
    &&& apply_ops(base, ops) == new
    &&& new.len() == 0 ==> ops.len() == 0
    &&& base.len() == 0 && new.len() > 0 ==> ops == seq![Op::Add { literal: new }]
}

/// Instructions that produce `new[..lit_start]`; bytes from `lit_start` on
/// are the pending literal run.
pub struct OpBuilder {
    pub ops: Vec<Instruction>,
    pub lit_start: usize,
}

impl OpBuilder {
    /// The instructions are valid against `base`, in canonical form, and
    /// produce exactly the bytes of `new` before the pending run.
    pub open spec fn committed(&self, base: Seq<u8>, new: Seq<u8>) -> bool {
        &&& self.lit_start <= new.len()
        &&& ops_valid(ops_of(self.ops@), base.len())
        &&& canonical(ops_of(self.ops@))
        &&& apply_ops(base, ops_of(self.ops@)) == new.subrange(0, self.lit_start as int)
    }

    /// Committed, and the last instruction, if any, is a COPY, so that the
    /// pending run may follow it as an ADD.
    pub open spec fn wf(&self, base: Seq<u8>, new: Seq<u8>) -> bool {
        &&& self.committed(base, new)
        &&& self.ops@.len() > 0 ==> !is_add(ops_of(self.ops@).last())
    }

    /// No instructions yet, for any base and new bytes.
    pub fn new(base: &[u8], new: &[u8]) -> (r: Self)
        ensures
            r.lit_start == 0,
            r.ops@.len() == 0,
            r.wf(base@, new@),
    {
        let r = OpBuilder { ops: Vec::new(), lit_start: 0 };
        assert(ops_of(r.ops@) =~= Seq::<Op>::empty());
        assert(new@.subrange(0, 0) =~= Seq::<u8>::empty());
        r
    }

    proof fn lemma_push(&self, ins: Instruction)
        ensures
            ops_of(self.ops@.push(ins)) == ops_of(self.ops@).push(ins@),
    {
        assert(ops_of(self.ops@.push(ins)) =~= ops_of(self.ops@).push(ins@));
    }

    /// Ends the pending run at `end`, emitting it as one ADD if it is not
    /// empty.
    fn flush(&mut self, base: &[u8], new: &[u8], end: usize)
        requires
            old(self).wf(base@, new@),
            old(self).lit_start <= end <= new@.len(),
        ensures
            final(self).committed(base@, new@),
            final(self).lit_start == end,
            end == old(self).lit_start ==> final(self).ops@ == old(self).ops@,
            end > old(self).lit_start ==> ops_of(final(self).ops@) == ops_of(old(self).ops@).push(
                Op::Add { literal: new@.subrange(old(self).lit_start as int, end as int) },
            ),
    {
        if end > self.lit_start {
            let mut lit: Vec<u8> = Vec::new();
            crate::instr::push_range(&mut lit, new, self.lit_start, end - self.lit_start);
            let ins = Instruction::Add { literal: lit };
            proof {
                self.lemma_push(ins);
                lemma_apply_push(base@, ops_of(self.ops@), ins@);
                assert(new@.subrange(0, self.lit_start as int) + new@.subrange(
                    self.lit_start as int,
                    end as int,
                ) =~= new@.subrange(0, end as int));
                assert(lit@ =~= new@.subrange(self.lit_start as int, end as int));
                let v = ops_of(self.ops@).push(ins@);
                assert forall|i: int| 0 <= i < v.len() implies #[trigger] copy_long_enough(v[i]) by {
                    if i < v.len() - 1 {
                        assert(v[i] == ops_of(self.ops@)[i]);
                    }
                }
                assert forall|i: int| 0 < i < v.len() implies !(#[trigger] is_add(v[i]) && is_add(
                    v[i - 1],
                )) by {
                    if i < v.len() - 1 {
                        assert(v[i] == ops_of(self.ops@)[i]);
                        assert(v[i - 1] == ops_of(self.ops@)[i - 1]);
                    } else {
                        assert(v[i - 1] == ops_of(self.ops@)[i - 1]);
                    }
                }
            }
            self.ops.push(ins);
            self.lit_start = end;
        }
    }

    /// Emits the pending run and hands back all the instructions.
    pub fn finish(self, base: &[u8], new: &[u8]) -> (r: Vec<Instruction>)
        requires
            self.wf(base@, new@),
            self.ops@.len() == 0 ==> self.lit_start == 0,
            base@.len() == 0 ==> self.ops@.len() == 0,
        ensures
            matcher_output(ops_of(r@), base@, new@),
            self.lit_start == new@.len() ==> ops_of(r@) == ops_of(self.ops@),
            self.lit_start < new@.len() ==> ops_of(r@) == ops_of(self.ops@).push(
                Op::Add { literal: new@.subrange(self.lit_start as int, new@.len() as int) },
            ),
    {
        let mut b = self;
        let n = new.len();
        b.flush(base, new, n);
        proof {
            assert(new@.subrange(0, n as int) =~= new@);
            let ops = ops_of(b.ops@);
            if n == 0 && ops.len() > 0 {
                lemma_apply_len(base@, ops);
                assert(op_valid(ops[0], base@.len()));
                assert(ops_len(ops) >= 1);
            }
            if base@.len() == 0 && n > 0 {
                assert(ops =~= seq![Op::Add { literal: new@ }]);
            }
        }
        b.ops
    }

    /// Ends the pending run at `at` and emits a COPY of `len` bytes of the
    /// base from `off`, which equal `new[at..at + len]`.
    pub fn push_copy(&mut self, base: &[u8], new: &[u8], at: usize, off: usize, len: usize)
        requires
            old(self).wf(base@, new@),
            old(self).lit_start <= at,
            at + len <= new@.len(),
            off + len <= base@.len(),
            len >= MIN_MATCH,
            base@.subrange(off as int, off + len) == new@.subrange(at as int, at + len),
        ensures
            final(self).wf(base@, new@),
            final(self).lit_start == at + len,
            final(self).ops@.len() > 0,
            ops_of(final(self).ops@).last() == (Op::Copy { offset: off as nat, length: len as nat }),
            ops_len(ops_of(final(self).ops@).drop_last()) == at,
            at == old(self).lit_start ==> ops_of(final(self).ops@).drop_last() == ops_of(
                old(self).ops@,
            ),
            at > old(self).lit_start ==> ops_of(final(self).ops@).drop_last() == ops_of(
                old(self).ops@,
            ).push(Op::Add { literal: new@.subrange(old(self).lit_start as int, at as int) }),
    {
        let n = new.len();
        assert(at + len <= n);
        self.flush(base, new, at);
        let ins = Instruction::Copy { base_offset: off as u64, length: len as u64 };
        proof {
            self.lemma_push(ins);
            lemma_apply_push(base@, ops_of(self.ops@), ins@);
            assert(new@.subrange(0, at as int) + new@.subrange(at as int, at + len) =~= new@.subrange(
                0,
                at + len,
            ));
            let v = ops_of(self.ops@).push(ins@);
            assert forall|i: int| 0 <= i < v.len() implies #[trigger] op_valid(v[i], base@.len())
                && copy_long_enough(v[i]) by {
                if i < v.len() - 1 {
                    assert(v[i] == ops_of(self.ops@)[i]);
                }
            }
            assert forall|i: int| 0 < i < v.len() implies !(#[trigger] is_add(v[i]) && is_add(
                v[i - 1],
            )) by {
                if i < v.len() - 1 {
                    assert(v[i] == ops_of(self.ops@)[i]);
                }
            }
        }
        proof {
            lemma_apply_len(base@, ops_of(self.ops@));
            assert(ops_of(self.ops@).push(ins@).drop_last() =~= ops_of(self.ops@));
        }
        self.ops.push(ins);
        self.lit_start = at + len;
    }
}

/// Length of the longest common prefix of `a[ai..]` and `b[bi..]`.
pub fn common_forward(a: &[u8], ai: usize, b: &[u8], bi: usize) -> (len: usize)
    requires
        ai <= a@.len(),
        bi <= b@.len(),
    ensures
        ai + len <= a@.len(),
        bi + len <= b@.len(),
        a@.subrange(ai as int, ai + len) == b@.subrange(bi as int, bi + len),
        ai + len == a@.len() || bi + len == b@.len() || a@[ai + len] != b@[bi + len],
{
    let na = a.len();
    let nb = b.len();
    let mut len: usize = 0;
    while ai + len < na && bi + len < nb && a[ai + len] == b[bi + len]
        invariant
            na == a@.len(),
            nb == b@.len(),
            ai + len <= na,
            bi + len <= nb,
            a@.subrange(ai as int, ai + len) == b@.subrange(bi as int, bi + len),
        decreases na - ai - len,
    {
        assert(a@.subrange(ai as int, ai + len + 1) =~= a@.subrange(ai as int, ai + len).push(
            a@[ai + len],
        ));
        assert(b@.subrange(bi as int, bi + len + 1) =~= b@.subrange(bi as int, bi + len).push(
            b@[bi + len],
        ));
        len = len + 1;
    }
    len
}

/// Length, at most `limit`, of the longest common suffix of `a[..ai]` and
/// `b[..bi]`.
pub open spec fn back_len(a: Seq<u8>, ai: int, b: Seq<u8>, bi: int, limit: int) -> nat
    decreases limit,
{
    if limit <= 0 || ai <= 0 || bi <= 0 || ai > a.len() || bi > b.len() || a[ai - 1] != b[bi
        - 1] {
        0
    } else {
        1 + back_len(a, ai - 1, b, bi - 1, limit - 1)
    }
}

/// Computes `back_len(a, ai, b, bi, limit)`.
pub fn common_backward(a: &[u8], ai: usize, b: &[u8], bi: usize, limit: usize) -> (back: usize)
    requires
        ai <= a@.len(),
        bi <= b@.len(),
    ensures
        back <= limit,
        back <= ai,
        back <= bi,
        a@.subrange(ai - back, ai as int) == b@.subrange(bi - back, bi as int),
        back == back_len(a@, ai as int, b@, bi as int, limit as int),
{
    let mut back: usize = 0;
    while back < limit && back < ai && back < bi && a[ai - back - 1] == b[bi - back - 1]
        invariant
            ai <= a@.len(),
            bi <= b@.len(),
            back <= limit,
            back <= ai,
            back <= bi,
            a@.subrange(ai - back, ai as int) == b@.subrange(bi - back, bi as int),
            back_len(a@, ai as int, b@, bi as int, limit as int) == back + back_len(
                a@,
                ai - back,
                b@,
                bi - back,
                limit - back,
            ),
        decreases ai - back,
    {
        assert(a@.subrange(ai - back - 1, ai as int) =~= seq![a@[ai - back - 1]] + a@.subrange(
            ai - back,
            ai as int,
        ));
        assert(b@.subrange(bi - back - 1, bi as int) =~= seq![b@[bi - back - 1]] + b@.subrange(
            bi - back,
            bi as int,
        ));
        back = back + 1;
    }
    back
}

} // verus!
