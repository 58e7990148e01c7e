//! The instruction stream: COPY and ADD operations, their wire form, and the
//! decoder that replays them against a base.
//!
//! Opcode byte `t`:
//! - `0x00..=0x3F`: ADD of `t` literal bytes, which follow;
//! - `0x40`: ADD; a varint length and the literal bytes follow;
//! - `0x41..=0x7F`: COPY of `t - 0x41 + MIN_MATCH` bytes from the base at the
//!   offset equal to the current output length (nothing follows);
//! - `0x80..=0xFE`: COPY of `t - 0x80 + MIN_MATCH` bytes; a varint base
//!   offset follows;
//! - `0xFF`: COPY; a varint length and a varint base offset follow.
use crate::error::DecodeError;
use crate::varint::{
    lemma_varint_len_u64, lemma_varint_round_trip, read_varint, varint_at, varint_spec,
    write_varint, VarintError,
};
use vstd::prelude::*;

verus! {

/// Shortest copy that the opcodes with an inline length express.
pub const MIN_MATCH: usize = 4;

/// Largest inline literal length.
pub const LIT_SHORT_MAX: u8 = 0x3F;

/// ADD with a varint length.
pub const LIT_LONG: u8 = 0x40;

/// First opcode of the in-place COPY range.
pub const COPY_HERE_BASE: u8 = 0x41;

/// First opcode of the short COPY range.
pub const COPY_SHORT_BASE: u8 = 0x80;

/// COPY with a varint length and a varint offset.
pub const COPY_LONG: u8 = 0xFF;

/// An instruction as a mathematical value.
pub enum Op {
    Copy { offset: nat, length: nat },
    Add { literal: Seq<u8> },
}

/// One step of a delta: copy a range of the base, or emit literal bytes.
#[derive(Debug, PartialEq, Eq)]
pub enum Instruction {
    Copy { base_offset: u64, length: u64 },
    Add { literal: Vec<u8> },
}

impl View for Instruction {
    type V = Op;

    open spec fn view(&self) -> Op {
        match self {
            Instruction::Copy { base_offset, length } => Op::Copy {
                offset: *base_offset as nat,
                length: *length as nat,
            },
            Instruction::Add { literal } => Op::Add { literal: literal@ },
        }
    }
}

/// The mathematical instructions of a vector of them.
pub open spec fn ops_of(v: Seq<Instruction>) -> Seq<Op> {
    v.map_values(|i: Instruction| i@)
}

/// Number of bytes an instruction produces.
pub open spec fn op_len(op: Op) -> nat {
    match op {
        Op::Copy { offset, length } => length,
        Op::Add { literal } => literal.len(),
    }
}

/// A well-formed instruction against a base of `base_len` bytes: it is not
/// empty, and a copy stays inside the base.
pub open spec fn op_valid(op: Op, base_len: nat) -> bool {
    match op {
        Op::Copy { offset, length } => length >= 1 && offset + length <= base_len,
        Op::Add { literal } => literal.len() >= 1,
    }
}

pub open spec fn ops_valid(ops: Seq<Op>, base_len: nat) -> bool {
    forall|i: int| 0 <= i < ops.len() ==> #[trigger] op_valid(ops[i], base_len)
}

/// The instruction is an ADD.
pub open spec fn is_add(op: Op) -> bool {
    op is Add
}

/// A COPY is at least `MIN_MATCH` bytes long.
pub open spec fn copy_long_enough(op: Op) -> bool {
    match op {
        Op::Copy { offset, length } => length >= MIN_MATCH,
        Op::Add { literal } => true,
    }
}

/// The form encoders emit: no COPY shorter than `MIN_MATCH`, and no ADD
/// right after another ADD.
pub open spec fn canonical(ops: Seq<Op>) -> bool {
    &&& forall|i: int| 0 <= i < ops.len() ==> #[trigger] copy_long_enough(ops[i])
    &&& forall|i: int| 0 < i < ops.len() ==> !(#[trigger] is_add(ops[i]) && is_add(ops[i - 1]))
}

/// The bytes an instruction produces.
pub open spec fn op_output(base: Seq<u8>, op: Op) -> Seq<u8> {
    match op {
        Op::Copy { offset, length } => base.subrange(offset as int, (offset + length) as int),
        Op::Add { literal } => literal,
    }
}

/// The bytes a sequence of instructions produces, in order.
pub open spec fn apply_ops(base: Seq<u8>, ops: Seq<Op>) -> Seq<u8>
    decreases ops.len(),
{
    if ops.len() == 0 {
        Seq::empty()
    } else {
        op_output(base, ops[0]) + apply_ops(base, ops.drop_first())
    }
}

/// Total number of bytes a sequence of instructions produces.
pub open spec fn ops_len(ops: Seq<Op>) -> nat
    decreases ops.len(),
{
    if ops.len() == 0 {
        0
    } else {
        op_len(ops[0]) + ops_len(ops.drop_first())
    }
}

/// Wire form of one instruction, emitted when `pos` bytes have been produced.
pub open spec fn op_bytes(op: Op, pos: nat) -> Seq<u8> {
    match op {
        Op::Add { literal } => if literal.len() <= LIT_SHORT_MAX {
            seq![literal.len() as u8] + literal
        } else {
            seq![LIT_LONG] + varint_spec(literal.len()) + literal
        },
        Op::Copy { offset, length } => if MIN_MATCH <= length <= MIN_MATCH + 62 && offset == pos {
            seq![(COPY_HERE_BASE + (length - MIN_MATCH)) as u8]
        } else if MIN_MATCH <= length <= MIN_MATCH + 126 {
            seq![(COPY_SHORT_BASE + (length - MIN_MATCH)) as u8] + varint_spec(offset)
        } else {
            seq![COPY_LONG] + varint_spec(length) + varint_spec(offset)
        },
    }
}

/// Wire form of a sequence of instructions whose first is emitted at `pos`.
pub open spec fn stream_spec(ops: Seq<Op>, pos: nat) -> Seq<u8>
    decreases ops.len(),
{
    if ops.len() == 0 {
        Seq::empty()
    } else {
        op_bytes(ops[0], pos) + stream_spec(ops.drop_first(), pos + op_len(ops[0]))
    }
}

pub open spec fn varint_error(e: VarintError) -> DecodeError {
    match e {
        VarintError::Truncated => DecodeError::TruncatedBody,
        VarintError::Overflow => DecodeError::VarintOverflow,
    }
}

/// A literal of `n` bytes at `p`: the bytes and the position after them.
pub open spec fn literal_step(s: Seq<u8>, p: nat, n: nat, out_len: nat, declared: nat) -> Result<
    (Seq<u8>, nat),
    DecodeError,
> {
    if p + n > s.len() {
        Err(DecodeError::TruncatedBody)
    } else if out_len + n > declared {
        Err(DecodeError::LengthMismatch)
    } else {
        Ok((s.subrange(p as int, (p + n) as int), p + n))
    }
}

/// A copy of `length` bytes at `offset` of the base, whose operands end at `p`.
pub open spec fn copy_step(
    base: Seq<u8>,
    offset: nat,
    length: nat,
    p: nat,
    out_len: nat,
    declared: nat,
) -> Result<(Seq<u8>, nat), DecodeError> {
    if offset + length > base.len() {
        Err(DecodeError::CopyOutOfRange)
    } else if out_len + length > declared {
        Err(DecodeError::LengthMismatch)
    } else {
        Ok((base.subrange(offset as int, (offset + length) as int), p))
    }
}

/// Decoding the instruction whose opcode is at `i`, when `out_len` bytes
/// have been produced: its bytes and the position of the next opcode.
pub open spec fn decode_step(base: Seq<u8>, s: Seq<u8>, i: nat, out_len: nat, declared: nat) -> Result<
    (Seq<u8>, nat),
    DecodeError,
> {
    let t = s[i as int];
    if t <= LIT_SHORT_MAX {
        literal_step(s, i + 1, t as nat, out_len, declared)
    } else if t == LIT_LONG {
        match varint_at(s, i + 1) {
            Err(e) => Err(varint_error(e)),
            Ok((n, p)) => literal_step(s, p, n as nat, out_len, declared),
        }
    } else if t < COPY_SHORT_BASE {
        copy_step(base, out_len, (t - COPY_HERE_BASE + MIN_MATCH) as nat, i + 1, out_len, declared)
    } else if t < COPY_LONG {
        match varint_at(s, i + 1) {
            Err(e) => Err(varint_error(e)),
            Ok((off, p)) => copy_step(
                base,
                off as nat,
                (t - COPY_SHORT_BASE + MIN_MATCH) as nat,
                p,
                out_len,
                declared,
            ),
        }
    } else {
        match varint_at(s, i + 1) {
            Err(e) => Err(varint_error(e)),
            Ok((len, p)) => match varint_at(s, p) {
                Err(e) => Err(varint_error(e)),
                Ok((off, p2)) => copy_step(base, off as nat, len as nat, p2, out_len, declared),
            },
        }
    }
}

/// Decoding the stream `s` from position `i`, with `out` produced so far,
/// into an output that must be `declared` bytes long.
pub open spec fn run_stream(base: Seq<u8>, s: Seq<u8>, i: nat, out: Seq<u8>, declared: nat) -> Result<
    Seq<u8>,
    DecodeError,
>
    decreases s.len() - i,
{
    if i >= s.len() {
        if out.len() == declared {
            Ok(out)
        } else {
            Err(DecodeError::LengthMismatch)
        }
    } else {
        match decode_step(base, s, i, out.len(), declared) {
            Err(e) => Err(e),
            Ok((piece, j)) => if i < j && j <= s.len() {
                run_stream(base, s, j, out + piece, declared)
            } else {
                Err(DecodeError::TruncatedBody)
            },
        }
    }
}

/// What decoding a whole instruction stream gives.
pub open spec fn decode_stream_spec(base: Seq<u8>, s: Seq<u8>, declared: nat) -> Result<
    Seq<u8>,
    DecodeError,
> {
    run_stream(base, s, 0, Seq::empty(), declared)
}

pub proof fn lemma_op_output_len(base: Seq<u8>, op: Op)
    requires
        op_valid(op, base.len()),
    ensures
        op_output(base, op).len() == op_len(op),
{
}

/// The output of valid instructions is as long as they say.
pub proof fn lemma_apply_len(base: Seq<u8>, ops: Seq<Op>)
    requires
        ops_valid(ops, base.len()),
    ensures
        apply_ops(base, ops).len() == ops_len(ops),
    decreases ops.len(),
{
    if ops.len() > 0 {
        assert(op_valid(ops[0], base.len()));
        assert(ops_valid(ops.drop_first(), base.len())) by {
            assert forall|i: int| 0 <= i < ops.drop_first().len() implies #[trigger] op_valid(
                ops.drop_first()[i],
                base.len(),
            ) by {
                assert(op_valid(ops[i + 1], base.len()));
            }
        }
        lemma_apply_len(base, ops.drop_first());
    }
}

/// Appending an instruction appends its output.
pub proof fn lemma_apply_push(base: Seq<u8>, ops: Seq<Op>, op: Op)
    ensures
        apply_ops(base, ops.push(op)) == apply_ops(base, ops) + op_output(base, op),
        ops_len(ops.push(op)) == ops_len(ops) + op_len(op),
    decreases ops.len(),
{
    if ops.len() == 0 {
        assert(ops.push(op).drop_first() =~= Seq::<Op>::empty());
        assert(ops.push(op)[0] == op);
        assert(apply_ops(base, Seq::<Op>::empty()) == Seq::<u8>::empty());
        assert(ops_len(Seq::<Op>::empty()) == 0);
        assert(apply_ops(base, ops.push(op)) =~= op_output(base, op));
    } else {
        assert(ops.push(op).drop_first() =~= ops.drop_first().push(op));
        assert(ops.push(op)[0] == ops[0]);
        lemma_apply_push(base, ops.drop_first(), op);
        assert(apply_ops(base, ops.push(op)) =~= apply_ops(base, ops) + op_output(base, op));
    }
}

/// Decoding the wire form of a valid ADD gives its literal.
proof fn lemma_decode_add(
    base: Seq<u8>,
    literal: Seq<u8>,
    pre: Seq<u8>,
    rest: Seq<u8>,
    out_len: nat,
    declared: nat,
)
    requires
        literal.len() >= 1,
        out_len + literal.len() <= declared,
        declared <= u64::MAX,
    ensures
        decode_step(base, pre + op_bytes(Op::Add { literal }, out_len) + rest, pre.len(), out_len, declared)
            == Ok::<(Seq<u8>, nat), DecodeError>(
            (literal, pre.len() + op_bytes(Op::Add { literal }, out_len).len()),
        ),
{
    let b = op_bytes(Op::Add { literal }, out_len);
    let s = pre + b + rest;
    let i = pre.len();
    let n = literal.len();
    assert(s[i as int] == b[0]);
    if n <= LIT_SHORT_MAX {
        assert(s.subrange((i + 1) as int, (i + 1 + n) as int) =~= literal);
    } else {
        let pre2 = pre + seq![LIT_LONG];
        let e = varint_spec(n);
        assert(s =~= pre2 + varint_spec((n as u64) as nat) + (literal + rest));
        lemma_varint_round_trip(pre2, n as u64, literal + rest);
        let p = i + 1 + e.len();
        assert(s.subrange(p as int, (p + n) as int) =~= literal);
    }
}

/// Decoding the wire form of a valid COPY gives the base range it names.
proof fn lemma_decode_copy(
    base: Seq<u8>,
    offset: nat,
    length: nat,
    pre: Seq<u8>,
    rest: Seq<u8>,
    out_len: nat,
    declared: nat,
)
    requires
        length >= 1,
        offset + length <= base.len(),
        out_len + length <= declared,
        declared <= u64::MAX,
        base.len() <= u64::MAX,
    ensures
        decode_step(
            base,
            pre + op_bytes(Op::Copy { offset, length }, out_len) + rest,
            pre.len(),
            out_len,
            declared,
        ) == Ok::<(Seq<u8>, nat), DecodeError>(
            (
                base.subrange(offset as int, (offset + length) as int),
                pre.len() + op_bytes(Op::Copy { offset, length }, out_len).len(),
            ),
        ),
{
    let b = op_bytes(Op::Copy { offset, length }, out_len);
    let s = pre + b + rest;
    let i = pre.len();
    assert(s[i as int] == b[0]);
    if MIN_MATCH <= length <= MIN_MATCH + 62 && offset == out_len {
    } else if MIN_MATCH <= length <= MIN_MATCH + 126 {
        let pre2 = pre + seq![b[0]];
        assert(s =~= pre2 + varint_spec((offset as u64) as nat) + rest);
        lemma_varint_round_trip(pre2, offset as u64, rest);
    } else {
        let pre2 = pre + seq![COPY_LONG];
        let el = varint_spec(length);
        let eo = varint_spec(offset);
        assert(s =~= pre2 + varint_spec((length as u64) as nat) + (eo + rest));
        lemma_varint_round_trip(pre2, length as u64, eo + rest);
        let pre3 = pre2 + el;
        assert(s =~= pre3 + varint_spec((offset as u64) as nat) + rest);
        lemma_varint_round_trip(pre3, offset as u64, rest);
    }
}

/// Decoding the wire form of valid instructions gives their output.
#[verifier::rlimit(40)]
pub proof fn lemma_stream_round_trip(
    base: Seq<u8>,
    ops: Seq<Op>,
    pre: Seq<u8>,
    out: Seq<u8>,
    declared: nat,
)
    requires
        ops_valid(ops, base.len()),
        out.len() + ops_len(ops) == declared,
        declared <= u64::MAX,
        base.len() <= u64::MAX,
    ensures
        run_stream(base, pre + stream_spec(ops, out.len()), pre.len(), out, declared) == Ok::<
            Seq<u8>,
            DecodeError,
        >(out + apply_ops(base, ops)),
    decreases ops.len(),
{
    let s = pre + stream_spec(ops, out.len());
    if ops.len() == 0 {
        assert(s =~= pre);
        assert(out + apply_ops(base, ops) =~= out);
    } else {
        let op = ops[0];
        let tail = ops.drop_first();
        assert(op_valid(op, base.len()));
        assert(ops_valid(tail, base.len())) by {
            assert forall|i: int| 0 <= i < tail.len() implies #[trigger] op_valid(
                tail[i],
                base.len(),
            ) by {
                assert(op_valid(ops[i + 1], base.len()));
            }
        }
        let b = op_bytes(op, out.len());
        let rest = stream_spec(tail, out.len() + op_len(op));
        assert(s =~= pre + b + rest);
        match op {
            Op::Add { literal } => lemma_decode_add(base, literal, pre, rest, out.len(), declared),
            Op::Copy { offset, length } => lemma_decode_copy(
                base,
                offset,
                length,
                pre,
                rest,
                out.len(),
                declared,
            ),
        }
        lemma_varint_len_u64(0);
        assert(b.len() >= 1);
        let out2 = out + op_output(base, op);
        lemma_op_output_len(base, op);
        let pre2 = pre + b;
        assert(s =~= pre2 + stream_spec(tail, out2.len()));
        lemma_stream_round_trip(base, tail, pre2, out2, declared);
        assert(out2 + apply_ops(base, tail) =~= out + apply_ops(base, ops));
    }
}

/// A stream that decodes at all decodes to the declared length, and the
/// bytes produced so far stay its prefix.
pub proof fn lemma_run_stream_len(base: Seq<u8>, s: Seq<u8>, i: nat, out: Seq<u8>, declared: nat)
    ensures
        run_stream(base, s, i, out, declared) matches Ok(x) ==> x.len() == declared
            && x.subrange(0, out.len() as int) == out,
    decreases s.len() - i,
{
    if i < s.len() {
        if let Ok((piece, j)) = decode_step(base, s, i, out.len(), declared) {
            if i < j && j <= s.len() {
                lemma_run_stream_len(base, s, j, out + piece, declared);
                if let Ok(x) = run_stream(base, s, i, out, declared) {
                    assert(x.subrange(0, out.len() as int) =~= (x.subrange(
                        0,
                        (out + piece).len() as int,
                    )).subrange(0, out.len() as int));
                    assert((out + piece).subrange(0, out.len() as int) =~= out);
                }
            }
        }
    } else {
        assert(out.subrange(0, out.len() as int) =~= out);
    }
}

/// Appends `src[start..start + len]` to `out`.
pub fn push_range(out: &mut Vec<u8>, src: &[u8], start: usize, len: usize)
    requires
        start + len <= src@.len(),
    ensures
        final(out)@ == old(out)@ + src@.subrange(start as int, start + len),
{
    let ghost first = out@;
    let n = src.len();
    let mut k: usize = 0;
    while k < len
        invariant
            n == src@.len(),
            k <= len,
            start + len <= src@.len(),
            out@ == first + src@.subrange(start as int, start + k),
        decreases len - k,
    {
        out.push(src[start + k]);
        k = k + 1;
        assert(out@ =~= first + src@.subrange(start as int, start + k));
    }
}

/// Appends the wire form of `ins`, emitted when `pos` bytes have been
/// produced, to `out`.
pub fn write_instruction(out: &mut Vec<u8>, ins: &Instruction, pos: u64)
    ensures
        final(out)@ == old(out)@ + op_bytes(ins@, pos as nat),
{
    let ghost first = out@;
    match ins {
        Instruction::Add { literal } => {
            let n = literal.len();
            if n <= LIT_SHORT_MAX as usize {
                out.push(n as u8);
            } else {
                out.push(LIT_LONG);
                write_varint(out, n as u64);
            }
            push_range(out, literal.as_slice(), 0, n);
            assert(literal@.subrange(0, n as int) =~= literal@);
            assert(out@ =~= first + op_bytes(ins@, pos as nat));
        },
        Instruction::Copy { base_offset, length } => {
            let off = *base_offset;
            let len = *length;
            if len >= MIN_MATCH as u64 && len - MIN_MATCH as u64 <= 62 && off == pos {
                out.push((COPY_HERE_BASE as u64 + (len - MIN_MATCH as u64)) as u8);
            } else if len >= MIN_MATCH as u64 && len - MIN_MATCH as u64 <= 126 {
                out.push((COPY_SHORT_BASE as u64 + (len - MIN_MATCH as u64)) as u8);
                write_varint(out, off);
            } else {
                out.push(COPY_LONG);
                write_varint(out, len);
                write_varint(out, off);
            }
            assert(out@ =~= first + op_bytes(ins@, pos as nat));
        },
    }
}

/// Appends the wire form of `ins`, emitted from output position 0, to `out`.
pub fn write_stream(out: &mut Vec<u8>, ins: &Vec<Instruction>)
    requires
        ops_len(ops_of(ins@)) <= u64::MAX,
    ensures
        final(out)@ == old(out)@ + stream_spec(ops_of(ins@), 0),
{
    let ghost first = out@;
    let ghost all = ops_of(ins@);
    let mut k: usize = 0;
    let mut pos: u64 = 0;
    assert(all.subrange(0, all.len() as int) =~= all);
    assert(out@ =~= first);
    while k < ins.len()
        invariant
            k <= ins@.len(),
            all == ops_of(ins@),
            ops_len(all) <= u64::MAX,
            pos + ops_len(all.subrange(k as int, all.len() as int)) == ops_len(all),
            out@ + stream_spec(all.subrange(k as int, all.len() as int), pos as nat) == first
                + stream_spec(all, 0),
        decreases ins@.len() - k,
    {
        let ghost tail = all.subrange(k as int, all.len() as int);
        assert(tail[0] == ins@[k as int]@);
        assert(tail.drop_first() =~= all.subrange(k + 1, all.len() as int));
        write_instruction(out, &ins[k], pos);
        assert(out@ + stream_spec(tail.drop_first(), (pos + op_len(tail[0])) as nat) =~= first
            + stream_spec(all, 0));
        pos = pos + ins_len(&ins[k]);
        k = k + 1;
    }
    assert(all.subrange(k as int, all.len() as int) =~= Seq::<Op>::empty());
    assert(out@ =~= first + stream_spec(all, 0));
}

/// Number of bytes `ins` produces.
pub fn ins_len(ins: &Instruction) -> (r: u64)
    requires
        op_len(ins@) <= u64::MAX,
    ensures
        r == op_len(ins@),
{
    match ins {
        Instruction::Copy { base_offset, length } => *length,
        Instruction::Add { literal } => literal.len() as u64,
    }
}

/// Decodes the instruction whose opcode is at `i`, appending its bytes to
/// `out`; returns the position of the next opcode.
pub fn decode_instruction(base: &[u8], s: &[u8], i: usize, out: &mut Vec<u8>, declared: u64) -> (r:
    Result<usize, DecodeError>)
    requires
        i < s@.len(),
        old(out)@.len() <= declared,
    ensures
        match decode_step(base@, s@, i as nat, old(out)@.len(), declared as nat) {
            Ok((piece, j)) => r == Ok::<usize, DecodeError>(j as usize) && final(out)@ == old(out)@
                + piece && i < j <= s@.len(),
            Err(e) => r == Err::<usize, DecodeError>(e),
        },
{
    let t = s[i];
    let room: u64 = declared - out.len() as u64;
    if t <= LIT_SHORT_MAX {
        literal_into(s, i + 1, t as u64, out, room)
    } else if t == LIT_LONG {
        match read_varint(s, i + 1) {
            Err(e) => Err(varint_err(e)),
            Ok((n, p)) => literal_into(s, p, n, out, room),
        }
    } else if t < COPY_SHORT_BASE {
        let here = out.len() as u64;
        copy_into(base, here, (t - COPY_HERE_BASE) as u64 + MIN_MATCH as u64, i + 1, out, room)
    } else if t < COPY_LONG {
        match read_varint(s, i + 1) {
            Err(e) => Err(varint_err(e)),
            Ok((off, p)) => copy_into(
                base,
                off,
                (t - COPY_SHORT_BASE) as u64 + MIN_MATCH as u64,
                p,
                out,
                room,
            ),
        }
    } else {
        match read_varint(s, i + 1) {
            Err(e) => Err(varint_err(e)),
            Ok((len, p)) => {
                match read_varint(s, p) {
                    Err(e) => Err(varint_err(e)),
                    Ok((off, p2)) => copy_into(base, off, len, p2, out, room),
                }
            },
        }
    }
}

fn varint_err(e: VarintError) -> (r: DecodeError)
    ensures
        r == varint_error(e),
{
    match e {
        VarintError::Truncated => DecodeError::TruncatedBody,
        VarintError::Overflow => DecodeError::VarintOverflow,
    }
}

/// Appends the literal of `n` bytes at `p` of `s`, if it is there and fits
/// in `room` more bytes of output.
fn literal_into(s: &[u8], p: usize, n: u64, out: &mut Vec<u8>, room: u64) -> (r: Result<
    usize,
    DecodeError,
>)
    requires
        p <= s@.len(),
        old(out)@.len() + room <= u64::MAX,
    ensures
        match literal_step(s@, p as nat, n as nat, old(out)@.len(), (old(out)@.len() + room) as nat) {
            Ok((piece, j)) => r == Ok::<usize, DecodeError>(j as usize) && final(out)@ == old(out)@
                + piece && j <= s@.len(),
            Err(e) => r == Err::<usize, DecodeError>(e),
        },
{
    if n > (s.len() - p) as u64 {
        return Err(DecodeError::TruncatedBody);
    }
    if n > room {
        return Err(DecodeError::LengthMismatch);
    }
    push_range(out, s, p, n as usize);
    Ok(p + n as usize)
}

/// Appends `len` bytes of the base from `off`, if they are there and fit in
/// `room` more bytes of output; `p` is handed back as the next position.
fn copy_into(base: &[u8], off: u64, len: u64, p: usize, out: &mut Vec<u8>, room: u64) -> (r: Result<
    usize,
    DecodeError,
>)
    requires
        old(out)@.len() + room <= u64::MAX,
    ensures
        match copy_step(
            base@,
            off as nat,
            len as nat,
            p as nat,
            old(out)@.len(),
            (old(out)@.len() + room) as nat,
        ) {
            Ok((piece, j)) => r == Ok::<usize, DecodeError>(j as usize) && final(out)@ == old(out)@
                + piece,
            Err(e) => r == Err::<usize, DecodeError>(e),
        },
{
    let blen = base.len() as u64;
    if off > blen || len > blen - off {
        return Err(DecodeError::CopyOutOfRange);
    }
    if len > room {
        return Err(DecodeError::LengthMismatch);
    }
    push_range(out, base, off as usize, len as usize);
    Ok(p)
}

/// Decodes the instruction stream `s` against `base` into an output that
/// must be `declared` bytes long.
pub fn decode_stream(base: &[u8], s: &[u8], declared: u64) -> (r: Result<Vec<u8>, DecodeError>)
    ensures
        match decode_stream_spec(base@, s@, declared as nat) {
            Ok(v) => r matches Ok(o) && o@ == v,
            Err(e) => r == Err::<Vec<u8>, DecodeError>(e),
        },
{
    let mut out: Vec<u8> = Vec::new();
    let mut i: usize = 0;
    while i < s.len()
        invariant
            i <= s@.len(),
            out@.len() <= declared,
            decode_stream_spec(base@, s@, declared as nat) == run_stream(
                base@,
                s@,
                i as nat,
                out@,
                declared as nat,
            ),
        decreases s@.len() - i,
    {
        let ghost before = out@;
        match decode_instruction(base, s, i, &mut out, declared) {
            Err(e) => {
                return Err(e);
            },
            Ok(j) => {
                i = j;
            },
        }
        proof {
            assert(out@.len() <= declared) by {
                match decode_step(base@, s@, i as nat, before.len(), declared as nat) {
                    _ => {},
                }
            }
        }
    }
    if out.len() as u64 != declared {
        return Err(DecodeError::LengthMismatch);
    }
    Ok(out)
}

} // verus!
