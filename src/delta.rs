//! The delta container and the public operations `encode`, `decode` and
//! `get_tag`.
//!
//! Layout:
//! - byte 0: `MAGIC`;
//! - byte 1: algorithm id in the high four bits (fast 0, strong 1,
//!   identity 2), tag slot in the low four (a tag below 15 itself, else 15);
//! - byte 2: bit 0 set when the body is post-compressed, bit 1 reserved
//!   (zero), bits 2..7 the format's minor version;
//! - the tag as a varint, when the slot holds 15;
//! - the length of the new bytes as a varint;
//! - the body: the instruction stream, possibly post-compressed; empty for
//!   the identity algorithm, whose output is the base itself.
use crate::builder::matcher_output;
use crate::envelope::{postcompress, unwrap_body, unwrap_spec, zstd_compressed};
use crate::error::DecodeError;
use crate::fast::{fast_choice, fast_ops, fast_ops_spec, LARGE_BLOCK, SMALL_BLOCK};
use crate::instr::{
    decode_stream, decode_stream_spec, lemma_apply_len, lemma_run_stream_len,
    lemma_stream_round_trip, ops_of,
    push_range, stream_spec, write_stream, Op,
};
use crate::suffix::{greedy_choice, strong_ops};
use crate::varint::{
    lemma_varint_len_u64, lemma_varint_round_trip, read_varint, varint_at, varint_spec,
    write_varint, VarintError,
};
use vstd::prelude::*;

verus! {

/// First byte of every delta ('X').
pub const MAGIC: u8 = 0x58;

/// Minor version of the format, written in bits 2..7 of byte 2.
pub const FORMAT_MINOR: u8 = 1;

/// Tag slot value that announces a varint tag.
pub const TAG_EXTENDED: u8 = 15;

/// Inputs no longer than this use the fast matcher with short blocks.
pub const SMALL_THRESHOLD: usize = 4096;

/// Bases at least this long use the fast matcher, to bound memory.
pub const LARGE_THRESHOLD: usize = 8388608;

/// Which matcher produced a delta.
#[derive(Debug, Clone, Copy, PartialEq, Eq, Structural)]
pub enum Algorithm {
    Fast,
    Strong,
    Identity,
}

/// The four-bit id of an algorithm.
pub open spec fn algorithm_id(a: Algorithm) -> u8 {
    match a {
        Algorithm::Fast => 0,
        Algorithm::Strong => 1,
        Algorithm::Identity => 2,
    }
}

/// The algorithm of a four-bit id.
pub open spec fn algorithm_of(id: u8) -> Option<Algorithm> {
    if id == 0 {
        Some(Algorithm::Fast)
    } else if id == 1 {
        Some(Algorithm::Strong)
    } else if id == 2 {
        Some(Algorithm::Identity)
    } else {
        None
    }
}

/// What the header of a delta says.
#[derive(Debug, Clone, Copy, PartialEq, Eq, Structural)]
pub struct Header {
    pub algorithm: Algorithm,
    pub tag: usize,
    pub postcompressed: bool,
    /// Length of the bytes the delta decodes to.
    pub new_len: u64,
    /// Where the body starts.
    pub body_start: usize,
}

/// The leading header bytes that say the algorithm, the tag and the
/// post-compression flag: three bytes, then the tag's varint when the tag
/// does not fit in the slot.
pub open spec fn tag_fields_spec(algorithm: Algorithm, tag: nat, postcompressed: bool) -> Seq<u8> {
    let slot: nat = if tag < TAG_EXTENDED {
        tag
    } else {
        TAG_EXTENDED as nat
    };
    seq![
        MAGIC,
        (algorithm_id(algorithm) * 16 + slot) as u8,
        (FORMAT_MINOR * 4 + if postcompressed {
            1nat
        } else {
            0nat
        }) as u8,
    ] + (if tag < TAG_EXTENDED {
        Seq::empty()
    } else {
        varint_spec(tag)
    })
}

/// Bytes the tag takes beyond the three fixed header bytes.
pub open spec fn extended_tag_len(tag: nat) -> nat {
    if tag < TAG_EXTENDED {
        0
    } else {
        varint_spec(tag).len()
    }
}

/// The header bytes for the given fields: the tag fields, then the length
/// of the new bytes as a varint.
pub open spec fn header_spec(algorithm: Algorithm, tag: nat, postcompressed: bool, new_len: nat) -> Seq<
    u8,
> {
    tag_fields_spec(algorithm, tag, postcompressed) + varint_spec(new_len)
}

/// A varint of the header: a truncated one makes the header malformed.
pub open spec fn header_varint(d: Seq<u8>, p: nat) -> Result<(u64, nat), DecodeError> {
    match varint_at(d, p) {
        Ok(x) => Ok(x),
        Err(VarintError::Truncated) => Err(DecodeError::MalformedHeader),
        Err(VarintError::Overflow) => Err(DecodeError::VarintOverflow),
    }
}

/// Reading the tag fields at the start of `d`: the tag and the position
/// just past them. Nothing after them is read.
pub open spec fn parse_tag(d: Seq<u8>) -> Result<(usize, nat), DecodeError> {
    if d.len() < 3 || d[0] != MAGIC {
        Err(DecodeError::MalformedHeader)
    } else if algorithm_of(d[1] / 16) is None {
        Err(DecodeError::MalformedHeader)
    } else if (d[2] / 2) % 2 != 0 {
        Err(DecodeError::MalformedHeader)
    } else if d[1] % 16 < TAG_EXTENDED {
        Ok(((d[1] % 16) as usize, 3))
    } else {
        match header_varint(d, 3) {
            Err(e) => Err(e),
            Ok((tag, p)) => if tag > usize::MAX {
                Err(DecodeError::VarintOverflow)
            } else {
                Ok((tag as usize, p))
            },
        }
    }
}

/// Reading the header at the start of `d`: the tag fields, then the length.
pub open spec fn parse_header(d: Seq<u8>) -> Result<Header, DecodeError> {
    match parse_tag(d) {
        Err(e) => Err(e),
        Ok((tag, p)) => match header_varint(d, p) {
            Err(e) => Err(e),
            Ok((n, q)) => Ok(
                Header {
                    algorithm: algorithm_of(d[1] / 16).unwrap(),
                    tag,
                    postcompressed: d[2] % 2 == 1,
                    new_len: n,
                    body_start: q as usize,
                },
            ),
        },
    }
}

/// The body of `d` under header `h`.
pub open spec fn body_of(d: Seq<u8>, h: Header) -> Seq<u8> {
    d.subrange(h.body_start as int, d.len() as int)
}

/// What decoding `d` against `base` gives.
pub open spec fn decode_spec(base: Seq<u8>, d: Seq<u8>) -> Result<Seq<u8>, DecodeError> {
    match parse_header(d) {
        Err(e) => Err(e),
        Ok(h) => if h.algorithm == Algorithm::Identity {
            if body_of(d, h).len() > 0 {
                Err(DecodeError::MalformedHeader)
            } else if base.len() != h.new_len {
                Err(DecodeError::LengthMismatch)
            } else {
                Ok(base)
            }
        } else {
            match unwrap_spec(body_of(d, h), h.postcompressed) {
                Err(e) => Err(e),
                Ok(raw) => decode_stream_spec(base, raw, h.new_len as nat),
            }
        },
    }
}

/// Block size of the fast matcher for inputs of these lengths.
pub open spec fn fast_block(base_len: nat, new_len: nat) -> nat {
    if base_len <= SMALL_THRESHOLD && new_len <= SMALL_THRESHOLD {
        SMALL_BLOCK as nat
    } else {
        LARGE_BLOCK as nat
    }
}

/// The matcher for inputs of these lengths that differ; `similar` is the
/// outcome of the similarity probe.
pub open spec fn select_spec(base_len: nat, new_len: nat, similar: bool) -> Algorithm {
    if base_len <= SMALL_THRESHOLD && new_len <= SMALL_THRESHOLD {
        Algorithm::Fast
    } else if base_len >= LARGE_THRESHOLD {
        Algorithm::Fast
    } else if similar {
        Algorithm::Fast
    } else {
        Algorithm::Strong
    }
}

/// Chooses the matcher: the fast one for small inputs, for very large bases
/// and for inputs that the probe found nearly identical in place; the strong
/// one otherwise.
pub fn select_algorithm(base_len: usize, new_len: usize, similar: bool) -> (r: Algorithm)
    ensures
        r == select_spec(base_len as nat, new_len as nat, similar),
{
    if base_len <= SMALL_THRESHOLD && new_len <= SMALL_THRESHOLD {
        Algorithm::Fast
    } else if base_len >= LARGE_THRESHOLD {
        Algorithm::Fast
    } else if similar {
        Algorithm::Fast
    } else {
        Algorithm::Strong
    }
}

/// Number of places the similarity probe samples.
pub const PROBE_SAMPLES: usize = 64;

/// Length of each sampled window.
pub const PROBE_WINDOW: usize = 32;

/// The sampled window at `p` is the same in both inputs.
pub open spec fn probe_hit(base: Seq<u8>, new: Seq<u8>, p: int) -> bool {
    &&& p + PROBE_WINDOW <= base.len()
    &&& p + PROBE_WINDOW <= new.len()
    &&& base.subrange(p, p + PROBE_WINDOW) == new.subrange(p, p + PROBE_WINDOW)
}

/// Hits among the first `s` samples, taken `stride` bytes apart from 0.
pub open spec fn probe_hits(base: Seq<u8>, new: Seq<u8>, stride: nat, s: nat) -> nat
    decreases s,
{
    if s == 0 {
        0
    } else {
        probe_hits(base, new, stride, (s - 1) as nat) + if probe_hit(
            base,
            new,
            stride * (s - 1),
        ) {
            1nat
        } else {
            0nat
        }
    }
}

/// Whether the probe finds the inputs alike: `new` is long enough to sample,
/// and at least seven in eight of its samples equal the base at the same
/// offset.
pub open spec fn similar_spec(base: Seq<u8>, new: Seq<u8>) -> bool {
    let stride = new.len() / PROBE_SAMPLES as nat;
    stride >= PROBE_WINDOW && probe_hits(base, new, stride, PROBE_SAMPLES as nat) * 8
        >= PROBE_SAMPLES * 7
}

/// A cheap similarity probe: windows sampled evenly over `new`, compared
/// with the base at the same offset.
pub fn similar_in_place(base: &[u8], new: &[u8]) -> (r: bool)
    ensures
        r == similar_spec(base@, new@),
{
    let nb = base.len();
    let nn = new.len();
    let stride = nn / PROBE_SAMPLES;
    if stride < PROBE_WINDOW {
        return false;
    }
    let mut hits: usize = 0;
    let mut s: usize = 0;
    while s < PROBE_SAMPLES
        invariant
            nb == base@.len(),
            nn == new@.len(),
            stride as nat == new@.len() / PROBE_SAMPLES as nat,
            stride * PROBE_SAMPLES <= nn,
            stride >= PROBE_WINDOW,
            s <= PROBE_SAMPLES,
            hits == probe_hits(base@, new@, stride as nat, s as nat),
            hits <= s,
        decreases PROBE_SAMPLES - s,
    {
        assert(stride * s <= stride * PROBE_SAMPLES) by (nonlinear_arith)
            requires s <= PROBE_SAMPLES;
        let p = stride * s;
        let mut hit = false;
        if p <= nb && PROBE_WINDOW <= nb - p && PROBE_WINDOW <= nn - p {
            let mut k: usize = 0;
            while k < PROBE_WINDOW && base[p + k] == new[p + k]
                invariant
                    nb == base@.len(),
                    nn == new@.len(),
                    p + PROBE_WINDOW <= nb,
                    p + PROBE_WINDOW <= nn,
                    k <= PROBE_WINDOW,
                    base@.subrange(p as int, p + k) == new@.subrange(p as int, p + k),
                decreases PROBE_WINDOW - k,
            {
                assert(base@.subrange(p as int, p + k + 1) =~= base@.subrange(p as int, p + k).push(
                    base@[p + k],
                ));
                assert(new@.subrange(p as int, p + k + 1) =~= new@.subrange(p as int, p + k).push(
                    new@[p + k],
                ));
                k = k + 1;
            }
            if k == PROBE_WINDOW {
                hit = true;
            } else {
                assert(base@.subrange(p as int, p + PROBE_WINDOW)[k as int] != new@.subrange(
                    p as int,
                    p + PROBE_WINDOW,
                )[k as int]);
            }
        }
        assert(hit == probe_hit(base@, new@, (stride * s) as int));
        if hit {
            hits = hits + 1;
        }
        s = s + 1;
    }
    hits * 8 >= PROBE_SAMPLES * 7
}

/// Whether `a` and `b` hold the same bytes.
pub fn bytes_equal(a: &[u8], b: &[u8]) -> (r: bool)
    ensures
        r == (a@ == b@),
{
    if a.len() != b.len() {
        return false;
    }
    let mut i: usize = 0;
    while i < a.len()
        invariant
            a@.len() == b@.len(),
            i <= a@.len(),
            a@.subrange(0, i as int) == b@.subrange(0, i as int),
        decreases a@.len() - i,
    {
        if a[i] != b[i] {
            assert(a@[i as int] != b@[i as int]);
            return false;
        }
        assert(a@.subrange(0, i + 1) =~= a@.subrange(0, i as int).push(a@[i as int]));
        assert(b@.subrange(0, i + 1) =~= b@.subrange(0, i as int).push(b@[i as int]));
        i = i + 1;
    }
    assert(a@ =~= a@.subrange(0, i as int));
    assert(b@ =~= b@.subrange(0, i as int));
    true
}

/// Appends the header for the given fields to `out`.
pub fn write_header(out: &mut Vec<u8>, algorithm: Algorithm, tag: usize, postcompressed: bool, new_len: u64)
    ensures
        final(out)@ == old(out)@ + header_spec(algorithm, tag as nat, postcompressed, new_len as nat),
{
    let ghost first = out@;
    let id: u8 = match algorithm {
        Algorithm::Fast => 0,
        Algorithm::Strong => 1,
        Algorithm::Identity => 2,
    };
    let slot: u8 = if tag < TAG_EXTENDED as usize {
        tag as u8
    } else {
        TAG_EXTENDED
    };
    out.push(MAGIC);
    out.push(id * 16 + slot);
    out.push(FORMAT_MINOR * 4 + if postcompressed {
        1u8
    } else {
        0u8
    });
    if tag >= TAG_EXTENDED as usize {
        write_varint(out, tag as u64);
    }
    write_varint(out, new_len);
    assert(out@ =~= first + header_spec(algorithm, tag as nat, postcompressed, new_len as nat));
}

/// Reading the tag fields this library wrote gives back the tag, whatever
/// follows them.
pub proof fn lemma_tag_round_trip(algorithm: Algorithm, tag: usize, postcompressed: bool, rest: Seq<u8>)
    ensures
        parse_tag(tag_fields_spec(algorithm, tag as nat, postcompressed) + rest) == Ok::<
            (usize, nat),
            DecodeError,
        >((tag, tag_fields_spec(algorithm, tag as nat, postcompressed).len())),
        algorithm_of((tag_fields_spec(algorithm, tag as nat, postcompressed) + rest)[1] / 16)
            == Some(algorithm),
        ((tag_fields_spec(algorithm, tag as nat, postcompressed) + rest)[2] % 2 == 1)
            == postcompressed,
{
    let tf = tag_fields_spec(algorithm, tag as nat, postcompressed);
    let d = tf + rest;
    let slot: nat = if tag < TAG_EXTENDED {
        tag as nat
    } else {
        TAG_EXTENDED as nat
    };
    let b1 = (algorithm_id(algorithm) * 16 + slot) as u8;
    let b2 = (FORMAT_MINOR * 4 + if postcompressed {
        1nat
    } else {
        0nat
    }) as u8;
    let pre = seq![MAGIC, b1, b2];
    assert(d[0] == MAGIC && d[1] == b1 && d[2] == b2);
    assert(b1 / 16 == algorithm_id(algorithm));
    assert(b1 % 16 == slot);
    assert((b2 / 2) % 2 == 0);
    assert((b2 % 2 == 1) == postcompressed);
    if tag >= TAG_EXTENDED {
        assert(d =~= pre + varint_spec(((tag as u64) as nat)) + rest);
        lemma_varint_round_trip(pre, tag as u64, rest);
    }
}

/// Reading a header that this library wrote gives back its fields.
pub proof fn lemma_header_round_trip(
    algorithm: Algorithm,
    tag: usize,
    postcompressed: bool,
    new_len: u64,
    body: Seq<u8>,
)
    ensures
        parse_header(header_spec(algorithm, tag as nat, postcompressed, new_len as nat) + body)
            == Ok::<Header, DecodeError>(
            Header {
                algorithm,
                tag,
                postcompressed,
                new_len,
                body_start: header_spec(algorithm, tag as nat, postcompressed, new_len as nat).len() as usize,
            },
        ),
{
    let tf = tag_fields_spec(algorithm, tag as nat, postcompressed);
    let d = header_spec(algorithm, tag as nat, postcompressed, new_len as nat) + body;
    assert(d =~= tf + (varint_spec(new_len as nat) + body));
    lemma_tag_round_trip(algorithm, tag, postcompressed, varint_spec(new_len as nat) + body);
    assert(d =~= tf + varint_spec((new_len as u64) as nat) + body);
    lemma_varint_round_trip(tf, new_len, body);
}

/// A header takes three bytes, the tag's varint when the tag does not fit
/// in the slot, and the length's varint.
pub proof fn lemma_header_len(algorithm: Algorithm, tag: usize, postcompressed: bool, new_len: u64)
    ensures
        header_spec(algorithm, tag as nat, postcompressed, new_len as nat).len() <= 23,
        tag < TAG_EXTENDED ==> header_spec(algorithm, tag as nat, postcompressed, new_len as nat).len()
            <= 13,
{
    lemma_varint_len_u64(tag as u64);
    lemma_varint_len_u64(new_len);
}

/// Tags below 15 cost no space: the container for such a tag is exactly as
/// long as the container for tag 0 around the same body.
pub proof fn lemma_small_tags_free(
    algorithm: Algorithm,
    tag: usize,
    postcompressed: bool,
    new_len: u64,
    body: Seq<u8>,
)
    requires
        tag < TAG_EXTENDED,
    ensures
        (header_spec(algorithm, tag as nat, postcompressed, new_len as nat) + body).len() == (
        header_spec(algorithm, 0, postcompressed, new_len as nat) + body).len(),
{
}

/// Post-compression never enlarges a delta: a body no longer than the raw
/// stream, flagged, makes a container no longer than the raw one.
pub proof fn lemma_postcompress_never_grows(
    algorithm: Algorithm,
    tag: usize,
    new_len: u64,
    raw: Seq<u8>,
    body: Seq<u8>,
)
    requires
        body.len() <= raw.len(),
    ensures
        (header_spec(algorithm, tag as nat, true, new_len as nat) + body).len() <= (header_spec(
            algorithm,
            tag as nat,
            false,
            new_len as nat,
        ) + raw).len(),
{
}

/// A delta that decodes at all decodes to exactly the length its header
/// declares, every copy having stayed inside the base.
pub proof fn lemma_decoded_length(base: Seq<u8>, d: Seq<u8>)
    ensures
        decode_spec(base, d) matches Ok(x) ==> parse_header(d) matches Ok(h) && x.len()
            == h.new_len,
{
    if let Ok(h) = parse_header(d) {
        if h.algorithm != Algorithm::Identity {
            if let Ok(raw) = unwrap_spec(body_of(d, h), h.postcompressed) {
                lemma_run_stream_len(base, raw, 0, Seq::empty(), h.new_len as nat);
            }
        }
    }
}

/// Reads the tag fields of `d`: the tag and the position past them.
pub fn read_tag(d: &[u8]) -> (r: Result<(usize, usize), DecodeError>)
    ensures
        match parse_tag(d@) {
            Ok((tag, p)) => r == Ok::<(usize, usize), DecodeError>((tag, p as usize)) && 3 <= p
                <= d@.len(),
            Err(e) => r == Err::<(usize, usize), DecodeError>(e),
        },
{
    if d.len() < 3 || d[0] != MAGIC {
        return Err(DecodeError::MalformedHeader);
    }
    let id = d[1] / 16;
    if id > 2 {
        return Err(DecodeError::MalformedHeader);
    }
    if (d[2] / 2) % 2 != 0 {
        return Err(DecodeError::MalformedHeader);
    }
    let slot = d[1] % 16;
    if slot < TAG_EXTENDED {
        return Ok((slot as usize, 3));
    }
    match read_header_varint(d, 3) {
        Err(e) => Err(e),
        Ok((tag, p)) => {
            if tag > usize::MAX as u64 {
                Err(DecodeError::VarintOverflow)
            } else {
                Ok((tag as usize, p))
            }
        },
    }
}

/// Reads the header of `d`.
pub fn read_header(d: &[u8]) -> (r: Result<Header, DecodeError>)
    ensures
        r == parse_header(d@),
        r matches Ok(h) ==> h.body_start <= d@.len(),
{
    let (tag, p) = match read_tag(d) {
        Err(e) => {
            return Err(e);
        },
        Ok(x) => x,
    };
    let id = d[1] / 16;
    let algorithm = if id == 0 {
        Algorithm::Fast
    } else if id == 1 {
        Algorithm::Strong
    } else {
        Algorithm::Identity
    };
    match read_header_varint(d, p) {
        Err(e) => Err(e),
        Ok((n, q)) => Ok(
            Header { algorithm, tag, postcompressed: d[2] % 2 == 1, new_len: n, body_start: q },
        ),
    }
}

fn read_header_varint(d: &[u8], p: usize) -> (r: Result<(u64, usize), DecodeError>)
    ensures
        match header_varint(d@, p as nat) {
            Ok((v, e)) => r == Ok::<(u64, usize), DecodeError>((v, e as usize)) && p < e <= d@.len(),
            Err(x) => r == Err::<(u64, usize), DecodeError>(x),
        },
{
    match read_varint(d, p) {
        Ok(x) => Ok(x),
        Err(VarintError::Truncated) => Err(DecodeError::MalformedHeader),
        Err(VarintError::Overflow) => Err(DecodeError::VarintOverflow),
    }
}

/// The body `body` of a delta made by `algorithm` carries the instructions
/// `ops`: valid canonical instructions for `new` (those of the fast matcher,
/// or following the greedy policy of the strong one), in wire form,
/// compressed exactly when that is allowed and shrinks them.
pub open spec fn stream_body(
    base: Seq<u8>,
    new: Seq<u8>,
    enable_zstd: bool,
    algorithm: Algorithm,
    postcompressed: bool,
    body: Seq<u8>,
    ops: Seq<Op>,
) -> bool {
    let raw = stream_spec(ops, 0);
    &&& matcher_output(ops, base, new)
    &&& unwrap_spec(body, postcompressed) == Ok::<Seq<u8>, DecodeError>(raw)
    &&& body.len() <= raw.len()
    &&& postcompressed == (enable_zstd && zstd_compressed(raw).len() < raw.len())
    &&& body == (if postcompressed {
        zstd_compressed(raw)
    } else {
        raw
    })
    &&& (algorithm == Algorithm::Strong ==> forall|i: int|
        0 <= i < ops.len() ==> #[trigger] greedy_choice(base, new, ops, i))
    &&& (algorithm == Algorithm::Fast ==> ops == fast_ops_spec(
        base,
        new,
        fast_block(base.len(), new.len()),
    ))
    &&& (algorithm == Algorithm::Fast ==> forall|i: int|
        0 <= i < ops.len() ==> #[trigger] fast_choice(
            base,
            new,
            fast_block(base.len(), new.len()),
            ops,
            i,
        ))
}

/// What `encode` promises of the delta `d` it returns for these arguments:
/// it decodes to `new`; its header carries `tag`, the length of `new`, the
/// algorithm the selector picks (identity exactly when the inputs are
/// equal) and the post-compression flag; its body is the wire form of valid
/// canonical instructions for `new`, compressed exactly when that is
/// allowed and shrinks it.
#[verifier::opaque]
pub open spec fn encode_spec(tag: usize, base: Seq<u8>, new: Seq<u8>, enable_zstd: bool, d: Seq<u8>) -> bool {
    &&& decode_spec(base, d) == Ok::<Seq<u8>, DecodeError>(new)
    &&& match parse_header(d) {
            Ok(h) => {
                &&& h.tag == tag
                &&& h.new_len == new.len()
                &&& d == header_spec(h.algorithm, tag as nat, h.postcompressed, new.len())
                    + body_of(d, h)
                &&& (h.algorithm == Algorithm::Identity <==> base == new)
                &&& (h.algorithm == Algorithm::Identity ==> body_of(d, h).len() == 0
                    && !h.postcompressed)
                &&& (base != new ==> h.algorithm == select_spec(
                    base.len(),
                    new.len(),
                    similar_spec(base, new),
                ))
                &&& (h.postcompressed ==> enable_zstd)
                &&& (base == new ==> d.len() <= 23 && (tag < TAG_EXTENDED ==> d.len() <= 13))
                &&& (new.len() == 0 ==> body_of(d, h).len() == 0)
                &&& (base.len() == 0 && new.len() > 0 ==> unwrap_spec(
                    body_of(d, h),
                    h.postcompressed,
                ) == Ok::<Seq<u8>, DecodeError>(
                    stream_spec(seq![Op::Add { literal: new }], 0),
                ))
                &&& (h.algorithm != Algorithm::Identity ==> exists|ops: Seq<Op>|
                    #[trigger] stream_body(
                        base,
                        new,
                        enable_zstd,
                        h.algorithm,
                        h.postcompressed,
                        body_of(d, h),
                        ops,
                    ))
            },
            Err(_) => false,
        }
}

/// The tag of a delta can be read from its tag fields alone: cut just
/// after them, and followed by any bytes, they give back the same tag.
pub proof fn lemma_tag_from_prefix(
    tag: usize,
    base: Seq<u8>,
    new: Seq<u8>,
    enable_zstd: bool,
    d: Seq<u8>,
    x: Seq<u8>,
)
    requires
        encode_spec(tag, base, new, enable_zstd, d),
    ensures
        parse_tag(d) matches Ok((t, p)) && t == tag && p <= d.len() && parse_tag(
            d.subrange(0, p as int) + x,
        ) == Ok::<(usize, nat), DecodeError>((tag, p)),
{
    reveal(encode_spec);
    let h = parse_header(d).unwrap();
    let tf = tag_fields_spec(h.algorithm, tag as nat, h.postcompressed);
    let rest = varint_spec(new.len()) + body_of(d, h);
    assert(d =~= tf + rest);
    lemma_tag_round_trip(h.algorithm, tag, h.postcompressed, rest);
    assert(d.subrange(0, tf.len() as int) =~= tf);
    lemma_tag_round_trip(h.algorithm, tag, h.postcompressed, x);
}

/// A delta framed from the instructions a matcher found, and the body the
/// post-compression step made of their wire form, meets `encode_spec`.
#[verifier::rlimit(60)]
proof fn lemma_delta_of_ops(
    tag: usize,
    base: Seq<u8>,
    new: Seq<u8>,
    enable_zstd: bool,
    algorithm: Algorithm,
    ops: Seq<Op>,
    body: Seq<u8>,
    postcompressed: bool,
    d: Seq<u8>,
)
    requires
        base != new,
        base.len() <= u64::MAX,
        new.len() <= u64::MAX,
        d.len() <= usize::MAX,
        algorithm == select_spec(base.len(), new.len(), similar_spec(base, new)),
        matcher_output(ops, base, new),
        algorithm == Algorithm::Strong ==> forall|i: int|
            0 <= i < ops.len() ==> #[trigger] greedy_choice(base, new, ops, i),
        algorithm == Algorithm::Fast ==> ops == fast_ops_spec(
            base,
            new,
            fast_block(base.len(), new.len()),
        ),
        algorithm == Algorithm::Fast ==> forall|i: int|
            0 <= i < ops.len() ==> #[trigger] fast_choice(
                base,
                new,
                fast_block(base.len(), new.len()),
                ops,
                i,
            ),
        postcompressed == (enable_zstd && zstd_compressed(stream_spec(ops, 0)).len() < stream_spec(
            ops,
            0,
        ).len()),
        postcompressed ==> body == zstd_compressed(stream_spec(ops, 0)),
        !postcompressed ==> body == stream_spec(ops, 0),
        body.len() <= stream_spec(ops, 0).len(),
        unwrap_spec(body, postcompressed) == Ok::<Seq<u8>, DecodeError>(stream_spec(ops, 0)),
        d == header_spec(algorithm, tag as nat, postcompressed, new.len()) + body,
    ensures
        encode_spec(tag, base, new, enable_zstd, d),
{
    let new_len = new.len() as u64;
    lemma_header_round_trip(algorithm, tag, postcompressed, new_len, body);
    let h = parse_header(d).unwrap();
    assert(body_of(d, h) =~= body);
    lemma_apply_len(base, ops);
    lemma_stream_round_trip(base, ops, Seq::empty(), Seq::empty(), new_len as nat);
    assert(Seq::<u8>::empty() + stream_spec(ops, 0) =~= stream_spec(ops, 0));
    assert(Seq::<u8>::empty() + new =~= new);
    if new.len() == 0 {
        assert(ops.len() == 0);
        assert(stream_spec(ops, 0).len() == 0);
    }
    assert(stream_body(base, new, enable_zstd, algorithm, postcompressed, body_of(d, h), ops));
    reveal(encode_spec);
}

/// The header and body facts of a delta that `encode` made, with its
/// header `h`.
pub proof fn lemma_encode_facts(tag: usize, base: Seq<u8>, new: Seq<u8>, enable_zstd: bool, d: Seq<u8>) -> (h: Header)
    requires
        encode_spec(tag, base, new, enable_zstd, d),
    ensures
        parse_header(d) == Ok::<Header, DecodeError>(h),
        h.tag == tag,
        d == header_spec(h.algorithm, tag as nat, h.postcompressed, new.len()) + body_of(d, h),
        (h.algorithm == Algorithm::Identity) == (base == new),
        base == new ==> body_of(d, h).len() == 0 && !h.postcompressed,
        base != new ==> h.algorithm == select_spec(base.len(), new.len(), similar_spec(base, new)),
        base != new ==> exists|ops: Seq<Op>|
            #[trigger] stream_body(
                base,
                new,
                enable_zstd,
                h.algorithm,
                h.postcompressed,
                body_of(d, h),
                ops,
            ),
{
    reveal(encode_spec);
    parse_header(d).unwrap()
}

/// Fast-matcher bodies for the same inputs: equal when post-compression is
/// equally allowed, and one that may be compressed is no longer than one
/// that may not.
proof fn lemma_fast_bodies(
    base: Seq<u8>,
    new: Seq<u8>,
    z1: bool,
    z2: bool,
    pc1: bool,
    pc2: bool,
    b1: Seq<u8>,
    b2: Seq<u8>,
)
    requires
        exists|ops: Seq<Op>| #[trigger] stream_body(base, new, z1, Algorithm::Fast, pc1, b1, ops),
        exists|ops: Seq<Op>| #[trigger] stream_body(base, new, z2, Algorithm::Fast, pc2, b2, ops),
    ensures
        z1 == z2 ==> pc1 == pc2 && b1 == b2,
        z1 && !z2 ==> b1.len() <= b2.len(),
{
    let ops1 = choose|ops: Seq<Op>| #[trigger] stream_body(base, new, z1, Algorithm::Fast, pc1, b1, ops);
    let ops2 = choose|ops: Seq<Op>| #[trigger] stream_body(base, new, z2, Algorithm::Fast, pc2, b2, ops);
    assert(ops1 == ops2);
}

/// Where the matcher's output is fixed by the inputs (equal inputs, or the
/// fast matcher), a delta is a function of its arguments: equal arguments
/// give equal deltas; tags below 15 cost no bytes; and allowing
/// post-compression
/// never makes the delta longer.
pub proof fn lemma_delta_determined(
    t1: usize,
    t2: usize,
    base: Seq<u8>,
    new: Seq<u8>,
    z1: bool,
    z2: bool,
    d1: Seq<u8>,
    d2: Seq<u8>,
)
    requires
        encode_spec(t1, base, new, z1, d1),
        encode_spec(t2, base, new, z2, d2),
        base != new ==> select_spec(base.len(), new.len(), similar_spec(base, new))
            == Algorithm::Fast,
    ensures
        t1 == t2 && z1 == z2 ==> d1 == d2,
        z1 == z2 && t1 < TAG_EXTENDED && t2 < TAG_EXTENDED ==> d1.len() == d2.len(),
        z1 == z2 ==> d1.len() - extended_tag_len(t1 as nat) == d2.len() - extended_tag_len(
            t2 as nat,
        ),
        t1 == t2 && z1 && !z2 ==> d1.len() <= d2.len(),
{
    let h1 = lemma_encode_facts(t1, base, new, z1, d1);
    let h2 = lemma_encode_facts(t2, base, new, z2, d2);
    let b1 = body_of(d1, h1);
    let b2 = body_of(d2, h2);
    if base != new {
        lemma_fast_bodies(base, new, z1, z2, h1.postcompressed, h2.postcompressed, b1, b2);
    }
}

/// Encodes `new` as a delta against `base`, carrying `tag`; the body is
/// post-compressed when `enable_zstd` allows it and it shrinks the body.
pub fn encode(tag: usize, base: &[u8], new: &[u8], enable_zstd: bool) -> (d: Vec<u8>)
    ensures
        encode_spec(tag, base@, new@, enable_zstd, d@),
{
    let new_len = new.len() as u64;
    let mut d: Vec<u8> = Vec::new();
    if bytes_equal(base, new) {
        write_header(&mut d, Algorithm::Identity, tag, false, new_len);
        let dl = d.len();
        proof {
            let hs = header_spec(Algorithm::Identity, tag as nat, false, new_len as nat);
            assert(d@ =~= hs + Seq::<u8>::empty());
            lemma_header_round_trip(Algorithm::Identity, tag, false, new_len, Seq::<u8>::empty());
            let h = parse_header(d@).unwrap();
            assert(body_of(d@, h) =~= Seq::<u8>::empty());
            lemma_header_len(Algorithm::Identity, tag, false, new_len);
            reveal(encode_spec);
        }
        return d;
    }
    let similar = similar_in_place(base, new);
    let algorithm = select_algorithm(base.len(), new.len(), similar);
    let ops = match algorithm {
        Algorithm::Strong => strong_ops(base, new),
        _ => {
            let block = if base.len() <= SMALL_THRESHOLD && new.len() <= SMALL_THRESHOLD {
                SMALL_BLOCK
            } else {
                LARGE_BLOCK
            };
            fast_ops(base, new, block)
        },
    };
    proof {
        lemma_apply_len(base@, ops_of(ops@));
    }
    let mut raw: Vec<u8> = Vec::new();
    write_stream(&mut raw, &ops);
    let ghost raw_view = raw@;
    let (body, postcompressed) = postcompress(raw, enable_zstd);
    write_header(&mut d, algorithm, tag, postcompressed, new_len);
    let ghost hs = d@;
    push_range(&mut d, body.as_slice(), 0, body.len());
    let dl = d.len();
    proof {
        let ops_v = ops_of(ops@);
        assert(raw_view =~= stream_spec(ops_v, 0));
        assert(body@.subrange(0, body@.len() as int) =~= body@);
        assert(ops_v.len() == ops@.len());
        lemma_delta_of_ops(
            tag,
            base@,
            new@,
            enable_zstd,
            algorithm,
            ops_v,
            body@,
            postcompressed,
            d@,
        );
    }
    d
}

/// Decodes the delta `delta` against `base`.
pub fn decode(base: &[u8], delta: &[u8]) -> (r: Result<Vec<u8>, DecodeError>)
    ensures
        match decode_spec(base@, delta@) {
            Ok(x) => r matches Ok(v) && v@ == x,
            Err(e) => r == Err::<Vec<u8>, DecodeError>(e),
        },
{
    let h = match read_header(delta) {
        Err(e) => {
            return Err(e);
        },
        Ok(h) => h,
    };
    let body = vstd::slice::slice_subrange(delta, h.body_start, delta.len());
    if h.algorithm == Algorithm::Identity {
        if body.len() > 0 {
            return Err(DecodeError::MalformedHeader);
        }
        if base.len() as u64 != h.new_len {
            return Err(DecodeError::LengthMismatch);
        }
        let mut out: Vec<u8> = Vec::new();
        push_range(&mut out, base, 0, base.len());
        assert(out@ =~= base@);
        return Ok(out);
    }
    match unwrap_body(body, h.postcompressed) {
        Err(e) => Err(e),
        Ok(raw) => decode_stream(base, raw.as_slice(), h.new_len),
    }
}

/// The tag carried by `delta`, read from its tag fields alone: the magic,
/// the algorithm id, the flags, the slot and the extended tag.
pub fn get_tag(delta: &[u8]) -> (r: Result<usize, DecodeError>)
    ensures
        match parse_tag(delta@) {
            Ok((tag, p)) => r == Ok::<usize, DecodeError>(tag),
            Err(e) => r == Err::<usize, DecodeError>(e),
        },
{
    match read_tag(delta) {
        Ok((tag, p)) => Ok(tag),
        Err(e) => Err(e),
    }
}

/// The algorithm, tag and header length of `delta`.
pub fn decode_header(delta: &[u8]) -> (r: Result<(Algorithm, usize, usize), DecodeError>)
    ensures
        match parse_header(delta@) {
            Ok(h) => r == Ok::<(Algorithm, usize, usize), DecodeError>(
                (h.algorithm, h.tag, h.body_start),
            ),
            Err(e) => r == Err::<(Algorithm, usize, usize), DecodeError>(e),
        },
{
    match read_header(delta) {
        Ok(h) => Ok((h.algorithm, h.tag, h.body_start)),
        Err(e) => Err(e),
    }
}

} // verus!
