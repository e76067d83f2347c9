use vstd::prelude::*;
use vstd::slice::slice_to_vec;
use vstd::utf8::decode_utf8;
use vstd::utf8::encode_utf8;
use vstd::utf8::valid_utf8;

use crate::execution::StageReport;
use crate::execution::StageStatus;
use crate::time::Duration;

verus! {

broadcast use vstd::utf8::encode_utf8_valid_utf8, vstd::utf8::encode_utf8_decode_utf8;

/// The ghost shape of a stage report: the characters of its names,
/// its outcome and its duration in nanoseconds.
pub ghost struct StageModel {
    pub name: Seq<char>,
    pub status: StageStatusModel,
    pub duration_nanos: u64,
}

pub ghost enum StageStatusModel {
    Success,
    Failure(i32),
    Skipped(Seq<char>),
}

pub open spec fn status_model(s: StageStatus) -> StageStatusModel {
    match s {
        StageStatus::Success => StageStatusModel::Success,
        StageStatus::Failure(code) => StageStatusModel::Failure(code),
        StageStatus::Skipped(reason) => StageStatusModel::Skipped(reason@),
    }
}

pub open spec fn report_model(r: StageReport) -> StageModel {
    StageModel {
        name: r.stage_name@,
        status: status_model(r.status),
        duration_nanos: r.duration.nanos,
    }
}

/// A model whose strings encode to byte runs short enough for the
/// frame's 64-bit length fields.
pub open spec fn wf_model(m: StageModel) -> bool {
    &&& encode_utf8(m.name).len() <= u32::MAX
    &&& (m.status matches StageStatusModel::Skipped(reason) ==> encode_utf8(reason).len()
        <= u32::MAX)
}

/// A 64-bit value as eight bytes, most significant first.
pub open spec fn spec_be8(n: u64) -> Seq<u8> {
    seq![
        ((n >> 56) & 0xff) as u8,
        ((n >> 48) & 0xff) as u8,
        ((n >> 40) & 0xff) as u8,
        ((n >> 32) & 0xff) as u8,
        ((n >> 24) & 0xff) as u8,
        ((n >> 16) & 0xff) as u8,
        ((n >> 8) & 0xff) as u8,
        (n & 0xff) as u8,
    ]
}

/// The 64-bit value eight bytes spell, most significant first.
pub open spec fn spec_be8_val(b: Seq<u8>) -> u64
    recommends
        b.len() == 8,
{
    (((b[0] as u64) << 56) | ((b[1] as u64) << 48) | ((b[2] as u64) << 40) | ((b[3] as u64) << 32)
        | ((b[4] as u64) << 24) | ((b[5] as u64) << 16) | ((b[6] as u64) << 8) | (b[7] as u64))
}

/// A 32-bit value as four bytes, most significant first.
pub open spec fn spec_be4(n: u32) -> Seq<u8> {
    seq![((n >> 24) & 0xff) as u8, ((n >> 16) & 0xff) as u8, ((n >> 8) & 0xff) as u8, (n & 0xff) as u8]
}

/// The 32-bit value four bytes spell, most significant first.
pub open spec fn spec_be4_val(b: Seq<u8>) -> u32
    recommends
        b.len() == 4,
{
    (((b[0] as u32) << 24) | ((b[1] as u32) << 16) | ((b[2] as u32) << 8) | (b[3] as u32))
}

pub proof fn lemma_be8_round_trip(n: u64)
    ensures
        spec_be8(n).len() == 8,
        spec_be8_val(spec_be8(n)) == n,
{
    let b0 = ((n >> 56) & 0xff) as u8;
    let b1 = ((n >> 48) & 0xff) as u8;
    let b2 = ((n >> 40) & 0xff) as u8;
    let b3 = ((n >> 32) & 0xff) as u8;
    let b4 = ((n >> 24) & 0xff) as u8;
    let b5 = ((n >> 16) & 0xff) as u8;
    let b6 = ((n >> 8) & 0xff) as u8;
    let b7 = (n & 0xff) as u8;
    assert((((((n >> 56) & 0xff) as u8) as u64) << 56) | (((((n >> 48) & 0xff) as u8) as u64)
        << 48) | (((((n >> 40) & 0xff) as u8) as u64) << 40) | (((((n >> 32) & 0xff) as u8) as u64)
        << 32) | (((((n >> 24) & 0xff) as u8) as u64) << 24) | (((((n >> 16) & 0xff) as u8) as u64)
        << 16) | (((((n >> 8) & 0xff) as u8) as u64) << 8) | (((n & 0xff) as u8) as u64) == n)
        by (bit_vector);
    assert(spec_be8_val(spec_be8(n)) == (((b0 as u64) << 56) | ((b1 as u64) << 48) | ((b2 as u64)
        << 40) | ((b3 as u64) << 32) | ((b4 as u64) << 24) | ((b5 as u64) << 16) | ((b6 as u64)
        << 8) | (b7 as u64)));
}

pub proof fn lemma_be4_round_trip(n: u32)
    ensures
        spec_be4(n).len() == 4,
        spec_be4_val(spec_be4(n)) == n,
{
    let b0 = ((n >> 24) & 0xff) as u8;
    let b1 = ((n >> 16) & 0xff) as u8;
    let b2 = ((n >> 8) & 0xff) as u8;
    let b3 = (n & 0xff) as u8;
    assert((((((n >> 24) & 0xff) as u8) as u32) << 24) | (((((n >> 16) & 0xff) as u8) as u32)
        << 16) | (((((n >> 8) & 0xff) as u8) as u32) << 8) | (((n & 0xff) as u8) as u32) == n)
        by (bit_vector);
    assert(spec_be4_val(spec_be4(n)) == (((b0 as u32) << 24) | ((b1 as u32) << 16) | ((b2 as u32)
        << 8) | (b3 as u32)));
}

/// The chosen self-describing payload of one stage report: the name's
/// length and UTF-8 bytes, a status tag with its data, and the
/// duration, all integers big-endian.
pub open spec fn spec_payload(m: StageModel) -> Seq<u8> {
    let name_bytes = encode_utf8(m.name);
    spec_be8(name_bytes.len() as u64) + name_bytes + spec_status_bytes(m.status) + spec_be8(
        m.duration_nanos,
    )
}

pub open spec fn spec_status_bytes(s: StageStatusModel) -> Seq<u8> {
    match s {
        StageStatusModel::Success => seq![0u8],
        StageStatusModel::Failure(code) => seq![1u8] + spec_be4(code as u32),
        StageStatusModel::Skipped(reason) => {
            let reason_bytes = encode_utf8(reason);
            seq![2u8] + spec_be8(reason_bytes.len() as u64) + reason_bytes
        },
    }
}

/// One frame: the payload's length as eight big-endian bytes, then
/// the payload.
pub open spec fn spec_frame(payload: Seq<u8>) -> Seq<u8> {
    spec_be8(payload.len() as u64) + payload
}

/// A run of frames, one per report, in order.
pub open spec fn spec_frames(ms: Seq<StageModel>) -> Seq<u8>
    decreases ms.len(),
{
    if ms.len() == 0 {
        Seq::empty()
    } else {
        spec_frame(spec_payload(ms[0])) + spec_frames(ms.subrange(1, ms.len() as int))
    }
}

/// What the streaming decoder makes of the unread remainder of its
/// buffer: a complete well-formed frame, too few bytes so far, or a
/// payload that does not parse.
pub ghost enum NextFrame {
    Frame(StageModel, int),
    NeedMore,
    Corrupt,
}

pub open spec fn spec_next_frame(rem: Seq<u8>) -> NextFrame {
    if rem.len() < 8 {
        NextFrame::NeedMore
    } else {
        let len = spec_be8_val(rem.subrange(0, 8)) as int;
        if rem.len() - 8 < len {
            NextFrame::NeedMore
        } else {
            match spec_parse_payload(rem.subrange(8, 8 + len)) {
                Some(m) => NextFrame::Frame(m, 8 + len),
                None => NextFrame::Corrupt,
            }
        }
    }
}

/// The payload parser: the exact inverse of [`spec_payload`] on
/// well-formed bytes, `None` on everything else.
pub open spec fn spec_parse_payload(b: Seq<u8>) -> Option<StageModel> {
    if b.len() < 8 {
        None
    } else {
        let nlen = spec_be8_val(b.subrange(0, 8)) as int;
        if b.len() < 8 + nlen + 1 {
            None
        } else {
            let name_bytes = b.subrange(8, 8 + nlen);
            if !valid_utf8(name_bytes) {
                None
            } else {
                let name = decode_utf8(name_bytes);
                let pos = 8 + nlen;
                let tag = b[pos];
                if tag == 0 {
                    if b.len() != pos + 1 + 8 {
                        None
                    } else {
                        Some(
                            StageModel {
                                name,
                                status: StageStatusModel::Success,
                                duration_nanos: spec_be8_val(b.subrange(pos + 1, pos + 9)),
                            },
                        )
                    }
                } else if tag == 1 {
                    if b.len() != pos + 1 + 4 + 8 {
                        None
                    } else {
                        Some(
                            StageModel {
                                name,
                                status: StageStatusModel::Failure(
                                    spec_be4_val(b.subrange(pos + 1, pos + 5)) as i32,
                                ),
                                duration_nanos: spec_be8_val(b.subrange(pos + 5, pos + 13)),
                            },
                        )
                    }
                } else if tag == 2 {
                    if b.len() < pos + 1 + 8 {
                        None
                    } else {
                        let rlen = spec_be8_val(b.subrange(pos + 1, pos + 9)) as int;
                        if b.len() != pos + 9 + rlen + 8 {
                            None
                        } else {
                            let reason_bytes = b.subrange(pos + 9, pos + 9 + rlen);
                            if !valid_utf8(reason_bytes) {
                                None
                            } else {
                                Some(
                                    StageModel {
                                        name,
                                        status: StageStatusModel::Skipped(
                                            decode_utf8(reason_bytes),
                                        ),
                                        duration_nanos: spec_be8_val(
                                            b.subrange(pos + 9 + rlen, pos + 9 + rlen + 8),
                                        ),
                                    },
                                )
                            }
                        }
                    }
                } else {
                    None
                }
            }
        }
    }
}

/// Parsing a payload that [`spec_payload`] produced gives back
/// exactly the model it came from.
pub proof fn lemma_parse_payload_inverse(m: StageModel)
    requires
        wf_model(m),
    ensures
        spec_parse_payload(spec_payload(m)) == Some(m),
{
    let name_bytes = encode_utf8(m.name);
    let b = spec_payload(m);
    let sb = spec_status_bytes(m.status);
    lemma_be8_round_trip(name_bytes.len() as u64);
    lemma_be8_round_trip(m.duration_nanos);
    let nlen = name_bytes.len() as int;
    assert(b.subrange(0, 8) =~= spec_be8(name_bytes.len() as u64));
    assert(b.subrange(8, 8 + nlen) =~= name_bytes);
    assert(decode_utf8(name_bytes) == m.name);
    let pos = 8 + nlen;
    match m.status {
        StageStatusModel::Success => {
            assert(b.len() == pos + 1 + 8);
            assert(b[pos] == 0);
            assert(b.subrange(pos + 1, pos + 9) =~= spec_be8(m.duration_nanos));
        },
        StageStatusModel::Failure(code) => {
            lemma_be4_round_trip(code as u32);
            assert(b.len() == pos + 1 + 4 + 8);
            assert(b[pos] == 1);
            assert(b.subrange(pos + 1, pos + 5) =~= spec_be4(code as u32));
            assert(spec_be4_val(b.subrange(pos + 1, pos + 5)) == code as u32);
            assert((code as u32) as i32 == code) by (bit_vector);
            assert(b.subrange(pos + 5, pos + 13) =~= spec_be8(m.duration_nanos));
        },
        StageStatusModel::Skipped(reason) => {
            let reason_bytes = encode_utf8(reason);
            lemma_be8_round_trip(reason_bytes.len() as u64);
            let rlen = reason_bytes.len() as int;
            assert(b.len() == pos + 9 + rlen + 8);
            assert(b[pos] == 2);
            assert(b.subrange(pos + 1, pos + 9) =~= spec_be8(reason_bytes.len() as u64));
            assert(b.subrange(pos + 9, pos + 9 + rlen) =~= reason_bytes);
            assert(decode_utf8(reason_bytes) == reason);
            assert(b.subrange(pos + 9 + rlen, pos + 9 + rlen + 8) =~= spec_be8(m.duration_nanos));
        },
    }
}

/// At the head of an encoded run of frames the decoder finds exactly
/// the first report.
#[verifier::rlimit(50)]
pub proof fn lemma_next_frame_of_frames(m: StageModel, rest: Seq<u8>)
    requires
        wf_model(m),
    ensures
        spec_next_frame(spec_frame(spec_payload(m)) + rest) == NextFrame::Frame(
            m,
            spec_frame(spec_payload(m)).len() as int,
        ),
{
    let payload = spec_payload(m);
    let frame = spec_frame(payload);
    let whole = frame + rest;
    lemma_be8_round_trip(payload.len() as u64);
    assert(whole.subrange(0, 8) =~= spec_be8(payload.len() as u64));
    assert(whole.len() - 8 >= payload.len());
    assert(whole.subrange(8, 8 + payload.len() as int) =~= payload);
    lemma_parse_payload_inverse(m);
}

/// The models a byte run holds, read greedily front to back until the
/// bytes run short or stop parsing.
pub open spec fn spec_decode_all(b: Seq<u8>) -> Seq<StageModel>
    decreases b.len(),
{
    match spec_next_frame(b) {
        NextFrame::Frame(m, consumed) => {
            if 0 < consumed <= b.len() {
                seq![m] + spec_decode_all(b.subrange(consumed, b.len() as int))
            } else {
                seq![m]
            }
        },
        NextFrame::NeedMore => Seq::empty(),
        NextFrame::Corrupt => Seq::empty(),
    }
}

/// Encoding any sequence of stage reports into a buffer and decoding
/// the buffer gives back exactly that sequence, and nothing after it.
#[verifier::rlimit(100)]
pub proof fn lemma_codec_round_trip(ms: Seq<StageModel>)
    requires
        forall|i: int| 0 <= i < ms.len() ==> wf_model(#[trigger] ms[i]),
    ensures
        spec_decode_all(spec_frames(ms)) == ms,
    decreases ms.len(),
{
    if ms.len() == 0 {
        assert(spec_decode_all(spec_frames(ms)) =~= ms);
    } else {
        let m = ms[0];
        let rest = ms.subrange(1, ms.len() as int);
        let frame = spec_frame(spec_payload(m));
        let tail_bytes = spec_frames(rest);
        let whole = spec_frames(ms);
        assert(whole == frame + tail_bytes);
        lemma_next_frame_of_frames(m, tail_bytes);
        assert(whole.subrange(frame.len() as int, whole.len() as int) =~= tail_bytes);
        lemma_codec_round_trip(rest);
        assert(spec_decode_all(whole) =~= ms);
    }
}

/// Eight big-endian bytes spell back the value they were made from.
proof fn lemma_be8_bytes_round_trip(b: Seq<u8>)
    requires
        b.len() == 8,
    ensures
        spec_be8(spec_be8_val(b)) == b,
{
    let b0 = b[0];
    let b1 = b[1];
    let b2 = b[2];
    let b3 = b[3];
    let b4 = b[4];
    let b5 = b[5];
    let b6 = b[6];
    let b7 = b[7];
    let n = spec_be8_val(b);
    assert(n == ((b0 as u64) << 56) | ((b1 as u64) << 48) | ((b2 as u64) << 40) | ((b3 as u64)
        << 32) | ((b4 as u64) << 24) | ((b5 as u64) << 16) | ((b6 as u64) << 8) | (b7 as u64));
    let v = ((b0 as u64) << 56) | ((b1 as u64) << 48) | ((b2 as u64) << 40) | ((b3 as u64) << 32)
        | ((b4 as u64) << 24) | ((b5 as u64) << 16) | ((b6 as u64) << 8) | (b7 as u64);
    assert(((v >> 56) & 0xff) as u8 == b0 && ((v >> 48) & 0xff) as u8 == b1 && ((v >> 40)
        & 0xff) as u8 == b2 && ((v >> 32) & 0xff) as u8 == b3 && ((v >> 24) & 0xff) as u8 == b4 && (
    (v >> 16) & 0xff) as u8 == b5 && ((v >> 8) & 0xff) as u8 == b6 && (v & 0xff) as u8 == b7)
        by (bit_vector)
        requires
            v == ((b0 as u64) << 56) | ((b1 as u64) << 48) | ((b2 as u64) << 40) | ((b3 as u64)
                << 32) | ((b4 as u64) << 24) | ((b5 as u64) << 16) | ((b6 as u64) << 8) | (
            b7 as u64),
    ;
    assert(spec_be8(n) =~= b);
}

/// Four big-endian bytes spell back the value they were made from.
proof fn lemma_be4_bytes_round_trip(b: Seq<u8>)
    requires
        b.len() == 4,
    ensures
        spec_be4(spec_be4_val(b)) == b,
{
    let b0 = b[0];
    let b1 = b[1];
    let b2 = b[2];
    let b3 = b[3];
    let n = spec_be4_val(b);
    let v = ((b0 as u32) << 24) | ((b1 as u32) << 16) | ((b2 as u32) << 8) | (b3 as u32);
    assert(n == v);
    assert(((v >> 24) & 0xff) as u8 == b0 && ((v >> 16) & 0xff) as u8 == b1 && ((v >> 8)
        & 0xff) as u8 == b2 && (v & 0xff) as u8 == b3) by (bit_vector)
        requires
            v == ((b0 as u32) << 24) | ((b1 as u32) << 16) | ((b2 as u32) << 8) | (b3 as u32),
    ;
    assert(spec_be4(n) =~= b);
}

/// A payload the parser accepts is exactly the encoding of what it
/// parsed: the wire format is unambiguous.
#[verifier::rlimit(100)]
proof fn lemma_parse_payload_exact(b: Seq<u8>)
    requires
        spec_parse_payload(b) is Some,
    ensures
        b == spec_payload(spec_parse_payload(b)->0),
{
    broadcast use vstd::utf8::decode_utf8_encode_utf8;

    let m = spec_parse_payload(b)->0;
    let nlen = spec_be8_val(b.subrange(0, 8)) as int;
    lemma_be8_bytes_round_trip(b.subrange(0, 8));
    let name_bytes = b.subrange(8, 8 + nlen);
    assert(encode_utf8(decode_utf8(name_bytes)) == name_bytes);
    assert(encode_utf8(m.name) == name_bytes);
    let pos = 8 + nlen;
    let tag = b[pos];
    if tag == 0 {
        lemma_be8_bytes_round_trip(b.subrange(pos + 1, pos + 9));
        assert(b =~= spec_payload(m));
    } else if tag == 1 {
        lemma_be4_bytes_round_trip(b.subrange(pos + 1, pos + 5));
        lemma_be8_bytes_round_trip(b.subrange(pos + 5, pos + 13));
        let cv = spec_be4_val(b.subrange(pos + 1, pos + 5));
        let code = cv as i32;
        assert((code as u32) == cv) by (bit_vector)
            requires
                code == cv as i32,
        ;
        assert(b =~= spec_payload(m));
    } else {
        let rlen = spec_be8_val(b.subrange(pos + 1, pos + 9)) as int;
        lemma_be8_bytes_round_trip(b.subrange(pos + 1, pos + 9));
        let reason_bytes = b.subrange(pos + 9, pos + 9 + rlen);
        assert(encode_utf8(decode_utf8(reason_bytes)) == reason_bytes);
        lemma_be8_bytes_round_trip(b.subrange(pos + 9 + rlen, pos + 9 + rlen + 8));
        assert(b =~= spec_payload(m));
    }
}

/// A report appended to a run of frames appends its frame to the
/// run's bytes.
proof fn lemma_frames_push(ms: Seq<StageModel>, m: StageModel)
    ensures
        spec_frames(ms.push(m)) == spec_frames(ms) + spec_frame(spec_payload(m)),
    decreases ms.len(),
{
    if ms.len() == 0 {
        assert(ms.push(m)[0] == m);
        assert(ms.push(m).subrange(1, 1) =~= Seq::<StageModel>::empty());
        assert(spec_frames(Seq::<StageModel>::empty()) == Seq::<u8>::empty());
        assert(spec_frames(ms.push(m)) == spec_frame(spec_payload(m)) + Seq::<u8>::empty());
        assert(spec_frame(spec_payload(m)) + Seq::<u8>::empty() =~= spec_frame(spec_payload(m)));
        assert(spec_frames(ms) + spec_frame(spec_payload(m)) =~= spec_frame(spec_payload(m)));
    } else {
        assert(ms.push(m).subrange(1, ms.len() as int + 1) =~= ms.subrange(
            1,
            ms.len() as int,
        ).push(m));
        lemma_frames_push(ms.subrange(1, ms.len() as int), m);
        assert(spec_frames(ms.push(m)) =~= spec_frames(ms) + spec_frame(spec_payload(m)));
    }
}

/// Relies on String::from_utf8: it accepts exactly the valid UTF-8
/// byte sequences, and the accepted string's bytes are the input.
#[verifier::external_body]
fn string_from_utf8(bytes: Vec<u8>) -> (r: Option<String>)
    ensures
        r matches Some(s) ==> encode_utf8(s@) == bytes@,
        valid_utf8(bytes@) ==> r is Some,
{
    String::from_utf8(bytes).ok()
}

/// The 64-bit value spelled big-endian at `at`.
fn read_be8(buf: &Vec<u8>, at: usize) -> (n: u64)
    requires
        at + 8 <= buf@.len(),
    ensures
        n == spec_be8_val(buf@.subrange(at as int, at + 8)),
{
    let ghost total = buf@.len();
    let l = buf.len();
    let n = ((buf[at] as u64) << 56u64) | ((buf[at + 1] as u64) << 48u64) | ((buf[at + 2] as u64)
        << 40u64) | ((buf[at + 3] as u64) << 32u64) | ((buf[at + 4] as u64) << 24u64) | ((buf[at
        + 5] as u64) << 16u64) | ((buf[at + 6] as u64) << 8u64) | (buf[at + 7] as u64);
    proof {
        let b = buf@.subrange(at as int, at + 8);
        assert(b[0] == buf@[at as int] && b[1] == buf@[at + 1] && b[2] == buf@[at + 2] && b[3]
            == buf@[at + 3] && b[4] == buf@[at + 4] && b[5] == buf@[at + 5] && b[6] == buf@[at + 6]
            && b[7] == buf@[at + 7]);
    }
    n
}

/// The 32-bit value spelled big-endian at `at`.
fn read_be4(buf: &Vec<u8>, at: usize) -> (n: u32)
    requires
        at + 4 <= buf@.len(),
    ensures
        n == spec_be4_val(buf@.subrange(at as int, at + 4)),
{
    let ghost total = buf@.len();
    let l = buf.len();
    let n = ((buf[at] as u32) << 24u32) | ((buf[at + 1] as u32) << 16u32) | ((buf[at + 2] as u32)
        << 8u32) | (buf[at + 3] as u32);
    proof {
        let b = buf@.subrange(at as int, at + 4);
        assert(b[0] == buf@[at as int] && b[1] == buf@[at + 1] && b[2] == buf@[at + 2] && b[3]
            == buf@[at + 3]);
    }
    n
}

/// The bytes of `buf` between `from` and `to` as their own vector.
fn copy_range(buf: &Vec<u8>, from: usize, to: usize) -> (r: Vec<u8>)
    requires
        from <= to <= buf@.len(),
    ensures
        r@ == buf@.subrange(from as int, to as int),
{
    let s = slice_to_vec(&buf.as_slice()[from..to]);
    proof {
        assert(s@ == buf@.subrange(from as int, to as int));
    }
    s
}

/// Parses the payload standing between `from` and `to`, the exact
/// executable counterpart of [`spec_parse_payload`].
#[verifier::rlimit(100)]
fn decode_payload(buf: &Vec<u8>, from: usize, to: usize) -> (r: Option<StageReport>)
    requires
        from <= to <= buf@.len(),
    ensures
        (match spec_parse_payload(buf@.subrange(from as int, to as int)) {
            Some(m) => r matches Some(rep) && report_model(rep) == m,
            None => r is None,
        }),
{
    let ghost b = buf@.subrange(from as int, to as int);
    let avail = to - from;
    if avail < 8 {
        return None;
    }
    let nlen64 = read_be8(buf, from);
    proof {
        assert(b.subrange(0, 8) =~= buf@.subrange(from as int, from + 8));
    }
    if avail - 8 < 1 || ((avail - 9) as u64) < nlen64 {
        return None;
    }
    let nlen = nlen64 as usize;
    let name_vec = copy_range(buf, from + 8, from + 8 + nlen);
    proof {
        assert(b.subrange(8, 8 + nlen as int) =~= buf@.subrange(from + 8, from + 8 + nlen as int));
    }
    let name = match string_from_utf8(name_vec) {
        Some(s) => s,
        None => {
            return None;
        },
    };
    proof {
        broadcast use vstd::utf8::encode_utf8_decode_utf8;

        assert(decode_utf8(b.subrange(8, 8 + nlen as int)) == name@);
    }
    let pos = from + 8 + nlen;
    let tag = buf[pos];
    proof {
        assert(b[8 + nlen as int] == buf@[pos as int]);
    }
    if tag == 0 {
        if to - pos != 1 + 8 {
            return None;
        }
        let dur = read_be8(buf, pos + 1);
        proof {
            assert(b.subrange(8 + nlen + 1, 8 + nlen + 9) =~= buf@.subrange(pos + 1, pos + 9));
        }
        Some(
            StageReport {
                stage_name: name,
                status: StageStatus::Success,
                duration: Duration::from_nanos(dur),
            },
        )
    } else if tag == 1 {
        if to - pos != 1 + 4 + 8 {
            return None;
        }
        let code = read_be4(buf, pos + 1);
        let dur = read_be8(buf, pos + 5);
        proof {
            assert(b.subrange(8 + nlen + 1, 8 + nlen + 5) =~= buf@.subrange(pos + 1, pos + 5));
            assert(b.subrange(8 + nlen + 5, 8 + nlen + 13) =~= buf@.subrange(pos + 5, pos + 13));
        }
        Some(
            StageReport {
                stage_name: name,
                status: StageStatus::Failure(code as i32),
                duration: Duration::from_nanos(dur),
            },
        )
    } else if tag == 2 {
        if to - pos < 1 + 8 {
            return None;
        }
        let rlen64 = read_be8(buf, pos + 1);
        proof {
            assert(b.subrange(8 + nlen + 1, 8 + nlen + 9) =~= buf@.subrange(pos + 1, pos + 9));
        }
        if ((to - pos - 9) as u64) < rlen64 || ((to - pos - 9 - (rlen64 as usize)) != 8) {
            return None;
        }
        let rlen = rlen64 as usize;
        let reason_vec = copy_range(buf, pos + 9, pos + 9 + rlen);
        proof {
            assert(b.subrange(8 + nlen + 9, 8 + nlen + 9 + rlen as int) =~= buf@.subrange(
                pos + 9,
                pos + 9 + rlen as int,
            ));
        }
        let reason = match string_from_utf8(reason_vec) {
            Some(s) => s,
            None => {
                return None;
            },
        };
        proof {
            broadcast use vstd::utf8::encode_utf8_decode_utf8;

            assert(decode_utf8(b.subrange(8 + nlen + 9, 8 + nlen + 9 + rlen as int)) == reason@);
        }
        let dur = read_be8(buf, pos + 9 + rlen);
        proof {
            assert(b.subrange(8 + nlen + 9 + rlen as int, 8 + nlen + 9 + rlen + 8) =~= buf@
                .subrange(pos + 9 + rlen as int, pos + 9 + rlen + 8));
        }
        Some(
            StageReport {
                stage_name: name,
                status: StageStatus::Skipped(reason),
                duration: Duration::from_nanos(dur),
            },
        )
    } else {
        None
    }
}

/// The parent-side streaming decoder: an append-only buffer, a read
/// offset that only ever stands at frame boundaries, and a flag that
/// latches once a payload fails to parse, after which nothing more is
/// decoded from this stream.
pub struct StreamDecoder {
    pub buf: Vec<u8>,
    pub offset: usize,
    pub corrupt: bool,
    pub emitted: Ghost<Seq<StageModel>>,
}

/// What always holds of a decoder: everything before the offset is
/// exactly the frames of the reports decoded so far.
pub open spec fn decoder_inv(d: StreamDecoder) -> bool {
    &&& d.offset <= d.buf@.len()
    &&& spec_frames(d.emitted@) == d.buf@.take(d.offset as int)
}

impl StreamDecoder {
    pub fn new() -> (d: StreamDecoder)
        ensures
            decoder_inv(d),
            d.buf@.len() == 0,
            d.offset == 0,
            !d.corrupt,
            d.emitted@ == Seq::<StageModel>::empty(),
    {
        let d = StreamDecoder { buf: Vec::new(), offset: 0, corrupt: false, emitted: Ghost(Seq::empty()) };
        proof {
            assert(spec_frames(d.emitted@) =~= d.buf@.take(0));
        }
        d
    }

    /// Feeds freshly read bytes to the decoder.
    pub fn append(&mut self, data: &[u8])
        requires
            decoder_inv(*old(self)),
        ensures
            decoder_inv(*final(self)),
            final(self).buf@ == old(self).buf@ + data@,
            final(self).offset == old(self).offset,
            final(self).corrupt == old(self).corrupt,
            final(self).emitted == old(self).emitted,
    {
        self.buf.extend_from_slice(data);
        proof {
            assert(self.buf@.take(self.offset as int) =~= old(self).buf@.take(
                self.offset as int,
            ));
        }
    }

    /// Decodes the next report if a complete frame has arrived.
    ///
    /// The result is a function of the unread remainder of the buffer
    /// alone, however the bytes were chunked on their way in: one
    /// report if a complete well-formed frame stands there, nothing if
    /// bytes are still missing, and nothing ever again once a payload
    /// fails to parse.
    #[verifier::rlimit(100)]
    pub fn try_decode(&mut self) -> (r: Option<StageReport>)
        requires
            decoder_inv(*old(self)),
        ensures
            decoder_inv(*final(self)),
            final(self).buf == old(self).buf,
            old(self).corrupt ==> r is None && *final(self) == *old(self),
            !old(self).corrupt ==> (match spec_next_frame(
                old(self).buf@.skip(old(self).offset as int),
            ) {
                NextFrame::NeedMore => r is None && *final(self) == *old(self),
                NextFrame::Corrupt => r is None && final(self).corrupt && final(self).offset
                    == old(self).offset && final(self).emitted == old(self).emitted,
                NextFrame::Frame(m, consumed) => {
                    &&& r matches Some(rep)
                    &&& report_model(rep) == m
                    &&& final(self).offset == old(self).offset + consumed
                    &&& final(self).emitted@ == old(self).emitted@.push(m)
                    &&& !final(self).corrupt
                },
            }),
    {
        if self.corrupt {
            return None;
        }
        let ghost rem = self.buf@.skip(self.offset as int);
        let avail = self.buf.len() - self.offset;
        if avail < 8 {
            return None;
        }
        let len64 = read_be8(&self.buf, self.offset);
        proof {
            assert(rem.subrange(0, 8) =~= self.buf@.subrange(
                self.offset as int,
                self.offset + 8,
            ));
        }
        if ((avail - 8) as u64) < len64 {
            return None;
        }
        let plen = len64 as usize;
        let start = self.offset + 8;
        let end = start + plen;
        proof {
            assert(rem.subrange(8, 8 + plen as int) =~= self.buf@.subrange(
                start as int,
                end as int,
            ));
        }
        match decode_payload(&self.buf, start, end) {
            Some(rep) => {
                let ghost m = spec_parse_payload(self.buf@.subrange(start as int, end as int))->0;
                let ghost old_offset = self.offset as int;
                self.offset = end;
                proof {
                    self.emitted@ = self.emitted@.push(m);
                    lemma_frames_push(old(self).emitted@, m);
                    lemma_parse_payload_exact(self.buf@.subrange(start as int, end as int));
                    lemma_be8_bytes_round_trip(
                        self.buf@.subrange(old_offset, old_offset + 8),
                    );
                    assert(self.buf@.subrange(old_offset, old_offset + 8) =~= rem.subrange(0, 8));
                    assert(self.buf@.take(end as int) =~= self.buf@.take(old_offset) + self.buf@
                        .subrange(old_offset, old_offset + 8) + self.buf@.subrange(
                        start as int,
                        end as int,
                    ));
                    assert(spec_frames(self.emitted@) =~= self.buf@.take(end as int));
                }
                Some(rep)
            },
            None => {
                self.corrupt = true;
                None
            },
        }
    }
}

/// A 64-bit value appended to a buffer as eight big-endian bytes.
fn push_be8(w: &mut Vec<u8>, n: u64)
    ensures
        final(w)@ == old(w)@ + spec_be8(n),
{
    w.push(((n >> 56u64) & 0xff) as u8);
    w.push(((n >> 48u64) & 0xff) as u8);
    w.push(((n >> 40u64) & 0xff) as u8);
    w.push(((n >> 32u64) & 0xff) as u8);
    w.push(((n >> 24u64) & 0xff) as u8);
    w.push(((n >> 16u64) & 0xff) as u8);
    w.push(((n >> 8u64) & 0xff) as u8);
    w.push((n & 0xff) as u8);
    proof {
        assert(w@ =~= old(w)@ + spec_be8(n));
    }
}

/// A 32-bit value appended to a buffer as four big-endian bytes.
fn push_be4(w: &mut Vec<u8>, n: u32)
    ensures
        final(w)@ == old(w)@ + spec_be4(n),
{
    w.push(((n >> 24u32) & 0xff) as u8);
    w.push(((n >> 16u32) & 0xff) as u8);
    w.push(((n >> 8u32) & 0xff) as u8);
    w.push((n & 0xff) as u8);
    proof {
        assert(w@ =~= old(w)@ + spec_be4(n));
    }
}

/// The payload bytes of one stage report.
fn encode_payload(payload: &StageReport) -> (b: Vec<u8>)
    ensures
        b@ == spec_payload(report_model(*payload)),
{
    let mut b: Vec<u8> = Vec::new();
    let name_bytes = payload.stage_name.as_str().as_bytes();
    push_be8(&mut b, name_bytes.len() as u64);
    b.extend_from_slice(name_bytes);
    match &payload.status {
        StageStatus::Success => {
            b.push(0);
        },
        StageStatus::Failure(code) => {
            b.push(1);
            push_be4(&mut b, *code as u32);
        },
        StageStatus::Skipped(reason) => {
            b.push(2);
            let reason_bytes = reason.as_str().as_bytes();
            push_be8(&mut b, reason_bytes.len() as u64);
            b.extend_from_slice(reason_bytes);
        },
    }
    push_be8(&mut b, payload.duration.as_nanos());
    proof {
        assert(b@ =~= spec_payload(report_model(*payload)));
    }
    b
}

/// Writes one frame carrying the report to the buffer and returns how
/// many bytes that took.
pub fn serialize_and_write(w: &mut Vec<u8>, payload: &StageReport) -> (n: usize)
    ensures
        final(w)@ == old(w)@ + spec_frame(spec_payload(report_model(*payload))),
        n == spec_frame(spec_payload(report_model(*payload))).len(),
{
    let mut bytes = encode_payload(payload);
    let ghost payload_bytes = bytes@;
    let payload_len = bytes.len();
    push_be8(w, payload_len as u64);
    w.append(&mut bytes);
    let total = w.len();
    proof {
        assert(w@ =~= old(w)@ + spec_frame(payload_bytes));
        assert(total == old(w)@.len() + 8 + payload_len);
    }
    8 + payload_len
}

} // verus!
