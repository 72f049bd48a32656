use vstd::prelude::*;
use vstd::slice::slice_subrange;
use vstd::utf8::{decode_utf8, encode_utf8, valid_utf8};
use crate::model::{nat_seq, PollResponse, PollResult, ResponseView};

verus! {

/// The `n` low bytes of `x`, least significant first.
pub open spec fn le_bytes(x: nat, n: nat) -> Seq<u8>
    decreases n,
{
    if n == 0 {
        Seq::empty()
    } else {
        seq![(x % 256) as u8] + le_bytes(x / 256, (n - 1) as nat)
    }
}

/// The number that little-endian bytes stand for.
pub open spec fn le_value(b: Seq<u8>) -> nat
    decreases b.len(),
{
    if b.len() == 0 {
        0
    } else {
        b[0] as nat + 256 * le_value(b.drop_first())
    }
}

/// bincode's variable-length integer in its standard configuration: one
/// byte up to 250, else a marker (251, 252, 253) and 2, 4 or 8 little-endian
/// bytes.
pub open spec fn varint(x: nat) -> Seq<u8> {
    if x <= 250 {
        seq![x as u8]
    } else if x <= 0xFFFF {
        seq![251u8] + le_bytes(x, 2)
    } else if x <= 0xFFFF_FFFF {
        seq![252u8] + le_bytes(x, 4)
    } else {
        seq![253u8] + le_bytes(x, 8)
    }
}

/// The integer at the start of `b` as bincode reads a `u64` there, with the
/// count of bytes it takes; non-minimal forms are read too.
pub open spec fn varint_read(b: Seq<u8>) -> Option<(nat, nat)> {
    if b.len() == 0 {
        None
    } else if b[0] <= 250 {
        Some((b[0] as nat, 1))
    } else if b[0] == 251 && b.len() >= 3 {
        Some((le_value(b.subrange(1, 3)), 3))
    } else if b[0] == 252 && b.len() >= 5 {
        Some((le_value(b.subrange(1, 5)), 5))
    } else if b[0] == 253 && b.len() >= 9 {
        Some((le_value(b.subrange(1, 9)), 9))
    } else {
        None
    }
}

/// The bincode bytes (standard configuration) of a `u32`.
pub open spec fn bincode_u32(v: u32) -> Seq<u8> {
    varint(v as nat)
}

/// The bincode bytes (standard configuration) of a `usize`.
pub open spec fn bincode_usize(v: usize) -> Seq<u8> {
    varint(v as nat)
}

/// The bincode bytes (standard configuration) of a text: its byte length,
/// then its UTF-8 bytes.
pub open spec fn bincode_str(s: Seq<char>) -> Seq<u8> {
    bincode_usize(encode_utf8(s).len() as usize) + encode_utf8(s)
}

/// The bincode bytes of each of `v`, one after the other.
pub open spec fn usizes_bytes(v: Seq<usize>) -> Seq<u8>
    decreases v.len(),
{
    if v.len() == 0 {
        Seq::empty()
    } else {
        bincode_usize(v[0]) + usizes_bytes(v.drop_first())
    }
}

/// The bincode bytes (standard configuration) of a list of `usize`: its
/// length, then each item.
pub open spec fn bincode_usizes(v: Seq<usize>) -> Seq<u8> {
    bincode_usize(v.len() as usize) + usizes_bytes(v)
}

/// The length prefix that bincode reads at the start of `b` for a string or
/// a list, with the count of bytes it takes.
pub open spec fn len_prefix(b: Seq<u8>) -> Option<(nat, nat)> {
    varint_read(b)
}

/// The `u32` at the start of `b` as bincode reads it, with the count of bytes
/// it takes; the marker of an 8-byte form is refused.
pub open spec fn u32_read(b: Seq<u8>) -> Option<(nat, nat)> {
    if b.len() == 0 {
        None
    } else if b[0] <= 250 {
        Some((b[0] as nat, 1))
    } else if b[0] == 251 && b.len() >= 3 {
        Some((le_value(b.subrange(1, 3)), 3))
    } else if b[0] == 252 && b.len() >= 5 {
        Some((le_value(b.subrange(1, 5)), 5))
    } else {
        None
    }
}

/// A `usize` at the start of `b`: bincode's 64-bit varint, where it fits.
pub open spec fn usize_read(b: Seq<u8>) -> Option<(nat, nat)> {
    match varint_read(b) {
        Some((v, k)) => if v <= usize::MAX {
            Some((v, k))
        } else {
            None
        },
        None => None,
    }
}

/// The text at the start of `b` as bincode reads it: a length, then that many
/// bytes of valid UTF-8.
pub open spec fn string_read(b: Seq<u8>) -> Option<(Seq<char>, nat)> {
    match varint_read(b) {
        Some((n, k)) => if n <= usize::MAX && k + n <= b.len() && valid_utf8(
            b.subrange(k as int, (k + n) as int),
        ) {
            Some((decode_utf8(b.subrange(k as int, (k + n) as int)), k + n))
        } else {
            None
        },
        None => None,
    }
}

/// `n` varints one after the other at the start of `b`.
pub open spec fn items_read(b: Seq<u8>, n: nat) -> Option<(Seq<nat>, nat)>
    decreases n,
{
    if n == 0 {
        Some((Seq::empty(), 0))
    } else {
        match varint_read(b) {
            Some((v, k)) => match items_read(b.subrange(k as int, b.len() as int), (n - 1) as nat) {
                Some((vs, m)) => Some((seq![v] + vs, k + m)),
                None => None,
            },
            None => None,
        }
    }
}

/// The list of `u64` at the start of `b` as bincode reads it: a length no
/// larger than the bytes after it, then the items.
pub open spec fn u64s_read(b: Seq<u8>) -> Option<(Seq<nat>, nat)> {
    match varint_read(b) {
        Some((n, k)) => if n <= usize::MAX && k + n <= b.len() {
            match items_read(b.subrange(k as int, b.len() as int), n) {
                Some((vs, m)) => Some((vs, k + m)),
                None => None,
            }
        } else {
            None
        },
        None => None,
    }
}

/// The payload of an answer with variant position `tag` at the start of `b`.
pub open spec fn payload_read(tag: nat, b: Seq<u8>) -> Option<(ResponseView, nat)> {
    if tag == 0 {
        match string_read(b) {
            Some((t, m)) => Some((ResponseView::Text(t), m)),
            None => None,
        }
    } else if tag == 1 {
        match usize_read(b) {
            Some((v, m)) => Some((ResponseView::SingleChoice(v), m)),
            None => None,
        }
    } else if tag == 2 {
        match u64s_read(b) {
            Some((vs, m)) => if forall|i: int| 0 <= i < vs.len() ==> vs[i] <= usize::MAX {
                Some((ResponseView::MultipleChoice(vs), m))
            } else {
                None
            },
            None => None,
        }
    } else {
        None
    }
}

/// The answer at the start of `b`, with the count of bytes it takes.
pub open spec fn response_read(b: Seq<u8>) -> Option<(ResponseView, nat)> {
    match u32_read(b) {
        Some((t, n)) => match payload_read(t, b.subrange(n as int, b.len() as int)) {
            Some((a, m)) => Some((a, n + m)),
            None => None,
        },
        None => None,
    }
}

/// `count` answers one after the other at the start of `b`.
pub open spec fn responses_read(b: Seq<u8>, count: nat) -> Option<Seq<ResponseView>>
    decreases count,
{
    if count == 0 {
        Some(Seq::empty())
    } else {
        match response_read(b) {
            Some((a, n)) => match responses_read(b.subrange(n as int, b.len() as int), (count - 1) as nat) {
                Some(rs) => Some(seq![a] + rs),
                None => None,
            },
            None => None,
        }
    }
}

/// The submission that bytes `b` hold: a count, then that many answers;
/// bytes after them are ignored. `None` where `b` holds none.
pub open spec fn record_read(b: Seq<u8>) -> Option<Seq<ResponseView>> {
    match usize_read(b) {
        Some((c, k)) => responses_read(b.subrange(k as int, b.len() as int), c),
        None => None,
    }
}

/// `b` holds a submission.
pub open spec fn decodes(b: Seq<u8>) -> bool {
    record_read(b) is Some
}

/// `b` is exactly the stored bytes of some submission.
pub open spec fn is_encoding(b: Seq<u8>) -> bool {
    exists|x: PollResult| b == record_bytes(x)
}

/// Relies on `bincode::encode_to_vec` with the standard configuration, on a
/// `u32`: a varint, written to a `Vec`, which never fails.
#[verifier::external_body]
fn encode_u32(v: u32) -> (r: Option<Vec<u8>>)
    ensures
        match r {
            Some(b) => b@ == bincode_u32(v),
            None => false,
        },
{
    bincode::encode_to_vec(v, bincode::config::standard()).ok()
}

/// Relies on `bincode::encode_to_vec` with the standard configuration, on a
/// `usize`: a varint of the value as `u64`, written to a `Vec`, which never fails.
#[verifier::external_body]
fn encode_usize(v: usize) -> (r: Option<Vec<u8>>)
    ensures
        match r {
            Some(b) => b@ == bincode_usize(v),
            None => false,
        },
{
    bincode::encode_to_vec(v, bincode::config::standard()).ok()
}

/// Relies on `bincode::encode_to_vec` with the standard configuration, on a
/// text: its byte length as a varint, then its bytes; a `Vec` writer never fails.
#[verifier::external_body]
fn encode_str(s: &str) -> (r: Option<Vec<u8>>)
    ensures
        match r {
            Some(b) => b@ == bincode_usize(encode_utf8(s@).len() as usize) + encode_utf8(s@),
            None => false,
        },
{
    bincode::encode_to_vec(s, bincode::config::standard()).ok()
}

/// Relies on `bincode::encode_to_vec` with the standard configuration, on a
/// list of `usize`: its length, then each item, as varints; a `Vec` writer
/// never fails.
#[verifier::external_body]
fn encode_usizes(v: &Vec<usize>) -> (r: Option<Vec<u8>>)
    ensures
        match r {
            Some(b) => b@ == bincode_usizes(v@),
            None => false,
        },
{
    bincode::encode_to_vec(v, bincode::config::standard()).ok()
}

/// Relies on `bincode::decode_from_slice` with the standard configuration, on
/// a `u32`: it reads what `encode_to_vec` wrote, and reads no more bytes than
/// the slice has.
#[verifier::external_body]
fn decode_u32(b: &[u8]) -> (r: Option<(u32, usize)>)
    ensures
        match r {
            Some((v, n)) => u32_read(b@) == Some((v as nat, n as nat)),
            None => u32_read(b@) is None,
        },
        r matches Some((_, n)) ==> n <= b@.len(),
        forall|v: u32, rest: Seq<u8>|
            b@ == #[trigger] (bincode_u32(v) + rest) ==> r == Some((v, bincode_u32(v).len() as usize)),
{
    bincode::decode_from_slice::<u32, _>(b, bincode::config::standard()).ok()
}

/// Relies on `bincode::decode_from_slice` with the standard configuration, on
/// a `u64`: it reads a varint, and what `encode_to_vec` wrote for a `usize`
/// of the same value.
#[verifier::external_body]
fn decode_u64(b: &[u8]) -> (r: Option<(u64, usize)>)
    ensures
        match r {
            Some((v, n)) => varint_read(b@) == Some((v as nat, n as nat)),
            None => varint_read(b@) is None,
        },
        forall|v: usize, rest: Seq<u8>|
            b@ == #[trigger] (bincode_usize(v) + rest) ==> r == Some(
                (v as u64, bincode_usize(v).len() as usize),
            ),
{
    bincode::decode_from_slice::<u64, _>(b, bincode::config::standard()).ok()
}

/// Relies on `bincode::decode_from_slice` with the standard configuration, on
/// a `String`: it reads what `encode_to_vec` wrote for a text. It allocates the
/// claimed length before reading, so that length must fit in the slice.
#[verifier::external_body]
fn decode_string(b: &[u8]) -> (r: Option<(String, usize)>)
    requires
        len_prefix(b@) matches Some((n, k)) ==> n + k <= b@.len(),
    ensures
        match r {
            Some((t, n)) => string_read(b@) == Some((t@, n as nat)),
            None => string_read(b@) is None,
        },
        r matches Some((_, n)) ==> n <= b@.len(),
        forall|s: Seq<char>, rest: Seq<u8>|
            b@ == #[trigger] (bincode_str(s) + rest) ==> match r {
                Some((t, n)) => t@ == s && n == bincode_str(s).len(),
                None => false,
            },
{
    bincode::decode_from_slice::<String, _>(b, bincode::config::standard()).ok()
}

pub open spec fn u64_nats(w: Seq<u64>) -> Seq<nat> {
    w.map_values(|x: u64| x as nat)
}

/// Relies on `bincode::decode_from_slice` with the standard configuration, on
/// a list of `u64`: it reads what `encode_to_vec` wrote for a list of `usize`
/// of the same values. It reserves the claimed length before reading, so that
/// length must fit in the slice.
#[verifier::external_body]
fn decode_u64s(b: &[u8]) -> (r: Option<(Vec<u64>, usize)>)
    requires
        len_prefix(b@) matches Some((n, k)) ==> n + k <= b@.len(),
    ensures
        match r {
            Some((w, n)) => u64s_read(b@) == Some((u64_nats(w@), n as nat)),
            None => u64s_read(b@) is None,
        },
        r matches Some((_, n)) ==> n <= b@.len(),
        forall|v: Seq<usize>, rest: Seq<u8>|
            b@ == #[trigger] (bincode_usizes(v) + rest) ==> match r {
                Some((w, n)) => u64_nats(w@) == nat_seq(v) && n == bincode_usizes(v).len(),
                None => false,
            },
{
    bincode::decode_from_slice::<Vec<u64>, _>(b, bincode::config::standard()).ok()
}

/// The stored bytes of one answer: the variant's position, then its payload.
pub open spec fn response_bytes(r: PollResponse) -> Seq<u8> {
    match r {
        PollResponse::Text(t) => bincode_u32(0) + bincode_str(t@),
        PollResponse::SingleChoice(k) => bincode_u32(1) + bincode_usize(k),
        PollResponse::MultipleChoice(v) => bincode_u32(2) + bincode_usizes(v@),
    }
}

/// The position of an answer's variant.
pub open spec fn tag_of(r: PollResponse) -> u32 {
    match r {
        PollResponse::Text(_) => 0,
        PollResponse::SingleChoice(_) => 1,
        PollResponse::MultipleChoice(_) => 2,
    }
}

/// The payload of an answer, after its variant's position.
pub open spec fn payload_bytes(r: PollResponse) -> Seq<u8> {
    match r {
        PollResponse::Text(t) => bincode_str(t@),
        PollResponse::SingleChoice(k) => bincode_usize(k),
        PollResponse::MultipleChoice(v) => bincode_usizes(v@),
    }
}

/// The stored bytes of a list of answers, one after the other.
pub open spec fn responses_bytes(rs: Seq<PollResponse>) -> Seq<u8>
    decreases rs.len(),
{
    if rs.len() == 0 {
        Seq::empty()
    } else {
        response_bytes(rs[0]) + responses_bytes(rs.drop_first())
    }
}

/// The stored bytes of a submission: the count of answers, then each answer.
pub open spec fn record_bytes(r: PollResult) -> Seq<u8> {
    bincode_usize(r.0@.len() as usize) + responses_bytes(r.0@)
}

proof fn lemma_responses_bytes_push(rs: Seq<PollResponse>, x: PollResponse)
    ensures
        responses_bytes(rs.push(x)) == responses_bytes(rs) + response_bytes(x),
    decreases rs.len(),
{
    if rs.len() == 0 {
        assert(rs.push(x).drop_first() =~= Seq::<PollResponse>::empty());
        assert(responses_bytes(Seq::<PollResponse>::empty()) == Seq::<u8>::empty());
        assert(rs.push(x)[0] == x);
        assert(responses_bytes(rs.push(x)) =~= response_bytes(x));
    } else {
        assert(rs.push(x).drop_first() =~= rs.drop_first().push(x));
        lemma_responses_bytes_push(rs.drop_first(), x);
        assert(responses_bytes(rs.push(x)) =~= responses_bytes(rs) + response_bytes(x));
    }
}

proof fn lemma_usizes_bytes_len(v: Seq<usize>)
    ensures
        usizes_bytes(v).len() >= v.len(),
    decreases v.len(),
{
    if v.len() > 0 {
        lemma_usizes_bytes_len(v.drop_first());
    }
}

proof fn lemma_suffix(b: Seq<u8>, p: int, x: Seq<u8>, y: Seq<u8>)
    requires
        0 <= p <= b.len(),
        b.subrange(p, b.len() as int) == x + y,
    ensures
        b.subrange(p + x.len(), b.len() as int) == y,
{
    assert(b.subrange(p + x.len(), b.len() as int) =~= (x + y).subrange(x.len() as int, (x + y).len() as int));
    assert((x + y).subrange(x.len() as int, (x + y).len() as int) =~= y);
}

proof fn lemma_add_assoc(a: Seq<u8>, b: Seq<u8>, c: Seq<u8>)
    ensures
        (a + b) + c == a + (b + c),
{
    assert((a + b) + c =~= a + (b + c));
}

fn encode_response(r: &PollResponse) -> (res: Option<Vec<u8>>)
    ensures
        res matches Some(b) && b@ == response_bytes(*r),
{
    let (tag, payload) = match r {
        PollResponse::Text(t) => (encode_u32(0), encode_str(t.as_str())),
        PollResponse::SingleChoice(k) => (encode_u32(1), encode_usize(*k)),
        PollResponse::MultipleChoice(v) => (encode_u32(2), encode_usizes(v)),
    };
    match (tag, payload) {
        (Some(mut t), Some(mut p)) => {
            t.append(&mut p);
            Some(t)
        },
        _ => None,
    }
}

/// Encodes a submission for storage.
pub fn encode_record(r: &PollResult) -> (res: Option<Vec<u8>>)
    ensures
        res matches Some(b) && b@ == record_bytes(*r),
{
    let mut out = match encode_usize(r.0.len()) {
        Some(b) => b,
        None => return None,
    };
    let ghost head = out@;
    let mut i: usize = 0;
    while i < r.0.len()
        invariant
            i <= r.0@.len(),
            head == bincode_usize(r.0@.len() as usize),
            out@ == head + responses_bytes(r.0@.subrange(0, i as int)),
        decreases r.0@.len() - i,
    {
        let mut b = match encode_response(&r.0[i]) {
            Some(b) => b,
            None => return None,
        };
        out.append(&mut b);
        proof {
            let next = r.0@.subrange(0, i + 1);
            assert(next =~= r.0@.subrange(0, i as int).push(r.0@[i as int]));
            lemma_responses_bytes_push(r.0@.subrange(0, i as int), r.0@[i as int]);
            assert(out@ =~= head + responses_bytes(next));
        }
        i = i + 1;
    }
    assert(r.0@.subrange(0, r.0@.len() as int) =~= r.0@);
    Some(out)
}

/// Whether the length prefix at the start of `b` fits in the bytes after it.
fn prefix_fits(b: &[u8]) -> (r: bool)
    ensures
        r == (len_prefix(b@) matches Some((n, k)) ==> n + k <= b@.len()),
        forall|v: usize, rest: Seq<u8>|
            b@ == #[trigger] (bincode_usize(v) + rest) ==> (r == (v + bincode_usize(v).len()
                <= b@.len())),
{
    match decode_u64(b) {
        Some((n, k)) => n <= b.len() as u64 && k <= b.len() - (n as usize),
        None => true,
    }
}

/// Reads a `usize` at the start of `b`.
fn read_usize(b: &[u8]) -> (r: Option<(usize, usize)>)
    ensures
        match r {
            Some((v, n)) => usize_read(b@) == Some((v as nat, n as nat)) && n <= b@.len(),
            None => usize_read(b@) is None,
        },
        forall|v: usize, rest: Seq<u8>|
            b@ == #[trigger] (bincode_usize(v) + rest) ==> r == Some(
                (v, bincode_usize(v).len() as usize),
            ),
{
    proof {
        assert(vstd::slice::spec_slice_len(b) == b@.len());
    }
    match decode_u64(b) {
        Some((v, n)) => {
            if v <= usize::MAX as u64 {
                proof {
                    if varint_read(b@) is Some {
                        let bb = b@;
                        if bb[0] <= 250 {
                        } else if bb[0] == 251 {
                        } else if bb[0] == 252 {
                        } else {
                        }
                    }
                }
                Some((v as usize, n))
            } else {
                None
            }
        },
        None => None,
    }
}

/// Decodes the payload of a text answer at `p`.
fn decode_text(b: &[u8], p: usize) -> (r: Option<(PollResponse, usize)>)
    requires
        p <= b@.len(),
    ensures
        match r {
            Some((y, next)) => p <= next <= b@.len() && payload_read(
                0,
                b@.subrange(p as int, b@.len() as int),
            ) == Some((y@, (next - p) as nat)),
            None => payload_read(0, b@.subrange(p as int, b@.len() as int)) is None,
        },
        forall|s: Seq<char>, more: Seq<u8>|
            b@.subrange(p as int, b@.len() as int) == #[trigger] (bincode_str(s) + more) ==> (
            r matches Some((y, next)) && y@ == ResponseView::Text(s) && b@.subrange(
                next as int,
                b@.len() as int,
            ) == more),
{
    let rest = slice_subrange(b, p, b.len());
    let fits = prefix_fits(rest);
    proof {
        assert(vstd::slice::spec_slice_len(b) == b@.len());
        assert forall|s: Seq<char>, more: Seq<u8>|
            b@.subrange(p as int, b@.len() as int) == #[trigger] (bincode_str(s) + more) implies fits by {
            let u = encode_utf8(s);
            lemma_add_assoc(bincode_usize(u.len() as usize), u, more);
            assert(rest@ == bincode_usize(u.len() as usize) + (u + more));
        }
    }
    if !fits {
        return None;
    }
    match decode_string(rest) {
        Some((t, m)) => {
            proof {
                assert forall|s: Seq<char>, more: Seq<u8>|
                    b@.subrange(p as int, b@.len() as int) == #[trigger] (bincode_str(s) + more) implies (
                    t@ == s && b@.subrange(p + m, b@.len() as int) == more) by {
                    assert(rest@ == bincode_str(s) + more);
                    lemma_suffix(b@, p as int, bincode_str(s), more);
                }
            }
            Some((PollResponse::Text(t), p + m))
        },
        None => None,
    }
}

/// Decodes the payload of a single choice answer at `p`.
fn decode_single(b: &[u8], p: usize) -> (r: Option<(PollResponse, usize)>)
    requires
        p <= b@.len(),
    ensures
        match r {
            Some((y, next)) => p <= next <= b@.len() && payload_read(
                1,
                b@.subrange(p as int, b@.len() as int),
            ) == Some((y@, (next - p) as nat)),
            None => payload_read(1, b@.subrange(p as int, b@.len() as int)) is None,
        },
        forall|k: usize, more: Seq<u8>|
            b@.subrange(p as int, b@.len() as int) == #[trigger] (bincode_usize(k) + more) ==> (
            r matches Some((y, next)) && y@ == ResponseView::SingleChoice(k as nat) && b@.subrange(
                next as int,
                b@.len() as int,
            ) == more),
{
    let rest = slice_subrange(b, p, b.len());
    match read_usize(rest) {
        Some((k, m)) => {
            proof {
                assert forall|k2: usize, more: Seq<u8>|
                    b@.subrange(p as int, b@.len() as int) == #[trigger] (bincode_usize(k2) + more) implies (
                    k == k2 && b@.subrange(p + m, b@.len() as int) == more) by {
                    assert(rest@ == bincode_usize(k2) + more);
                    lemma_suffix(b@, p as int, bincode_usize(k2), more);
                }
            }
            Some((PollResponse::SingleChoice(k), p + m))
        },
        None => None,
    }
}

/// Narrows each item to `usize`; `None` where one does not fit.
fn narrow_all(w: &Vec<u64>) -> (r: Option<Vec<usize>>)
    ensures
        match r {
            Some(v) => nat_seq(v@) == u64_nats(w@),
            None => !(forall|i: int| 0 <= i < w@.len() ==> w@[i] <= usize::MAX),
        },
{
    let mut v: Vec<usize> = Vec::new();
    let mut i: usize = 0;
    while i < w.len()
        invariant
            i <= w@.len(),
            v@.len() == i,
            forall|j: int| 0 <= j < i ==> v@[j] as nat == w@[j] as nat,
        decreases w@.len() - i,
    {
        if w[i] > usize::MAX as u64 {
            return None;
        }
        v.push(w[i] as usize);
        i = i + 1;
    }
    assert(nat_seq(v@) =~= u64_nats(w@));
    Some(v)
}

/// Decodes the payload of a multiple choice answer at `p`.
fn decode_multiple(b: &[u8], p: usize) -> (r: Option<(PollResponse, usize)>)
    requires
        p <= b@.len(),
    ensures
        match r {
            Some((y, next)) => p <= next <= b@.len() && payload_read(
                2,
                b@.subrange(p as int, b@.len() as int),
            ) == Some((y@, (next - p) as nat)),
            None => payload_read(2, b@.subrange(p as int, b@.len() as int)) is None,
        },
        forall|v: Seq<usize>, more: Seq<u8>|
            b@.subrange(p as int, b@.len() as int) == #[trigger] (bincode_usizes(v) + more) ==> (
            r matches Some((y, next)) && y@ == ResponseView::MultipleChoice(nat_seq(v))
                && b@.subrange(next as int, b@.len() as int) == more),
{
    let rest = slice_subrange(b, p, b.len());
    let fits = prefix_fits(rest);
    proof {
        assert(vstd::slice::spec_slice_len(b) == b@.len());
        assert forall|v: Seq<usize>, more: Seq<u8>|
            b@.subrange(p as int, b@.len() as int) == #[trigger] (bincode_usizes(v) + more) implies fits by {
            lemma_add_assoc(bincode_usize(v.len() as usize), usizes_bytes(v), more);
            assert(rest@ == bincode_usize(v.len() as usize) + (usizes_bytes(v) + more));
            lemma_usizes_bytes_len(v);
        }
    }
    if !fits {
        return None;
    }
    match decode_u64s(rest) {
        Some((w, m)) => {
            match narrow_all(&w) {
                Some(v) => {
                    proof {
                        assert forall|i: int| 0 <= i < u64_nats(w@).len() implies u64_nats(w@)[i]
                            <= usize::MAX by {
                            assert(u64_nats(w@)[i] == nat_seq(v@)[i]);
                        }
                        assert forall|v2: Seq<usize>, more: Seq<u8>|
                            b@.subrange(p as int, b@.len() as int) == #[trigger] (bincode_usizes(v2)
                                + more) implies (nat_seq(v@) == nat_seq(v2) && b@.subrange(
                            p + m,
                            b@.len() as int,
                        ) == more) by {
                            assert(rest@ == bincode_usizes(v2) + more);
                            lemma_suffix(b@, p as int, bincode_usizes(v2), more);
                        }
                    }
                    Some((PollResponse::MultipleChoice(v), p + m))
                },
                None => {
                    proof {
                        let j = choose|j: int| 0 <= j < w@.len() && !(w@[j] <= usize::MAX);
                        assert(u64_nats(w@)[j] == w@[j] as nat);
                        assert forall|v2: Seq<usize>, more: Seq<u8>|
                            b@.subrange(p as int, b@.len() as int) != #[trigger] (bincode_usizes(v2)
                                + more) by {
                            if b@.subrange(p as int, b@.len() as int) == bincode_usizes(v2) + more {
                                assert(rest@ == bincode_usizes(v2) + more);
                                assert(u64_nats(w@) == nat_seq(v2));
                                assert forall|i: int| 0 <= i < w@.len() implies w@[i] <= usize::MAX by {
                                    assert(u64_nats(w@)[i] == nat_seq(v2)[i]);
                                }
                            }
                        }
                    }
                    None
                },
            }
        },
        None => None,
    }
}

/// Decodes one answer at `pos`, giving it with the position after it. The
/// bytes of an answer followed by anything decode to that answer.
fn decode_response(b: &[u8], pos: usize) -> (r: Option<(PollResponse, usize)>)
    requires
        pos <= b@.len(),
    ensures
        match r {
            Some((y, next)) => pos <= next <= b@.len() && response_read(
                b@.subrange(pos as int, b@.len() as int),
            ) == Some((y@, (next - pos) as nat)),
            None => response_read(b@.subrange(pos as int, b@.len() as int)) is None,
        },
        forall|a: PollResponse, more: Seq<u8>|
            b@.subrange(pos as int, b@.len() as int) == #[trigger] (response_bytes(a) + more) ==> (
            r matches Some((y, next)) && y@ == a@ && b@.subrange(next as int, b@.len() as int)
                == more),
{
    let rest = slice_subrange(b, pos, b.len());
    match decode_u32(rest) {
        None => {
            proof {
                assert forall|a: PollResponse, more: Seq<u8>|
                    b@.subrange(pos as int, b@.len() as int) != #[trigger] (response_bytes(a) + more) by {
                    lemma_add_assoc(bincode_u32(tag_of(a)), payload_bytes(a), more);
                    if rest@ == response_bytes(a) + more {
                        assert(rest@ == bincode_u32(tag_of(a)) + (payload_bytes(a) + more));
                    }
                }
            }
            None
        },
        Some((tag, n)) => {
            let p2 = pos + n;
            proof {
                assert(rest@.subrange(n as int, rest@.len() as int) =~= b@.subrange(
                    p2 as int,
                    b@.len() as int,
                ));
                assert forall|a: PollResponse, more: Seq<u8>|
                    b@.subrange(pos as int, b@.len() as int) == #[trigger] (response_bytes(a) + more) implies (
                    tag == tag_of(a) && b@.subrange(p2 as int, b@.len() as int) == payload_bytes(a) + more) by {
                    lemma_add_assoc(bincode_u32(tag_of(a)), payload_bytes(a), more);
                    assert(rest@ == bincode_u32(tag_of(a)) + (payload_bytes(a) + more));
                    lemma_suffix(b@, pos as int, bincode_u32(tag_of(a)), payload_bytes(a) + more);
                }
            }
            let res = if tag == 0 {
                decode_text(b, p2)
            } else if tag == 1 {
                decode_single(b, p2)
            } else if tag == 2 {
                decode_multiple(b, p2)
            } else {
                None
            };
            proof {
                assert forall|a: PollResponse, more: Seq<u8>|
                    b@.subrange(pos as int, b@.len() as int) == #[trigger] (response_bytes(a) + more) implies (
                    res matches Some((y, next)) && y@ == a@ && b@.subrange(next as int, b@.len() as int)
                        == more) by {
                    assert(b@.subrange(p2 as int, b@.len() as int) == payload_bytes(a) + more);
                    match a {
                        PollResponse::Text(t) => {
                            assert(b@.subrange(p2 as int, b@.len() as int) == bincode_str(t@) + more);
                        },
                        PollResponse::SingleChoice(k) => {
                            assert(b@.subrange(p2 as int, b@.len() as int) == bincode_usize(k) + more);
                        },
                        PollResponse::MultipleChoice(v) => {
                            assert(b@.subrange(p2 as int, b@.len() as int) == bincode_usizes(v@) + more);
                        },
                    }
                }
            }
            res
        },
    }
}

/// `rs` after `p`, where there is one.
pub open spec fn prepend(p: Seq<ResponseView>, rs: Option<Seq<ResponseView>>) -> Option<
    Seq<ResponseView>,
> {
    match rs {
        Some(t) => Some(p + t),
        None => None,
    }
}

proof fn lemma_responses_read_step(p: Seq<ResponseView>, cur: Seq<u8>, c: nat, a: ResponseView, k: nat)
    requires
        c > 0,
        response_read(cur) == Some((a, k)),
    ensures
        prepend(p, responses_read(cur, c)) == prepend(
            p.push(a),
            responses_read(cur.subrange(k as int, cur.len() as int), (c - 1) as nat),
        ),
{
    match responses_read(cur.subrange(k as int, cur.len() as int), (c - 1) as nat) {
        Some(rs) => {
            assert(p + (seq![a] + rs) =~= p.push(a) + rs);
        },
        None => {},
    }
}

/// Decodes a stored submission: exactly what `record_read` says the bytes
/// hold, so the bytes of a submission decode to it.
#[verifier::rlimit(60)]
pub fn decode_record(b: &[u8]) -> (r: Option<PollResult>)
    ensures
        match r {
            Some(y) => record_read(b@) == Some(y@),
            None => record_read(b@) is None,
        },
        forall|x: PollResult|
            b@ == #[trigger] record_bytes(x) ==> (r matches Some(y) && y@ == x@),
{
    let dec = read_usize(b);
    let (count, n) = match dec {
        Some(x) => x,
        None => {
            proof {
                assert forall|x: PollResult| b@ != #[trigger] record_bytes(x) by {
                    if b@ == record_bytes(x) {
                        assert(b@ == bincode_usize(x.0@.len() as usize) + responses_bytes(x.0@));
                    }
                }
            }
            return None;
        },
    };
    proof {
        assert forall|x: PollResult| b@ == #[trigger] record_bytes(x) implies {
            &&& x.0@.len() == count
            &&& b@.subrange(n as int, b@.len() as int) == responses_bytes(
                x.0@.subrange(0, count as int),
            )
        } by {
            vstd::std_specs::vec::axiom_spec_len(&x.0);
            let h = bincode_usize(x.0@.len() as usize);
            assert(b@ == h + responses_bytes(x.0@));
            assert(b@.subrange(0, b@.len() as int) =~= b@);
            assert(dec == Some((x.0@.len() as usize, h.len() as usize)));
            assert(vstd::slice::spec_slice_len(b) == b@.len());
            assert(count == x.0@.len() as usize);
            assert(n == h.len());
            lemma_suffix(b@, 0, h, responses_bytes(x.0@));
            assert(x.0@.subrange(0, count as int) =~= x.0@);
        }
    }
    let ghost whole = b@.subrange(n as int, b@.len() as int);
    let mut pos: usize = n;
    let mut answers: Vec<PollResponse> = Vec::new();
    let mut i: usize = 0;
    assert(b@.subrange(pos as int, b@.len() as int) == whole);
    assert(record_read(b@) == responses_read(whole, count as nat));
    assert(answers@.map_values(|q: PollResponse| q@) =~= Seq::<ResponseView>::empty());
    assert(prepend(Seq::<ResponseView>::empty(), responses_read(whole, count as nat))
        == responses_read(whole, count as nat)) by {
        match responses_read(whole, count as nat) {
            Some(t) => {
                assert(Seq::<ResponseView>::empty() + t =~= t);
            },
            None => {},
        }
    }
    while i < count
        invariant
            pos <= b@.len(),
            answers@.len() == i,
            i <= count,
            whole == b@.subrange(n as int, b@.len() as int),
            record_read(b@) == responses_read(whole, count as nat),
            responses_read(whole, count as nat) == prepend(
                answers@.map_values(|q: PollResponse| q@),
                responses_read(b@.subrange(pos as int, b@.len() as int), (count - i) as nat),
            ),
            forall|x: PollResult|
                b@ == #[trigger] record_bytes(x) ==> {
                    &&& x.0@.len() == count
                    &&& forall|j: int| 0 <= j < i ==> answers@[j]@ == #[trigger] x.0@[j]@
                    &&& b@.subrange(pos as int, b@.len() as int) == responses_bytes(
                        x.0@.subrange(i as int, count as int),
                    )
                },
        decreases count - i,
    {
        proof {
            assert forall|x: PollResult| b@ == #[trigger] record_bytes(x) implies b@.subrange(
                pos as int,
                b@.len() as int,
            ) == response_bytes(x.0@[i as int]) + responses_bytes(
                x.0@.subrange(i + 1, count as int),
            ) by {
                let s = x.0@.subrange(i as int, count as int);
                assert(s.drop_first() =~= x.0@.subrange(i + 1, count as int));
                assert(s[0] == x.0@[i as int]);
            }
        }
        let ghost cur = b@.subrange(pos as int, b@.len() as int);
        let (a, next) = match decode_response(b, pos) {
            Some(x) => x,
            None => {
                proof {
                    assert forall|x: PollResult| b@ != #[trigger] record_bytes(x) by {
                        if b@ == record_bytes(x) {
                            let more = responses_bytes(x.0@.subrange(i + 1, count as int));
                            assert(b@.subrange(pos as int, b@.len() as int) == response_bytes(
                                x.0@[i as int],
                            ) + more);
                        }
                    }
                    assert(responses_read(cur, (count - i) as nat) is None);
                    assert(record_read(b@) == responses_read(whole, count as nat));
                }
                return None;
            },
        };
        proof {
            assert forall|x: PollResult| b@ == #[trigger] record_bytes(x) implies {
                &&& a@ == x.0@[i as int]@
                &&& b@.subrange(next as int, b@.len() as int) == responses_bytes(
                    x.0@.subrange(i + 1, count as int),
                )
            } by {
                let more = responses_bytes(x.0@.subrange(i + 1, count as int));
                assert(b@.subrange(pos as int, b@.len() as int) == response_bytes(x.0@[i as int])
                    + more);
            }
            let nxt = b@.subrange(next as int, b@.len() as int);
            assert(cur.subrange((next - pos) as int, cur.len() as int) =~= nxt);
            let prev = answers@.map_values(|q: PollResponse| q@);
            let after = answers@.push(a).map_values(|q: PollResponse| q@);
            assert(after =~= prev.push(a@));
            lemma_responses_read_step(prev, cur, (count - i) as nat, a@, (next - pos) as nat);
        }
        answers.push(a);
        pos = next;
        i = i + 1;
    }
    let res = PollResult(answers);
    proof {
        assert(responses_read(b@.subrange(pos as int, b@.len() as int), 0) == Some(
            Seq::<ResponseView>::empty(),
        ));
        assert(answers@.map_values(|q: PollResponse| q@) + Seq::<ResponseView>::empty()
            =~= res@);
        assert(record_read(b@) == responses_read(whole, count as nat));
        assert forall|x: PollResult| b@ == #[trigger] record_bytes(x) implies res@ == x@ by {
            assert(res@ =~= x@);
        }
    }
    Some(res)
}

} // verus!
