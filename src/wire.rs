//! The framing of an index stream, stated over its bytes: a header, then
//! records of length-prefixed fields.

use vstd::prelude::*;

use crate::doc::{has_name, lemma_doc_has_identity_fields, spec_classify, EventView, NameView};
use crate::java::{be_i32, be_u16, be_u32, modified_utf8, signed_byte};
use vstd::arithmetic::div_mod::{lemma_fundamental_div_mod, lemma_fundamental_div_mod_converse};

verus! {

/// Why a stream cannot be framed. Past such an error nothing more can be
/// read, as the records have no marker to find the next one by.
#[derive(Clone, Copy, Debug, PartialEq, Eq, Structural)]
pub enum FrameError {
    /// The input ended inside a value.
    Truncated,
    /// The first byte is not the format version 1.
    Version(i8),
    /// A record declares a negative number of fields.
    FieldCount(i32),
    /// The flags of a field have a bit set above the four known ones.
    Flags(u8),
    /// A field name of length zero.
    EmptyName,
    /// A field value of negative length.
    ValueLength(i32),
    /// Text that is neither UTF-8 nor modified UTF-8.
    InvalidText,
}

/// A framing error, with the offset of the record it stopped in (0 for the
/// header) and the index of the field, where one was being read.
#[derive(Clone, Copy, Debug, PartialEq, Eq, Structural)]
pub struct DecodeError {
    pub offset: usize,
    pub field: Option<usize>,
    pub kind: FrameError,
}

/// Where a field's flags have no bit beyond INDEXED (1), TOKENIZED (2),
/// STORED (4) and COMPRESSED (8).
pub open spec fn known_flags(flags: u8) -> bool {
    flags < 16
}

/// A field as it stands in the stream.
pub struct RawField {
    pub flags: u8,
    pub name: Seq<u8>,
    pub value: Seq<u8>,
}

/// The name that a one-byte field name stands for: an ASCII character.
pub open spec fn byte_name(b: u8) -> NameView {
    if b == 0x75 {
        NameView::U
    } else if b == 0x69 {
        NameView::I
    } else if b == 0x6e {
        NameView::N
    } else if b == 0x6d {
        NameView::M
    } else if b == 0x64 {
        NameView::D
    } else if b == 0x31 {
        NameView::Checksum
    } else {
        NameView::Other(seq![b as char])
    }
}

pub open spec fn name_view(raw: Seq<u8>) -> NameView {
    if raw.len() == 1 {
        byte_name(raw[0])
    } else {
        NameView::Other(modified_utf8(raw)->0)
    }
}

/// The field that starts at `p`, and where it ends.
pub open spec fn field_at(b: Seq<u8>, p: int) -> Result<(RawField, int), FrameError> {
    if p + 1 > b.len() {
        Err(FrameError::Truncated)
    } else if !known_flags(b[p]) {
        Err(FrameError::Flags(b[p]))
    } else if p + 3 > b.len() {
        Err(FrameError::Truncated)
    } else if be_u16(b, p + 1) == 0 {
        Err(FrameError::EmptyName)
    } else if p + 3 + be_u16(b, p + 1) > b.len() {
        Err(FrameError::Truncated)
    } else {
        let q = p + 3 + be_u16(b, p + 1);
        let name = b.subrange(p + 3, q);
        if (name.len() >= 2 && modified_utf8(name) is None) || (name.len() == 1 && name[0] >= 0x80) {
            Err(FrameError::InvalidText)
        } else if q + 4 > b.len() {
            Err(FrameError::Truncated)
        } else if be_i32(b, q) < 0 {
            Err(FrameError::ValueLength(be_i32(b, q) as i32))
        } else if q + 4 + be_i32(b, q) > b.len() {
            Err(FrameError::Truncated)
        } else {
            let end = q + 4 + be_i32(b, q);
            let value = b.subrange(q + 4, end);
            if modified_utf8(value) is None {
                Err(FrameError::InvalidText)
            } else {
                Ok((RawField { flags: b[p], name, value }, end))
            }
        }
    }
}

/// The first `k` fields from `p`, and where they end; or the index of the
/// field that could not be read, and why.
pub open spec fn fields_from(b: Seq<u8>, p: int, k: nat) -> Result<
    (Seq<RawField>, int),
    (nat, FrameError),
>
    decreases k,
{
    if k == 0 {
        Ok((Seq::empty(), p))
    } else {
        match fields_from(b, p, (k - 1) as nat) {
            Err(e) => Err(e),
            Ok((fs, q)) => match field_at(b, q) {
                Err(e) => Err(((k - 1) as nat, e)),
                Ok((f, r)) => Ok((fs.push(f), r)),
            },
        }
    }
}

/// The record that starts at `p`: a field count, then that many fields.
pub open spec fn record_at(b: Seq<u8>, p: int) -> Result<(Seq<RawField>, int), DecodeError> {
    if p + 4 > b.len() {
        Err(DecodeError { offset: p as usize, field: None, kind: FrameError::Truncated })
    } else if be_i32(b, p) < 0 {
        Err(
            DecodeError {
                offset: p as usize,
                field: None,
                kind: FrameError::FieldCount(be_i32(b, p) as i32),
            },
        )
    } else {
        match fields_from(b, p + 4, be_i32(b, p) as nat) {
            Err((i, e)) => Err(DecodeError { offset: p as usize, field: Some(i as usize), kind: e }),
            Ok(r) => Ok(r),
        }
    }
}

/// Once a field cannot be read, no later count of fields can be.
pub proof fn lemma_fields_err(b: Seq<u8>, p: int, i: nat, n: nat)
    requires
        i < n,
        fields_from(b, p, i + 1) is Err,
    ensures
        fields_from(b, p, n) == fields_from(b, p, i + 1),
    decreases n,
{
    if n > i + 1 {
        lemma_fields_err(b, p, i, (n - 1) as nat);
    }
}

proof fn lemma_field_advances(b: Seq<u8>, p: int)
    ensures
        field_at(b, p) matches Ok((_, q)) ==> q > p,
{
}

proof fn lemma_fields_advance(b: Seq<u8>, p: int, k: nat)
    ensures
        fields_from(b, p, k) matches Ok((_, q)) ==> q >= p,
    decreases k,
{
    if k > 0 {
        lemma_fields_advance(b, p, (k - 1) as nat);
        if let Ok((_, q)) = fields_from(b, p, (k - 1) as nat) {
            lemma_field_advances(b, q);
        }
    }
}

pub proof fn lemma_record_advances(b: Seq<u8>, p: int)
    ensures
        record_at(b, p) matches Ok((_, q)) ==> q >= p + 4,
{
    if p + 4 <= b.len() && be_i32(b, p) >= 0 {
        lemma_fields_advance(b, p + 4, be_i32(b, p) as nat);
    }
}

/// The records from `p` to the end, and the error that stopped them, if one
/// did.
pub open spec fn records_from(b: Seq<u8>, p: int) -> (Seq<Seq<RawField>>, Option<DecodeError>)
    decreases b.len() - p,
{
    if p >= b.len() {
        (Seq::empty(), None)
    } else {
        match record_at(b, p) {
            Err(e) => (Seq::empty(), Some(e)),
            Ok((fs, q)) => {
                proof {
                    lemma_record_advances(b, p);
                }
                let rest = records_from(b, q);
                (seq![fs] + rest.0, rest.1)
            },
        }
    }
}

/// The length of the header: the version byte and an eight-byte timestamp.
pub open spec fn header_len() -> int {
    9
}

/// Why the header cannot be read, if it cannot.
pub open spec fn header_error(b: Seq<u8>) -> Option<DecodeError> {
    if b.len() < 1 {
        Some(DecodeError { offset: 0, field: None, kind: FrameError::Truncated })
    } else if b[0] != 1 {
        Some(
            DecodeError {
                offset: 0,
                field: None,
                kind: FrameError::Version(signed_byte(b[0]) as i8),
            },
        )
    } else if b.len() < 9 {
        Some(DecodeError { offset: 0, field: None, kind: FrameError::Truncated })
    } else {
        None
    }
}

/// The fields of a record as names and texts.
pub open spec fn record_view(r: Seq<RawField>) -> Seq<(NameView, Seq<char>)> {
    r.map_values(|f: RawField| (name_view(f.name), modified_utf8(f.value)->0))
}

/// The events that records stand for, in order.
pub open spec fn events_of(rs: Seq<Seq<RawField>>) -> Seq<EventView>
    decreases rs.len(),
{
    if rs.len() == 0 {
        Seq::empty()
    } else {
        let rest = events_of(rs.skip(1));
        match spec_classify(record_view(rs[0])) {
            Some(e) => seq![e] + rest,
            None => rest,
        }
    }
}

/// The events from `p` on, and the error that stopped them, if one did.
pub open spec fn stream_from(b: Seq<u8>, p: int) -> (Seq<EventView>, Option<DecodeError>) {
    (events_of(records_from(b, p).0), records_from(b, p).1)
}

/// Each event of a stream comes from one of its records: a document from a
/// record with the fields `u`, `i` and `m`, and an error together with the
/// fields of its record.
pub proof fn lemma_events_from_records(rs: Seq<Seq<RawField>>, i: int)
    requires
        0 <= i < events_of(rs).len(),
    ensures
        exists|j: int|
            0 <= j < rs.len() && spec_classify(record_view(#[trigger] rs[j])) == Some(
                events_of(rs)[i],
            ) && (events_of(rs)[i] is Doc ==> has_name(record_view(rs[j]), NameView::U)
                && has_name(record_view(rs[j]), NameView::I) && has_name(
                record_view(rs[j]),
                NameView::M,
            )) && (events_of(rs)[i] matches EventView::Error { raw, .. } ==> raw == record_view(
                rs[j],
            )),
    decreases rs.len(),
{
    let rest = events_of(rs.skip(1));
    lemma_doc_has_identity_fields(record_view(rs[0]));
    match spec_classify(record_view(rs[0])) {
        Some(e) => {
            if i == 0 {
                assert(events_of(rs)[0] == e);
            } else {
                assert(events_of(rs)[i] == rest[i - 1]);
                lemma_events_from_records(rs.skip(1), i - 1);
                let j = choose|j: int|
                    0 <= j < rs.skip(1).len() && spec_classify(
                        record_view(#[trigger] rs.skip(1)[j]),
                    ) == Some(rest[i - 1]) && (rest[i - 1] is Doc ==> has_name(
                        record_view(rs.skip(1)[j]),
                        NameView::U,
                    ) && has_name(record_view(rs.skip(1)[j]), NameView::I) && has_name(
                        record_view(rs.skip(1)[j]),
                        NameView::M,
                    )) && (rest[i - 1] matches EventView::Error { raw, .. } ==> raw == record_view(
                        rs.skip(1)[j],
                    ));
                assert(rs.skip(1)[j] == rs[j + 1]);
            }
        },
        None => {
            lemma_events_from_records(rs.skip(1), i);
            let j = choose|j: int|
                0 <= j < rs.skip(1).len() && spec_classify(record_view(#[trigger] rs.skip(1)[j]))
                    == Some(rest[i]) && (rest[i] is Doc ==> has_name(
                    record_view(rs.skip(1)[j]),
                    NameView::U,
                ) && has_name(record_view(rs.skip(1)[j]), NameView::I) && has_name(
                    record_view(rs.skip(1)[j]),
                    NameView::M,
                )) && (rest[i] matches EventView::Error { raw, .. } ==> raw == record_view(
                    rs.skip(1)[j],
                ));
            assert(rs.skip(1)[j] == rs[j + 1]);
        },
    }
}

// ---------------------------------------------------------------------------
// Encoding

/// The two bytes that write `v` big-endian.
pub open spec fn be_bytes2(v: int) -> Seq<u8> {
    seq![(v / 0x100) as u8, (v % 0x100) as u8]
}

/// The four bytes that write `v` big-endian.
pub open spec fn be_bytes4(v: int) -> Seq<u8> {
    be_bytes2(v / 0x1_0000) + be_bytes2(v % 0x1_0000)
}

/// The bytes of a field: flags, name length, name, value length, value.
pub open spec fn encode_field(f: RawField) -> Seq<u8> {
    seq![f.flags] + be_bytes2(f.name.len() as int) + f.name + be_bytes4(f.value.len() as int)
        + f.value
}

pub open spec fn encode_fields(fs: Seq<RawField>) -> Seq<u8>
    decreases fs.len(),
{
    if fs.len() == 0 {
        Seq::empty()
    } else {
        encode_fields(fs.drop_last()) + encode_field(fs.last())
    }
}

/// The bytes of a record: its field count, then its fields.
pub open spec fn encode_record(fs: Seq<RawField>) -> Seq<u8> {
    be_bytes4(fs.len() as int) + encode_fields(fs)
}

pub open spec fn encode_records(rs: Seq<Seq<RawField>>) -> Seq<u8>
    decreases rs.len(),
{
    if rs.len() == 0 {
        Seq::empty()
    } else {
        encode_record(rs[0]) + encode_records(rs.skip(1))
    }
}

proof fn lemma_be2(b: Seq<u8>, p: int)
    requires
        0 <= p,
        p + 2 <= b.len(),
    ensures
        be_bytes2(be_u16(b, p)) == b.subrange(p, p + 2),
{
    lemma_fundamental_div_mod_converse(be_u16(b, p), 0x100, b[p] as int, b[p + 1] as int);
    assert(be_bytes2(be_u16(b, p)) =~= b.subrange(p, p + 2));
}

proof fn lemma_be4(b: Seq<u8>, p: int)
    requires
        0 <= p,
        p + 4 <= b.len(),
    ensures
        be_bytes4(be_u32(b, p)) == b.subrange(p, p + 4),
{
    lemma_fundamental_div_mod_converse(be_u32(b, p), 0x1_0000, be_u16(b, p), be_u16(b, p + 2));
    lemma_be2(b, p);
    lemma_be2(b, p + 2);
    assert(b.subrange(p, p + 2) + b.subrange(p + 2, p + 4) =~= b.subrange(p, p + 4));
}

proof fn lemma_field_bytes(b: Seq<u8>, p: int)
    requires
        0 <= p,
    ensures
        field_at(b, p) matches Ok((f, q)) ==> q <= b.len() && b.subrange(p, q) == encode_field(f),
{
    if let Ok((f, q)) = field_at(b, p) {
        let r = p + 3 + be_u16(b, p + 1);
        lemma_be2(b, p + 1);
        lemma_be4(b, r);
        assert(b.subrange(p, q) =~= seq![b[p]] + b.subrange(p + 1, p + 3) + b.subrange(p + 3, r)
            + b.subrange(r, r + 4) + b.subrange(r + 4, q));
    }
}

proof fn lemma_fields_bytes(b: Seq<u8>, p: int, k: nat)
    requires
        0 <= p <= b.len(),
    ensures
        fields_from(b, p, k) matches Ok((fs, q)) ==> p <= q <= b.len() && fs.len() == k
            && b.subrange(p, q) == encode_fields(fs),
    decreases k,
{
    if k > 0 {
        lemma_fields_bytes(b, p, (k - 1) as nat);
        if let Ok((fs, q)) = fields_from(b, p, (k - 1) as nat) {
            lemma_field_bytes(b, q);
            lemma_field_advances(b, q);
            if let Ok((f, r)) = field_at(b, q) {
                assert(fs.push(f).drop_last() =~= fs);
                assert(b.subrange(p, r) =~= b.subrange(p, q) + b.subrange(q, r));
            }
        }
    }
}

proof fn lemma_record_bytes(b: Seq<u8>, p: int)
    requires
        0 <= p <= b.len(),
    ensures
        record_at(b, p) matches Ok((fs, q)) ==> p + 4 <= q <= b.len() && b.subrange(p, q)
            == encode_record(fs),
{
    if let Ok((fs, q)) = record_at(b, p) {
        lemma_be4(b, p);
        lemma_fields_bytes(b, p + 4, be_i32(b, p) as nat);
        assert(b.subrange(p, q) =~= b.subrange(p, p + 4) + b.subrange(p + 4, q));
    }
}

proof fn lemma_records_bytes(b: Seq<u8>, p: int)
    requires
        0 <= p <= b.len(),
        records_from(b, p).1 is None,
    ensures
        b.skip(p) == encode_records(records_from(b, p).0),
    decreases b.len() - p,
{
    if p >= b.len() {
        assert(b.skip(p) =~= Seq::<u8>::empty());
    } else if let Ok((fs, q)) = record_at(b, p) {
        lemma_record_bytes(b, p);
        lemma_records_bytes(b, q);
        let rs = records_from(b, p).0;
        assert(rs.skip(1) =~= records_from(b, q).0);
        assert(b.skip(p) =~= b.subrange(p, q) + b.skip(q));
    }
}

/// A stream that decodes without error is its header followed by the bytes
/// of its records, each re-encoded from its fields, in order: the records
/// that stand for events and those that are passed over alike.
pub proof fn lemma_round_trip(b: Seq<u8>)
    requires
        header_error(b) is None,
        records_from(b, header_len()).1 is None,
    ensures
        b == b.take(header_len()) + encode_records(records_from(b, header_len()).0),
{
    lemma_records_bytes(b, header_len());
    assert(b =~= b.take(header_len()) + b.skip(header_len()));
}

// ---------------------------------------------------------------------------
// Decoding what was encoded

/// A field that the format can carry: known flags, a name of one ASCII
/// byte or of decodable text up to 65535 bytes, a value of decodable text
/// shorter than 2^31 bytes.
pub open spec fn wf_field(f: RawField) -> bool {
    &&& known_flags(f.flags)
    &&& 1 <= f.name.len() < 0x1_0000
    &&& (f.name.len() == 1 ==> f.name[0] < 0x80)
    &&& (f.name.len() >= 2 ==> modified_utf8(f.name) is Some)
    &&& f.value.len() < 0x8000_0000
    &&& modified_utf8(f.value) is Some
}

pub open spec fn wf_record(fs: Seq<RawField>) -> bool {
    fs.len() < 0x8000_0000 && forall|i: int| 0 <= i < fs.len() ==> wf_field(#[trigger] fs[i])
}

proof fn lemma_be2_inv(b: Seq<u8>, p: int, n: int)
    requires
        0 <= p,
        p + 2 <= b.len(),
        0 <= n < 0x1_0000,
        b.subrange(p, p + 2) == be_bytes2(n),
    ensures
        be_u16(b, p) == n,
{
    lemma_fundamental_div_mod(n, 0x100);
    assert(b[p] == b.subrange(p, p + 2)[0]);
    assert(b[p + 1] == b.subrange(p, p + 2)[1]);
    assert(0 <= n / 0x100 < 0x100) by (nonlinear_arith)
        requires
            0 <= n < 0x1_0000,
    ;
}

proof fn lemma_be4_inv(b: Seq<u8>, p: int, n: int)
    requires
        0 <= p,
        p + 4 <= b.len(),
        0 <= n < 0x1_0000_0000,
        b.subrange(p, p + 4) == be_bytes4(n),
    ensures
        be_u32(b, p) == n,
{
    lemma_fundamental_div_mod(n, 0x1_0000);
    assert(0 <= n / 0x1_0000 < 0x1_0000) by (nonlinear_arith)
        requires
            0 <= n < 0x1_0000_0000,
    ;
    assert(b.subrange(p, p + 2) =~= b.subrange(p, p + 4).subrange(0, 2));
    assert(b.subrange(p + 2, p + 4) =~= b.subrange(p, p + 4).subrange(2, 4));
    assert(be_bytes4(n).subrange(0, 2) =~= be_bytes2(n / 0x1_0000));
    assert(be_bytes4(n).subrange(2, 4) =~= be_bytes2(n % 0x1_0000));
    lemma_be2_inv(b, p, n / 0x1_0000);
    lemma_be2_inv(b, p + 2, n % 0x1_0000);
}

/// Where the input holds the first `k` bytes of `e` at `p`, it holds each
/// part of them there.
proof fn lemma_window(b: Seq<u8>, p: int, e: Seq<u8>, k: int, x: int, y: int)
    requires
        0 <= p,
        0 <= x <= y <= k <= e.len(),
        p + k <= b.len(),
        b.subrange(p, p + k) == e.take(k),
    ensures
        b.subrange(p + x, p + y) == e.subrange(x, y),
{
    assert forall|i: int| 0 <= i < y - x implies b.subrange(p + x, p + y)[i] == e.subrange(x, y)[i] by {
        assert(b.subrange(p, p + k)[x + i] == b[p + x + i]);
        assert(e.take(k)[x + i] == e[x + i]);
    }
    assert(b.subrange(p + x, p + y) =~= e.subrange(x, y));
}

/// The first `k` bytes of a field's encoding at `p`: the whole field reads
/// back as itself, and a part of it at the end of the input is truncated.
proof fn lemma_field_prefix(b: Seq<u8>, p: int, f: RawField, k: int)
    requires
        wf_field(f),
        0 <= p,
        0 <= k <= encode_field(f).len(),
        p + k <= b.len(),
        b.subrange(p, p + k) == encode_field(f).take(k),
        k < encode_field(f).len() ==> b.len() == p + k,
    ensures
        k == encode_field(f).len() ==> field_at(b, p) == Ok::<(RawField, int), FrameError>(
            (f, p + k),
        ),
        k < encode_field(f).len() ==> field_at(b, p) == Err::<(RawField, int), FrameError>(
            FrameError::Truncated,
        ),
{
    let e = encode_field(f);
    let n = f.name.len() as int;
    let v = f.value.len() as int;
    assert(e.len() == 7 + n + v);
    if k >= 1 {
        assert(b[p] == b.subrange(p, p + k)[0]);
        assert(e[0] == f.flags);
    }
    if k >= 3 {
        lemma_window(b, p, e, k, 1, 3);
        assert(e.subrange(1, 3) =~= be_bytes2(n));
        lemma_be2_inv(b, p + 1, n);
    }
    if k >= 3 + n {
        lemma_window(b, p, e, k, 3, 3 + n);
        assert(e.subrange(3, 3 + n) =~= f.name);
        if n == 1 {
            assert(b.subrange(p + 3, p + 3 + n)[0] == f.name[0]);
        }
    }
    if k >= 7 + n {
        let q = p + 3 + n;
        lemma_window(b, p, e, k, 3 + n, 7 + n);
        assert(e.subrange(3 + n, 7 + n) =~= be_bytes4(v));
        lemma_be4_inv(b, q, v);
    }
    if k == e.len() {
        lemma_window(b, p, e, k, 7 + n, 7 + n + v);
        assert(e.subrange(7 + n, 7 + n + v) =~= f.value);
    }
}

/// The encoding of the first `j` fields, at `p`, reads back as those fields.
proof fn lemma_fields_full(b: Seq<u8>, p: int, fs: Seq<RawField>)
    requires
        0 <= p,
        p + encode_fields(fs).len() <= b.len(),
        b.subrange(p, p + encode_fields(fs).len()) == encode_fields(fs),
        forall|i: int| 0 <= i < fs.len() ==> wf_field(#[trigger] fs[i]),
    ensures
        fields_from(b, p, fs.len()) == Ok::<(Seq<RawField>, int), (nat, FrameError)>(
            (fs, p + encode_fields(fs).len()),
        ),
    decreases fs.len(),
{
    if fs.len() == 0 {
        assert(fs =~= Seq::<RawField>::empty());
    } else {
        let init = fs.drop_last();
        let f = fs.last();
        let m = encode_fields(init).len() as int;
        let l = encode_field(f).len() as int;
        let all = encode_fields(fs);
        assert(all == encode_fields(init) + encode_field(f));
        assert(all.take(all.len() as int) =~= all);
        lemma_window(b, p, all, all.len() as int, 0, m);
        assert(all.subrange(0, m) =~= encode_fields(init));
        assert(forall|i: int| 0 <= i < init.len() ==> init[i] == fs[i]);
        lemma_fields_full(b, p, init);
        lemma_window(b, p, all, all.len() as int, m, m + l);
        assert(all.subrange(m, m + l) =~= encode_field(f));
        assert(b.subrange(p + m, p + m + l) =~= encode_field(f).take(l));
        assert(wf_field(fs[fs.len() - 1]));
        lemma_field_prefix(b, p + m, f, l);
        assert(init.push(f) =~= fs);
        assert((fs.len() - 1) as nat == init.len());
        assert(fields_from(b, p, (fs.len() - 1) as nat) == Ok::<
            (Seq<RawField>, int),
            (nat, FrameError),
        >((init, p + m)));
        assert(field_at(b, p + m) == Ok::<(RawField, int), FrameError>((f, p + m + l)));
    }
}

/// A proper part of the encoding of fields, at the end of the input, fails
/// at some field.
proof fn lemma_fields_cut(b: Seq<u8>, p: int, fs: Seq<RawField>, k: int)
    requires
        0 <= p,
        0 <= k < encode_fields(fs).len(),
        b.len() == p + k,
        b.subrange(p, p + k) == encode_fields(fs).take(k),
        forall|i: int| 0 <= i < fs.len() ==> wf_field(#[trigger] fs[i]),
    ensures
        fields_from(b, p, fs.len()) is Err,
    decreases fs.len(),
{
    let init = fs.drop_last();
    let f = fs.last();
    let m = encode_fields(init).len() as int;
    assert(encode_fields(fs) == encode_fields(init) + encode_field(f));
    assert(forall|i: int| 0 <= i < init.len() ==> init[i] == fs[i]);
    assert(wf_field(fs[fs.len() - 1]));
    let all = encode_fields(fs);
    if k < m {
        lemma_window(b, p, all, k, 0, k);
        assert(all.subrange(0, k) =~= encode_fields(init).take(k));
        assert(b.subrange(p, p + k) =~= encode_fields(init).take(k));
        lemma_fields_cut(b, p, init, k);
        lemma_fields_err_from(b, p, init.len() as nat, fs.len() as nat);
    } else {
        lemma_window(b, p, all, k, 0, m);
        assert(all.subrange(0, m) =~= encode_fields(init));
        lemma_fields_full(b, p, init);
        lemma_window(b, p, all, k, m, k);
        assert(all.subrange(m, k) =~= encode_field(f).take(k - m));
        lemma_field_prefix(b, p + m, f, k - m);
    }
}

/// Once some count of fields fails, every larger count fails.
proof fn lemma_fields_err_from(b: Seq<u8>, p: int, j: nat, n: nat)
    requires
        j <= n,
        fields_from(b, p, j) is Err,
    ensures
        fields_from(b, p, n) is Err,
    decreases n,
{
    if n > j {
        lemma_fields_err_from(b, p, j, (n - 1) as nat);
    }
}

proof fn lemma_record_prefix(b: Seq<u8>, p: int, r: Seq<RawField>, k: int)
    requires
        wf_record(r),
        0 <= p,
        0 < k <= encode_record(r).len(),
        p + k <= b.len(),
        b.subrange(p, p + k) == encode_record(r).take(k),
        k < encode_record(r).len() ==> b.len() == p + k,
    ensures
        k == encode_record(r).len() ==> record_at(b, p) == Ok::<
            (Seq<RawField>, int),
            DecodeError,
        >((r, p + k)),
        k < encode_record(r).len() ==> record_at(b, p) is Err,
{
    let e = encode_record(r);
    if k >= 4 {
        lemma_window(b, p, e, k, 0, 4);
        assert(e.subrange(0, 4) =~= be_bytes4(r.len() as int));
        lemma_be4_inv(b, p, r.len() as int);
        lemma_window(b, p, e, k, 4, k);
        assert(e.subrange(4, k) =~= encode_fields(r).take(k - 4));
        if k == e.len() {
            assert(encode_fields(r).take(k - 4) =~= encode_fields(r));
            lemma_fields_full(b, p + 4, r);
        } else {
            lemma_fields_cut(b, p + 4, r, k - 4);
        }
    }
}

#[verifier::rlimit(50)]
proof fn lemma_records_then_cut(b: Seq<u8>, p: int, rs: Seq<Seq<RawField>>, r: Seq<RawField>, k: int)
    requires
        0 <= p <= b.len(),
        forall|i: int| 0 <= i < rs.len() ==> wf_record(#[trigger] rs[i]),
        wf_record(r),
        0 < k < encode_record(r).len(),
        b.skip(p) == encode_records(rs) + encode_record(r).take(k),
    ensures
        records_from(b, p).0 == rs,
        records_from(b, p).1 is Some,
    decreases rs.len(),
{
    let tail = encode_record(r).take(k);
    assert(tail.len() == k);
    assert(b.skip(p).len() == b.len() - p);
    assert(b.len() == p + encode_records(rs).len() + k);
    if rs.len() == 0 {
        assert(b.subrange(p, p + k) =~= b.skip(p));
        lemma_record_prefix(b, p, r, k);
    } else {
        let l = encode_record(rs[0]).len() as int;
        assert(encode_records(rs) == encode_record(rs[0]) + encode_records(rs.skip(1)));
        assert(b.subrange(p, p + l) =~= b.skip(p).subrange(0, l));
        assert(b.skip(p).subrange(0, l) =~= encode_record(rs[0]));
        assert(encode_record(rs[0]).take(l) =~= encode_record(rs[0]));
        lemma_record_prefix(b, p, rs[0], l);
        let rest = encode_records(rs.skip(1));
        assert(b.skip(p) == encode_record(rs[0]) + rest + tail);
        assert(b.skip(p + l) =~= b.skip(p).skip(l));
        assert((encode_record(rs[0]) + rest + tail).skip(l) =~= rest + tail);
        assert(forall|i: int| 0 <= i < rs.skip(1).len() ==> rs.skip(1)[i] == rs[i + 1]);
        lemma_records_then_cut(b, p + l, rs.skip(1), r, k);
        assert(seq![rs[0]] + rs.skip(1) =~= rs);
    }
}

/// A stream of well-formed records that ends with a proper, nonempty part
/// of one more record ends in a framing error, after exactly the complete
/// records, and so after exactly their events.
pub proof fn lemma_partial_record_fails(
    b: Seq<u8>,
    rs: Seq<Seq<RawField>>,
    r: Seq<RawField>,
    k: int,
)
    requires
        header_error(b) is None,
        forall|i: int| 0 <= i < rs.len() ==> wf_record(#[trigger] rs[i]),
        wf_record(r),
        0 < k < encode_record(r).len(),
        b.skip(header_len()) == encode_records(rs) + encode_record(r).take(k),
    ensures
        records_from(b, header_len()).0 == rs,
        stream_from(b, header_len()).0 == events_of(rs),
        stream_from(b, header_len()).1 is Some,
{
    lemma_records_then_cut(b, header_len(), rs, r, k);
}

} // verus!
