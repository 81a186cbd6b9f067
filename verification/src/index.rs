//! The walk over an index image: the fixed prefix, the base information,
//! the key and unique definitions, and the field descriptions.

use vstd::prelude::*;
use vstd::slice::slice_subrange;
use crate::bytes::{available, be_value, lemma_be_value_bound, lemma_pow256_values, span, to_u32, ByteReader};
use crate::error::{DecodeError, HeaderField};
use crate::table::{MIRecDef, MITableBase, MITableHeader, MITableState};

verus! {

/// The length of the fixed prefix.
pub const HEADER_LEN: u64 = 32;

/// The length of the base information.
pub const BASE_INFO_LEN: u64 = 100;

/// The length of a key definition before its segments.
pub const KEYDEF_LEN: u64 = 12;

/// The length of a unique definition before its segments.
pub const UNIQUEDEF_LEN: u64 = 4;

/// The length of one key segment.
pub const KEYSEG_LEN: u64 = 18;

/// The length of one field description.
pub const FIELDREC_LEN: u64 = 7;

/// The number in bytes `start..end` of `bytes`, read big-endian.
pub open spec fn be_at(bytes: Seq<u8>, start: nat, end: nat) -> nat {
    be_value(bytes.subrange(start as int, end as int))
}

/// The header that the first 32 bytes of an index image denote.
pub open spec fn header_of(index: Seq<u8>) -> MITableHeader {
    MITableHeader {
        options: be_at(index, 4, 6) as u32,
        base_pos: be_at(index, 12, 14) as u32,
        key_parts: be_at(index, 14, 16) as u32,
        unique_key_parts: be_at(index, 16, 18) as u32,
        keys: index[18],
        uniques: index[19],
        fulltext_keys: index[22],
    }
}

/// A 16-bit pattern as a signed number in two's complement.
pub open spec fn signed16(pattern: nat) -> int {
    if pattern < 0x8000 {
        pattern as int
    } else {
        pattern - 0x1_0000
    }
}

/// The field description that seven bytes denote: the type in the first
/// two, signed, the length in the next two; the rest is reserved.
pub open spec fn recdef_of(bytes: Seq<u8>) -> MIRecDef {
    MIRecDef { rtype: signed16(be_at(bytes, 0, 2)) as i16, length: be_at(bytes, 2, 4) as u16 }
}

/// The failure of a read of `expected` bytes at `pos` in an image of
/// `len` bytes.
pub open spec fn short_read(len: nat, pos: nat, expected: nat) -> DecodeError {
    DecodeError::TruncatedError {
        offset: pos as u64,
        expected: expected as u64,
        got: available(len, pos) as u64,
    }
}

/// `first` before the items of a successful walk; a failed walk as it is.
pub open spec fn prepend<T>(first: Seq<T>, rest: Result<Seq<T>, DecodeError>) -> Result<
    Seq<T>,
    DecodeError,
> {
    match rest {
        Ok(items) => Ok(first + items),
        Err(e) => Err(e),
    }
}

/// The segment counts of `count` key definitions laid out from `pos`.
/// Each definition is 12 bytes, of which the first is the segment count,
/// followed by that many segments of 18 bytes, which are passed over
/// unread.
pub open spec fn key_segments_from(index: Seq<u8>, pos: nat, count: nat) -> Result<
    Seq<u8>,
    DecodeError,
>
    decreases count,
{
    if count == 0 {
        Ok(Seq::empty())
    } else if 12 > available(index.len(), pos) {
        Err(short_read(index.len(), pos, 12))
    } else {
        let segments = index[pos as int];
        prepend(
            seq![segments],
            key_segments_from(index, (pos + 12 + segments * 18) as nat, (count - 1) as nat),
        )
    }
}

/// The bytes that key definitions with these segment counts take.
pub open spec fn key_span(segments: Seq<u8>) -> nat
    decreases segments.len(),
{
    if segments.len() == 0 {
        0
    } else {
        (key_span(segments.drop_last()) + 12 + segments.last() * 18) as nat
    }
}

/// The segment counts of `count` unique definitions laid out from `pos`.
/// Each definition is 4 bytes, of which the first two are the segment
/// count, followed by that many segments of 18 bytes, which are read.
pub open spec fn unique_segments_from(index: Seq<u8>, pos: nat, count: nat) -> Result<
    Seq<u16>,
    DecodeError,
>
    decreases count,
{
    if count == 0 {
        Ok(Seq::empty())
    } else if 4 > available(index.len(), pos) {
        Err(short_read(index.len(), pos, 4))
    } else {
        let segments = be_at(index, pos, pos + 2);
        if segments * 18 > available(index.len(), pos + 4) {
            Err(short_read(index.len(), pos + 4, segments * 18))
        } else {
            prepend(
                seq![segments as u16],
                unique_segments_from(index, pos + 4 + segments * 18, (count - 1) as nat),
            )
        }
    }
}

/// The bytes that unique definitions with these segment counts take.
pub open spec fn unique_span(segments: Seq<u16>) -> nat
    decreases segments.len(),
{
    if segments.len() == 0 {
        0
    } else {
        (unique_span(segments.drop_last()) + 4 + segments.last() * 18) as nat
    }
}

/// The `count` field descriptions of 7 bytes each laid out from `pos`.
pub open spec fn field_records_from(index: Seq<u8>, pos: nat, count: nat) -> Result<
    Seq<MIRecDef>,
    DecodeError,
>
    decreases count,
{
    if count == 0 {
        Ok(Seq::empty())
    } else if 7 > available(index.len(), pos) {
        Err(short_read(index.len(), pos, 7))
    } else {
        prepend(
            seq![recdef_of(index.subrange(pos as int, pos + 7 as int))],
            field_records_from(index, pos + 7, (count - 1) as nat),
        )
    }
}

/// What the walk over an index image finds.
pub struct IndexWalk {
    pub header: MITableHeader,
    pub fields: u32,
    pub key_segments: Seq<u8>,
    pub unique_segments: Seq<u16>,
    pub records: Seq<MIRecDef>,
    /// The offset at which the walk ends.
    pub position: nat,
}

/// The walk over an index image.
///
/// The first 32 bytes are the header. The base information, 100 bytes,
/// lies at the header's base position, which must not lie beyond the end
/// of the image; its bytes 64 to 68 are the number of fields. Then come
/// as many key definitions as the header counts, as many unique
/// definitions, and the field descriptions.
pub open spec fn index_walk(index: Seq<u8>) -> Result<IndexWalk, DecodeError> {
    if 32 > index.len() {
        Err(short_read(index.len(), 0, 32))
    } else {
        let header = header_of(index);
        let base = header.base_pos as nat;
        if base > index.len() {
            Err(DecodeError::MalformedHeader { field: HeaderField::BasePos, offset: 12 })
        } else if 100 > available(index.len(), base) {
            Err(short_read(index.len(), base, 100))
        } else {
            let fields = be_at(index, base + 64, base + 68);
            let keys_at = base + 100;
            match key_segments_from(index, keys_at, header.keys as nat) {
                Err(e) => Err(e),
                Ok(key_segments) => {
                    let uniques_at = keys_at + key_span(key_segments);
                    match unique_segments_from(index, uniques_at, header.uniques as nat) {
                        Err(e) => Err(e),
                        Ok(unique_segments) => {
                            let fields_at = uniques_at + unique_span(unique_segments);
                            match field_records_from(index, fields_at, fields) {
                                Err(e) => Err(e),
                                Ok(records) => Ok(
                                    IndexWalk {
                                        header,
                                        fields: fields as u32,
                                        key_segments,
                                        unique_segments,
                                        records,
                                        position: fields_at + fields * 7,
                                    },
                                ),
                            }
                        },
                    }
                },
            }
        }
    }
}

/// A walk that succeeds visits exactly as many key definitions as it was
/// asked for.
pub proof fn lemma_key_segments_count(index: Seq<u8>, pos: nat, count: nat)
    ensures
        key_segments_from(index, pos, count).is_ok() ==> key_segments_from(
            index,
            pos,
            count,
        ).unwrap().len() == count,
    decreases count,
{
    if count > 0 && 12 <= available(index.len(), pos) {
        lemma_key_segments_count(
            index,
            (pos + 12 + index[pos as int] * 18) as nat,
            (count - 1) as nat,
        );
    }
}

/// A walk that succeeds visits exactly as many unique definitions as it
/// was asked for.
pub proof fn lemma_unique_segments_count(index: Seq<u8>, pos: nat, count: nat)
    ensures
        unique_segments_from(index, pos, count).is_ok() ==> unique_segments_from(
            index,
            pos,
            count,
        ).unwrap().len() == count,
    decreases count,
{
    if count > 0 && 4 <= available(index.len(), pos) {
        let segments = be_at(index, pos, pos + 2);
        lemma_unique_segments_count(index, pos + 4 + segments * 18, (count - 1) as nat);
    }
}

/// A walk that succeeds visits exactly as many field descriptions as it
/// was asked for.
pub proof fn lemma_field_records_count(index: Seq<u8>, pos: nat, count: nat)
    ensures
        field_records_from(index, pos, count).is_ok() ==> field_records_from(
            index,
            pos,
            count,
        ).unwrap().len() == count,
    decreases count,
{
    if count > 0 && 7 <= available(index.len(), pos) {
        lemma_field_records_count(index, pos + 7, (count - 1) as nat);
    }
}

/// The walk over an index image visits exactly as many key definitions
/// and unique definitions as the header counts, and as many field
/// descriptions as the base information counts.
pub proof fn lemma_walk_counts(index: Seq<u8>)
    requires
        index_walk(index).is_ok(),
    ensures
        index_walk(index).unwrap().key_segments.len() == index_walk(index).unwrap().header.keys,
        index_walk(index).unwrap().unique_segments.len() == index_walk(
            index,
        ).unwrap().header.uniques,
        index_walk(index).unwrap().records.len() == index_walk(index).unwrap().fields,
{
    let header = header_of(index);
    let base = header.base_pos as nat;
    let fields = be_at(index, base + 64, base + 68);
    let keys_at = base + 100;
    lemma_key_segments_count(index, keys_at, header.keys as nat);
    let key_segments = key_segments_from(index, keys_at, header.keys as nat).unwrap();
    let uniques_at = keys_at + key_span(key_segments);
    lemma_unique_segments_count(index, uniques_at, header.uniques as nat);
    let unique_segments = unique_segments_from(index, uniques_at, header.uniques as nat).unwrap();
    let fields_at = uniques_at + unique_span(unique_segments);
    lemma_field_records_count(index, fields_at, fields);
    lemma_be_value_bound(index.subrange((base + 64) as int, (base + 68) as int));
    lemma_pow256_values();
}

/// A range within a span of an image is that range of the image.
pub proof fn lemma_span_subrange(source: Seq<u8>, pos: nat, n: nat, start: nat, end: nat)
    requires
        pos + n <= source.len(),
        start <= end <= n,
    ensures
        span(source, pos, n).subrange(start as int, end as int) == source.subrange(
            (pos + start) as int,
            (pos + end) as int,
        ),
{
    assert(span(source, pos, n).subrange(start as int, end as int) =~= source.subrange(
        (pos + start) as int,
        (pos + end) as int,
    ));
}

/// Decodes the field of at most four bytes at `start..end` of a span
/// that was read at `pos`.
fn field_at(bytes: &[u8], start: usize, end: usize, Ghost(source): Ghost<Seq<u8>>, Ghost(pos): Ghost<
    nat,
>) -> (value: u32)
    requires
        start <= end <= bytes@.len(),
        end - start <= 4,
        pos + bytes@.len() <= source.len(),
        bytes@ == span(source, pos, bytes@.len()),
    ensures
        value == be_at(source, pos + start as nat, pos + end as nat),
        value < crate::bytes::pow256((end - start) as nat),
{
    proof {
        lemma_span_subrange(source, pos, bytes@.len(), start as nat, end as nat);
        lemma_be_value_bound(bytes@.subrange(start as int, end as int));
    }
    to_u32(slice_subrange(bytes, start, end))
}

/// Walks `count` key definitions from the position of `reader`.
fn read_key_segments(reader: &mut ByteReader<'_>, count: u8) -> (result: Result<
    Vec<u8>,
    DecodeError,
>)
    requires
        old(reader).offset() + count * 4602 <= u64::MAX,
    ensures
        final(reader).source() == old(reader).source(),
        match key_segments_from(
            old(reader).source(),
            old(reader).offset() as nat,
            count as nat,
        ) {
            Err(e) => result == Err::<Vec<u8>, DecodeError>(e),
            Ok(segments) => result.is_ok() && result.unwrap()@ == segments && final(reader).offset() == old(reader).offset() + key_span(segments),
        },
{
    let mut found: Vec<u8> = Vec::new();
    let mut left: u8 = count;
    let ghost source = reader.source();
    let ghost start = reader.offset() as nat;
    let ghost whole = key_segments_from(source, start, count as nat);
    proof {
        assert(found@ + whole.unwrap() =~= whole.unwrap());
    }
    while 0 != left
        invariant
            reader.source() == source,
            source == old(reader).source(),
            start == old(reader).offset(),
            whole == key_segments_from(source, start, count as nat),
            whole == prepend(
                found@,
                key_segments_from(source, reader.offset() as nat, left as nat),
            ),
            reader.offset() == start + key_span(found@),
            reader.offset() + left * 4602 <= u64::MAX,
        decreases left,
    {
        let ghost at = reader.offset() as nat;
        let ghost rest = key_segments_from(
            source,
            (at + 12 + source[at as int] * 18) as nat,
            (left - 1) as nat,
        );
        let keydef = match reader.read_exact(KEYDEF_LEN) {
            Err(e) => {
                return Err(e);
            },
            Ok(bytes) => bytes,
        };
        let keysegs = keydef[0];
        match reader.seek_relative(keysegs as i64 * 18) {
            Err(e) => {
                return Err(e);
            },
            Ok(_) => {},
        }
        let ghost before = found@;
        found.push(keysegs);
        left -= 1;
        proof {
            assert(found@.drop_last() =~= before);
            if rest.is_ok() {
                assert(before + (seq![keysegs] + rest.unwrap()) =~= found@ + rest.unwrap());
            }
        }
    }
    proof {
        assert(found@ + Seq::<u8>::empty() =~= found@);
    }
    Ok(found)
}

/// Walks `count` unique definitions from the position of `reader`.
fn read_unique_segments(reader: &mut ByteReader<'_>, count: u8) -> (result: Result<
    Vec<u16>,
    DecodeError,
>)
    ensures
        final(reader).source() == old(reader).source(),
        match unique_segments_from(
            old(reader).source(),
            old(reader).offset() as nat,
            count as nat,
        ) {
            Err(e) => result == Err::<Vec<u16>, DecodeError>(e),
            Ok(segments) => result.is_ok() && result.unwrap()@ == segments && final(reader).offset() == old(reader).offset() + unique_span(segments),
        },
{
    let mut found: Vec<u16> = Vec::new();
    let mut left: u8 = count;
    let ghost source = reader.source();
    let ghost start = reader.offset() as nat;
    let ghost whole = unique_segments_from(source, start, count as nat);
    proof {
        assert(found@ + whole.unwrap() =~= whole.unwrap());
    }
    while 0 != left
        invariant
            reader.source() == source,
            source == old(reader).source(),
            start == old(reader).offset(),
            whole == unique_segments_from(source, start, count as nat),
            whole == prepend(
                found@,
                unique_segments_from(source, reader.offset() as nat, left as nat),
            ),
            reader.offset() == start + unique_span(found@),
        decreases left,
    {
        let ghost at = reader.offset() as nat;
        let uniquedef = match reader.read_exact(UNIQUEDEF_LEN) {
            Err(e) => {
                return Err(e);
            },
            Ok(bytes) => bytes,
        };
        proof {
            lemma_pow256_values();
        }
        let keysegs = field_at(uniquedef, 0, 2, Ghost(source), Ghost(at));
        match reader.read_exact(keysegs as u64 * KEYSEG_LEN) {
            Err(e) => {
                return Err(e);
            },
            Ok(_) => {},
        }
        let ghost rest = unique_segments_from(
            source,
            at + 4 + keysegs as nat * 18,
            (left - 1) as nat,
        );
        let ghost before = found@;
        found.push(keysegs as u16);
        left -= 1;
        proof {
            assert(found@.drop_last() =~= before);
            if rest.is_ok() {
                assert(before + (seq![keysegs as u16] + rest.unwrap()) =~= found@
                    + rest.unwrap());
            }
        }
    }
    proof {
        assert(found@ + Seq::<u16>::empty() =~= found@);
    }
    Ok(found)
}

/// Reads `count` field descriptions from the position of `reader`.
fn read_field_records(reader: &mut ByteReader<'_>, count: u32) -> (result: Result<
    Vec<MIRecDef>,
    DecodeError,
>)
    ensures
        final(reader).source() == old(reader).source(),
        match field_records_from(
            old(reader).source(),
            old(reader).offset() as nat,
            count as nat,
        ) {
            Err(e) => result == Err::<Vec<MIRecDef>, DecodeError>(e),
            Ok(records) => result.is_ok() && result.unwrap()@ == records && final(reader).offset() == old(reader).offset() + count * 7,
        },
{
    let mut recdefs: Vec<MIRecDef> = Vec::new();
    let mut fields_left: u32 = count;
    let ghost source = reader.source();
    let ghost start = reader.offset() as nat;
    let ghost whole = field_records_from(source, start, count as nat);
    proof {
        assert(recdefs@ + whole.unwrap() =~= whole.unwrap());
    }
    while 0 != fields_left
        invariant
            reader.source() == source,
            source == old(reader).source(),
            start == old(reader).offset(),
            fields_left <= count,
            whole == field_records_from(source, start, count as nat),
            whole == prepend(
                recdefs@,
                field_records_from(source, reader.offset() as nat, fields_left as nat),
            ),
            reader.offset() == start + (count - fields_left) * 7,
        decreases fields_left,
    {
        let ghost at = reader.offset() as nat;
        let fieldrec = match reader.read_exact(FIELDREC_LEN) {
            Err(e) => {
                return Err(e);
            },
            Ok(bytes) => bytes,
        };
        proof {
            lemma_pow256_values();
            lemma_span_subrange(source, at, 7, 0, 2);
            lemma_span_subrange(source, at, 7, 2, 4);
        }
        let pattern = field_at(fieldrec, 0, 2, Ghost(source), Ghost(at));
        let length = field_at(fieldrec, 2, 4, Ghost(source), Ghost(at));
        let rtype: i16 = if pattern < 0x8000 {
            pattern as i16
        } else {
            (pattern as i32 - 0x1_0000) as i16
        };
        let recdef = MIRecDef { rtype, length: length as u16 };
        let ghost rest = field_records_from(source, at + 7, (fields_left - 1) as nat);
        let ghost before = recdefs@;
        recdefs.push(recdef);
        fields_left -= 1;
        proof {
            assert(recdef == recdef_of(source.subrange(at as int, at + 7 as int)));
            if rest.is_ok() {
                assert(before + (seq![recdef] + rest.unwrap()) =~= recdefs@ + rest.unwrap());
            }
        }
    }
    proof {
        assert(recdefs@ + Seq::<MIRecDef>::empty() =~= recdefs@);
    }
    Ok(recdefs)
}

/// Decodes the fixed prefix of the index image of `reader`, which is
/// left after the prefix.
pub fn read_table_header(reader: &mut ByteReader<'_>) -> (result: Result<MITableHeader, DecodeError>)
    ensures
        final(reader).source() == old(reader).source(),
        match result {
            Ok(header) => {
                &&& old(reader).source().len() >= 32
                &&& header == header_of(old(reader).source())
                &&& header.options < 0x1_0000
                &&& header.base_pos < 0x1_0000
                &&& header.key_parts < 0x1_0000
                &&& header.unique_key_parts < 0x1_0000
                &&& final(reader).offset() == 32
            },
            Err(e) => {
                &&& old(reader).source().len() < 32
                &&& e == short_read(old(reader).source().len(), 0, 32)
            },
        },
{
    let ghost source = reader.source();
    reader.seek_absolute(0);
    let header_bytes = match reader.read_exact(HEADER_LEN) {
        Err(e) => {
            return Err(e);
        },
        Ok(bytes) => bytes,
    };
    proof {
        lemma_pow256_values();
    }
    Ok(
        MITableHeader {
            options: field_at(header_bytes, 4, 6, Ghost(source), Ghost(0)),
            base_pos: field_at(header_bytes, 12, 14, Ghost(source), Ghost(0)),
            key_parts: field_at(header_bytes, 14, 16, Ghost(source), Ghost(0)),
            unique_key_parts: field_at(header_bytes, 16, 18, Ghost(source), Ghost(0)),
            keys: header_bytes[18],
            uniques: header_bytes[19],
            fulltext_keys: header_bytes[22],
        },
    )
}

/// Whether `state` holds what `walk` found.
pub open spec fn state_matches(state: MITableState, walk: IndexWalk) -> bool {
    &&& state.header == walk.header
    &&& state.base.fields == walk.fields
    &&& state.base.key_segments@ == walk.key_segments
    &&& state.base.unique_segments@ == walk.unique_segments
    &&& state.base.records@ == walk.records
}

/// Decodes the index image of `reader` from its start. On success the
/// reader stands where the walk ended: after the base information, the
/// key and unique definitions and the field descriptions.
pub fn read_table_state(reader: &mut ByteReader<'_>) -> (result: Result<MITableState, DecodeError>)
    ensures
        final(reader).source() == old(reader).source(),
        match index_walk(old(reader).source()) {
            Err(e) => result == Err::<MITableState, DecodeError>(e),
            Ok(walk) => {
                &&& result.is_ok()
                &&& state_matches(result.unwrap(), walk)
                &&& final(reader).offset() == walk.position
                &&& walk.position == walk.header.base_pos + 100 + key_span(walk.key_segments)
                    + unique_span(walk.unique_segments) + walk.fields * 7
                &&& walk.key_segments.len() == walk.header.keys
                &&& walk.unique_segments.len() == walk.header.uniques
                &&& walk.records.len() == walk.fields
            },
        },
{
    let ghost source = reader.source();
    proof {
        if index_walk(source).is_ok() {
            lemma_walk_counts(source);
        }
    }
    let header = match read_table_header(reader) {
        Err(e) => {
            return Err(e);
        },
        Ok(header) => header,
    };
    let end = reader.position() + reader.remaining();
    if header.base_pos as u64 > end {
        return Err(DecodeError::MalformedHeader { field: HeaderField::BasePos, offset: 12 });
    }
    reader.seek_absolute(header.base_pos as u64);
    let base_info = match reader.read_exact(BASE_INFO_LEN) {
        Err(e) => {
            return Err(e);
        },
        Ok(bytes) => bytes,
    };
    let fields = field_at(base_info, 64, 68, Ghost(source), Ghost(header.base_pos as nat));
    let key_segments = match read_key_segments(reader, header.keys) {
        Err(e) => {
            return Err(e);
        },
        Ok(segments) => segments,
    };
    let unique_segments = match read_unique_segments(reader, header.uniques) {
        Err(e) => {
            return Err(e);
        },
        Ok(segments) => segments,
    };
    let records = match read_field_records(reader, fields) {
        Err(e) => {
            return Err(e);
        },
        Ok(records) => records,
    };
    Ok(MITableState { header, base: MITableBase { fields, key_segments, unique_segments, records } })
}

} // verus!
