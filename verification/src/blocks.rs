//! Block encodings: the table of block types and the decoding of one
//! block header.

use vstd::prelude::*;
use vstd::slice::slice_subrange;
use crate::bytes::{be_value, lemma_be_value_bound, lemma_pow256_monotonic, lemma_pow256_values, to_u64};

verus! {

/// A range of header bytes: first offset and offset past the last.
pub type BytePos = (usize, usize);

/// How one block type lays out its header. A field that the encoding
/// lacks is `None`. `header_len` does not count the block-type byte.
#[derive(Debug, Clone, Copy, PartialEq, Eq)]
pub struct MIRecordBlockDef {
    pub record_len: Option<BytePos>,
    pub block_len: Option<BytePos>,
    pub data_len: Option<BytePos>,
    pub unused_len: Option<BytePos>,
    pub next_filepos: Option<BytePos>,
    pub header_len: u8,
    pub deleted: bool,
}

/// What the header of one block says.
#[derive(Debug, Clone, Copy, PartialEq, Eq)]
pub struct MIRecordBlock {
    pub record_len: Option<u32>,
    pub data_len: Option<u32>,
    pub unused_len: Option<u32>,
    pub next_filepos: Option<u64>,
    pub block_len: u64,
    pub deleted: bool,
}

/// An absent range, or one of at most `width` bytes that ends within the
/// first `limit` bytes.
pub open spec fn range_fits(position: Option<BytePos>, limit: nat, width: nat) -> bool {
    match position {
        None => true,
        Some((start, end)) => start <= end <= limit && end - start <= width,
    }
}

/// The offset past the last byte of a range; zero for an absent one.
pub open spec fn range_end(position: Option<BytePos>) -> nat {
    match position {
        None => 0,
        Some((_, end)) => end as nat,
    }
}

/// The number at a header range, where the encoding has the field.
pub open spec fn header_field(header: Seq<u8>, position: Option<BytePos>) -> Option<nat> {
    match position {
        None => None,
        Some((start, end)) => Some(be_value(header.subrange(start as int, end as int))),
    }
}

impl MIRecordBlockDef {
    /// The definition is usable: every range lies within the header,
    /// lengths are at most four bytes wide and the next position at most
    /// eight, and the fields from which the block length is derived are
    /// present.
    pub open spec fn well_formed(&self) -> bool {
        &&& range_fits(self.record_len, self.header_len as nat, 4)
        &&& range_fits(self.block_len, self.header_len as nat, 4)
        &&& range_fits(self.data_len, self.header_len as nat, 4)
        &&& range_fits(self.unused_len, self.header_len as nat, 4)
        &&& range_fits(self.next_filepos, self.header_len as nat, 8)
        &&& self.unused_len.is_some() ==> self.data_len.is_some()
        &&& !self.deleted ==> self.data_len.is_some()
        &&& self.deleted && self.unused_len.is_none() ==> self.block_len.is_some()
    }

    /// The greatest end offset of any range.
    pub open spec fn max_end(&self) -> nat {
        let a = range_end(self.record_len);
        let b = range_end(self.block_len);
        let c = range_end(self.data_len);
        let d = range_end(self.unused_len);
        let e = range_end(self.next_filepos);
        let ab = if a >= b { a } else { b };
        let cd = if c >= d { c } else { d };
        let abcd = if ab >= cd { ab } else { cd };
        if abcd >= e { abcd } else { e }
    }

    /// The length of the block's span after its header, as `header`
    /// gives it: slack plus data where the encoding has slack; else,
    /// for a deleted block, the declared total less the header; else the
    /// data length.
    pub open spec fn span_len(&self, header: Seq<u8>) -> int {
        if self.unused_len.is_some() {
            (header_field(header, self.unused_len).unwrap() + header_field(
                header,
                self.data_len,
            ).unwrap()) as int
        } else if !self.deleted {
            header_field(header, self.data_len).unwrap() as int
        } else {
            header_field(header, self.block_len).unwrap() - self.header_len
        }
    }

    /// What `header` says under this definition.
    pub open spec fn info(&self, header: Seq<u8>) -> MIRecordBlock {
        MIRecordBlock {
            record_len: narrow(header_field(header, self.record_len)),
            data_len: narrow(header_field(header, self.data_len)),
            unused_len: narrow(header_field(header, self.unused_len)),
            next_filepos: match header_field(header, self.next_filepos) {
                None => None,
                Some(v) => Some(v as u64),
            },
            block_len: self.span_len(header) as u64,
            deleted: self.deleted,
        }
    }
}

/// Tests a range against a header of `limit` bytes and a field of
/// `width` bytes.
pub fn check_range(position: Option<BytePos>, limit: usize, width: usize) -> (fits: bool)
    ensures
        fits == range_fits(position, limit as nat, width as nat),
{
    match position {
        None => true,
        Some((start, end)) => start <= end && end <= limit && end - start <= width,
    }
}

/// Tests whether a definition is usable.
pub fn check_definition(definition: &MIRecordBlockDef) -> (usable: bool)
    ensures
        usable == definition.well_formed(),
{
    let limit = definition.header_len as usize;
    let ranges_fit = check_range(definition.record_len, limit, 4)
        && check_range(definition.block_len, limit, 4)
        && check_range(definition.data_len, limit, 4)
        && check_range(definition.unused_len, limit, 4)
        && check_range(definition.next_filepos, limit, 8);
    let length_known = if definition.unused_len.is_some() || !definition.deleted {
        definition.data_len.is_some()
    } else {
        definition.block_len.is_some()
    };
    ranges_fit && length_known
}

/// Tests whether a dispatch table is usable: 256 slots, and a usable
/// definition in each filled one.
pub fn check_table(table: &[Option<MIRecordBlockDef>]) -> (usable: bool)
    ensures
        usable == table_well_formed(table@),
{
    if table.len() != 256 {
        return false;
    }
    let mut i: usize = 0;
    while i < 256
        invariant
            i <= 256,
            table@.len() == 256,
            forall|j: int| 0 <= j < i && (#[trigger] table@[j]).is_some() ==> table@[j].unwrap().well_formed(),
        decreases 256 - i,
    {
        match table[i] {
            None => {},
            Some(definition) => {
                if !check_definition(&definition) {
                    return false;
                }
            },
        }
        i += 1;
    }
    true
}

/// An optional number as an optional `u32`.
pub open spec fn narrow(value: Option<nat>) -> Option<u32> {
    match value {
        None => None,
        Some(v) => Some(v as u32),
    }
}

/// Decodes the header bytes at `position`, if the encoding has the field.
pub fn find_header_bytes(header: &[u8], position: Option<BytePos>) -> (value: Option<u64>)
    requires
        range_fits(position, header@.len(), 8),
    ensures
        match value {
            None => position.is_none(),
            Some(v) => header_field(header@, position) == Some(v as nat),
        },
{
    match position {
        None => None,
        Some((start, end)) => Some(to_u64(slice_subrange(header, start, end))),
    }
}

/// The same, for a field at most four bytes wide.
fn find_header_len(header: &[u8], position: Option<BytePos>) -> (value: Option<u32>)
    requires
        range_fits(position, header@.len(), 4),
    ensures
        value == narrow(header_field(header@, position)),
        match value {
            None => position.is_none(),
            Some(v) => header_field(header@, position) == Some(v as nat),
        },
{
    match find_header_bytes(header, position) {
        None => None,
        Some(v) => {
            proof {
                let (start, end) = position.unwrap();
                let bytes = header@.subrange(start as int, end as int);
                lemma_be_value_bound(bytes);
                lemma_pow256_monotonic(bytes.len(), 4);
                lemma_pow256_values();
            }
            Some(v as u32)
        },
    }
}

/// Decodes one block header under its definition.
pub fn read_block_info(header: &[u8], block_definition: &MIRecordBlockDef) -> (block:
    MIRecordBlock)
    requires
        block_definition.well_formed(),
        header@.len() >= block_definition.header_len,
        block_definition.span_len(header@) >= 0,
    ensures
        block == block_definition.info(header@),
        block.deleted == block_definition.deleted,
        block.block_len == block_definition.span_len(header@),
        block.block_len <= 2 * u32::MAX,
        block.record_len.is_some() == block_definition.record_len.is_some(),
        block.data_len.is_some() == block_definition.data_len.is_some(),
        block.unused_len.is_some() == block_definition.unused_len.is_some(),
        block.next_filepos.is_some() == block_definition.next_filepos.is_some(),
        block.record_len.is_some() ==> header_field(header@, block_definition.record_len)
            == Some(block.record_len.unwrap() as nat),
        block.data_len.is_some() ==> header_field(header@, block_definition.data_len) == Some(
            block.data_len.unwrap() as nat,
        ),
        block.unused_len.is_some() ==> header_field(header@, block_definition.unused_len)
            == Some(block.unused_len.unwrap() as nat),
        block.next_filepos.is_some() ==> header_field(header@, block_definition.next_filepos)
            == Some(block.next_filepos.unwrap() as nat),
{
    let record_len = find_header_len(header, block_definition.record_len);
    let data_len = find_header_len(header, block_definition.data_len);
    let unused_len = find_header_len(header, block_definition.unused_len);
    let block_len: u64 = if unused_len.is_some() {
        unused_len.unwrap() as u64 + data_len.unwrap() as u64
    } else if !block_definition.deleted {
        data_len.unwrap() as u64
    } else {
        let deleted_block_len = find_header_len(header, block_definition.block_len);
        deleted_block_len.unwrap() as u64 - block_definition.header_len as u64
    };
    MIRecordBlock {
        deleted: block_definition.deleted,
        block_len,
        record_len,
        data_len,
        unused_len,
        next_filepos: find_header_bytes(header, block_definition.next_filepos),
    }
}

/// Decodes a block header, unless it belongs to a deleted block that
/// declares a total length shorter than its own header.
pub fn checked_block_info(header: &[u8], block_definition: &MIRecordBlockDef) -> (block: Option<
    MIRecordBlock,
>)
    requires
        block_definition.well_formed(),
        header@.len() >= block_definition.header_len,
    ensures
        match block {
            None => block_definition.span_len(header@) < 0,
            Some(info) => block_definition.span_len(header@) >= 0 && info
                == block_definition.info(header@) && info.block_len <= 2 * u32::MAX,
        },
{
    if block_definition.deleted && block_definition.unused_len.is_none() {
        let declared = find_header_bytes(header, block_definition.block_len);
        if declared.unwrap() < block_definition.header_len as u64 {
            return None;
        }
    }
    Some(read_block_info(header, block_definition))
}

/// One row of the table of block types.
pub open spec fn row(
    record_len: Option<BytePos>,
    block_len: Option<BytePos>,
    data_len: Option<BytePos>,
    unused_len: Option<BytePos>,
    next_filepos: Option<BytePos>,
    header_len: u8,
    deleted: bool,
) -> Option<MIRecordBlockDef> {
    Some(
        MIRecordBlockDef {
            record_len,
            block_len,
            data_len,
            unused_len,
            next_filepos,
            header_len,
            deleted,
        },
    )
}

/// The block encodings of the format, by block-type byte. A byte without
/// a row names no encoding.
pub open spec fn canonical_definition(block_type: u8) -> Option<MIRecordBlockDef> {
    let o = None::<BytePos>;
    if block_type == 0 {
        row(o, Some((0, 3)), o, o, Some((3, 11)), 19, true)
    } else if block_type == 1 {
        row(Some((0, 2)), Some((0, 2)), Some((0, 2)), o, o, 2, false)
    } else if block_type == 2 {
        row(Some((0, 3)), Some((0, 3)), Some((0, 3)), o, o, 3, false)
    } else if block_type == 3 {
        row(Some((0, 2)), o, Some((0, 2)), Some((2, 3)), o, 3, false)
    } else if block_type == 4 {
        row(Some((0, 3)), o, Some((0, 3)), Some((3, 4)), o, 4, false)
    } else if block_type == 5 {
        row(Some((0, 2)), Some((2, 4)), Some((2, 4)), o, Some((4, 12)), 12, false)
    } else if block_type == 7 {
        row(o, Some((0, 2)), Some((0, 2)), o, o, 2, false)
    } else if block_type == 9 {
        row(o, o, Some((0, 2)), Some((2, 3)), o, 3, false)
    } else if block_type == 11 {
        row(o, Some((0, 2)), Some((0, 2)), o, Some((2, 10)), 10, false)
    } else {
        None
    }
}

/// The dispatch table of the format.
pub open spec fn canonical_table() -> Seq<Option<MIRecordBlockDef>> {
    Seq::new(256, |i: int| canonical_definition(i as u8))
}

/// A dispatch table: one slot per block-type byte, each filled slot
/// well formed.
pub open spec fn table_well_formed(table: Seq<Option<MIRecordBlockDef>>) -> bool {
    &&& table.len() == 256
    &&& forall|i: int|
        0 <= i < 256 && (#[trigger] table[i]).is_some() ==> table[i].unwrap().well_formed()
}

/// Every encoding of the format is well formed; the header of each one
/// that is not deleted ends where its last field ends; and the block
/// types 6, 8, 10, 12 and 13 name no encoding.
pub proof fn lemma_canonical_definitions(block_type: u8)
    ensures
        canonical_definition(block_type).is_some() ==> canonical_definition(
            block_type,
        ).unwrap().well_formed(),
        canonical_definition(block_type).is_some() && !canonical_definition(
            block_type,
        ).unwrap().deleted ==> canonical_definition(block_type).unwrap().header_len
            == canonical_definition(block_type).unwrap().max_end(),
        canonical_definition(block_type).is_some() && canonical_definition(
            block_type,
        ).unwrap().deleted ==> block_type == 0,
        block_type == 6 || block_type == 8 || block_type == 10 || block_type >= 12
            ==> canonical_definition(block_type).is_none(),
{
}

/// Builds the dispatch table of the format.
pub fn record_block_definitions() -> (definitions: [Option<MIRecordBlockDef>; 256])
    ensures
        definitions@ == canonical_table(),
        table_well_formed(definitions@),
{
    let mut definitions: [Option<MIRecordBlockDef>; 256] = [None; 256];
    definitions[0] = Some(
        MIRecordBlockDef {
            record_len: None,
            block_len: Some((0, 3)),
            data_len: None,
            unused_len: None,
            next_filepos: Some((3, 11)),
            header_len: 19,
            deleted: true,
        },
    );
    let small_full_pos: Option<BytePos> = Some((0, 2));
    let big_full_pos: Option<BytePos> = Some((0, 3));
    definitions[1] = Some(
        MIRecordBlockDef {
            record_len: small_full_pos,
            block_len: small_full_pos,
            data_len: small_full_pos,
            unused_len: None,
            next_filepos: None,
            header_len: 2,
            deleted: false,
        },
    );
    definitions[2] = Some(
        MIRecordBlockDef {
            record_len: big_full_pos,
            block_len: big_full_pos,
            data_len: big_full_pos,
            unused_len: None,
            next_filepos: None,
            header_len: 3,
            deleted: false,
        },
    );
    definitions[3] = Some(
        MIRecordBlockDef {
            record_len: small_full_pos,
            block_len: None,
            data_len: small_full_pos,
            unused_len: Some((2, 3)),
            next_filepos: None,
            header_len: 3,
            deleted: false,
        },
    );
    definitions[4] = Some(
        MIRecordBlockDef {
            record_len: big_full_pos,
            block_len: None,
            data_len: big_full_pos,
            unused_len: Some((3, 4)),
            next_filepos: None,
            header_len: 4,
            deleted: false,
        },
    );
    definitions[5] = Some(
        MIRecordBlockDef {
            record_len: small_full_pos,
            block_len: Some((2, 4)),
            data_len: Some((2, 4)),
            unused_len: None,
            next_filepos: Some((4, 12)),
            header_len: 12,
            deleted: false,
        },
    );
    definitions[7] = Some(
        MIRecordBlockDef {
            record_len: None,
            block_len: small_full_pos,
            data_len: small_full_pos,
            unused_len: None,
            next_filepos: None,
            header_len: 2,
            deleted: false,
        },
    );
    definitions[9] = Some(
        MIRecordBlockDef {
            record_len: None,
            block_len: None,
            data_len: small_full_pos,
            unused_len: Some((2, 3)),
            next_filepos: None,
            header_len: 3,
            deleted: false,
        },
    );
    definitions[11] = Some(
        MIRecordBlockDef {
            record_len: None,
            block_len: small_full_pos,
            data_len: small_full_pos,
            unused_len: None,
            next_filepos: Some((2, 10)),
            header_len: 10,
            deleted: false,
        },
    );
    proof {
        assert forall|i: int| 0 <= i < 256 implies #[trigger] definitions@[i]
            == canonical_definition(i as u8) by {}
        assert forall|i: int| 0 <= i < 256 && (#[trigger] definitions@[i]).is_some() implies
            definitions@[i].unwrap().well_formed() by {
            lemma_canonical_definitions(i as u8);
        }
        assert(definitions@ =~= canonical_table());
    }
    definitions
}

} // verus!
