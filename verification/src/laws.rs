//! Laws of the decoder: what holds of every image of a given shape.

use vstd::prelude::*;
use crate::blocks::{canonical_definition, canonical_table, MIRecordBlock, MIRecordBlockDef};
use crate::bytes::{be_value, lemma_pow256_values, pow256, span};
use crate::error::DecodeError;
use crate::index::header_of;
use crate::scan::{block_step, emission, least, room, scan_run, scan_step, start_state, ScanRun, ScanState, Step};
use crate::table::MITableHeader;

verus! {

/// The `width` bytes that denote `value` big-endian.
pub open spec fn be_bytes(value: nat, width: nat) -> Seq<u8>
    decreases width,
{
    if width == 0 {
        Seq::empty()
    } else {
        be_bytes(value / 256, (width - 1) as nat).push((value % 256) as u8)
    }
}

/// Encoding a number in enough bytes and decoding it gives the number
/// back.
pub proof fn lemma_be_roundtrip(value: nat, width: nat)
    requires
        value < pow256(width),
    ensures
        be_bytes(value, width).len() == width,
        be_value(be_bytes(value, width)) == value,
    decreases width,
{
    if width > 0 {
        let shorter = be_bytes(value / 256, (width - 1) as nat);
        lemma_be_roundtrip(value / 256, (width - 1) as nat);
        assert(be_bytes(value, width).drop_last() =~= shorter);
    }
}

/// Whether an index image has the fields of `header` at their offsets.
pub open spec fn header_image(index: Seq<u8>, header: MITableHeader) -> bool {
    &&& index.len() >= 32
    &&& index.subrange(4, 6) == be_bytes(header.options as nat, 2)
    &&& index.subrange(12, 14) == be_bytes(header.base_pos as nat, 2)
    &&& index.subrange(14, 16) == be_bytes(header.key_parts as nat, 2)
    &&& index.subrange(16, 18) == be_bytes(header.unique_key_parts as nat, 2)
    &&& index[18] == header.keys
    &&& index[19] == header.uniques
    &&& index[22] == header.fulltext_keys
}

/// An index image that was written with the fields of a header at their
/// offsets, each two-byte field below 65536, decodes to that header.
pub proof fn lemma_header_roundtrip(index: Seq<u8>, header: MITableHeader)
    requires
        header.options < 0x1_0000,
        header.base_pos < 0x1_0000,
        header.key_parts < 0x1_0000,
        header.unique_key_parts < 0x1_0000,
        header_image(index, header),
    ensures
        header_of(index) == header,
{
    lemma_pow256_values();
    lemma_be_roundtrip(header.options as nat, 2);
    lemma_be_roundtrip(header.base_pos as nat, 2);
    lemma_be_roundtrip(header.key_parts as nat, 2);
    lemma_be_roundtrip(header.unique_key_parts as nat, 2);
}

/// A block-type byte without an encoding ends the scan at once: the
/// block is not consumed, nothing more is emitted, and the scan reports
/// the byte and its offset.
pub proof fn lemma_unknown_block_is_fatal(
    data: Seq<u8>,
    table: Seq<Option<MIRecordBlockDef>>,
    s: ScanState,
    limit: nat,
)
    requires
        table.len() == 256,
        s.position < data.len(),
        table[data[s.position as int] as int].is_none(),
        limit > 0,
    ensures
        scan_run(data, table, s, limit) == (ScanRun {
            records: Seq::empty(),
            blocks: 0,
            error: Some(
                DecodeError::UnknownBlockType {
                    byte: data[s.position as int],
                    offset: s.position,
                },
            ),
            last: s,
        }),
{
}

/// Under the encodings of the format, byte 6 as a block type is fatal.
pub proof fn lemma_block_type_six_is_fatal(data: Seq<u8>, s: ScanState, limit: nat)
    requires
        s.position < data.len(),
        data[s.position as int] == 6,
        limit > 0,
    ensures
        scan_run(data, canonical_table(), s, limit).error == Some(
            DecodeError::UnknownBlockType { byte: 6, offset: s.position },
        ),
        scan_run(data, canonical_table(), s, limit).records.len() == 0,
{
    lemma_unknown_block_is_fatal(data, canonical_table(), s, limit);
}

/// A scan of `a + b` blocks is a scan of `a` blocks followed by a scan of
/// `b` blocks from where the first stopped, provided the first consumed
/// all its `a` blocks.
pub proof fn lemma_scan_run_split(
    data: Seq<u8>,
    table: Seq<Option<MIRecordBlockDef>>,
    s: ScanState,
    a: nat,
    b: nat,
)
    requires
        scan_run(data, table, s, a).error.is_none(),
        scan_run(data, table, s, a).blocks == a,
    ensures
        ({
            let first = scan_run(data, table, s, a);
            let second = scan_run(data, table, first.last, b);
            scan_run(data, table, s, a + b) == (ScanRun {
                records: first.records + second.records,
                blocks: a + second.blocks,
                error: second.error,
                last: second.last,
            })
        }),
    decreases a,
{
    let first = scan_run(data, table, s, a);
    let second = scan_run(data, table, first.last, b);
    if a == 0 {
        assert(first.records + second.records =~= second.records);
    } else {
        match scan_step(data, table, s) {
            Step::Advanced { next, emitted } => {
                lemma_scan_run_split(data, table, next, (a - 1) as nat, b);
                let rest = scan_run(data, table, next, (a - 1) as nat);
                assert((a - 1) as nat + b == (a + b - 1) as nat);
                assert(emission(emitted) + (rest.records + second.records) =~= (emission(
                    emitted,
                ) + rest.records) + second.records);
            },
            _ => {},
        }
    }
}

/// A scan that consumed `a` blocks and then stands at a block-type byte
/// without an encoding ends there: it has emitted what those `a` blocks
/// completed and emits no further record, whatever limit above `a` it is
/// given.
pub proof fn lemma_unknown_block_ends_the_scan(
    data: Seq<u8>,
    table: Seq<Option<MIRecordBlockDef>>,
    s: ScanState,
    a: nat,
    limit: nat,
)
    requires
        table.len() == 256,
        scan_run(data, table, s, a).error.is_none(),
        scan_run(data, table, s, a).blocks == a,
        scan_run(data, table, s, a).last.position < data.len(),
        table[data[scan_run(data, table, s, a).last.position as int] as int].is_none(),
        limit > a,
    ensures
        ({
            let first = scan_run(data, table, s, a);
            scan_run(data, table, s, limit) == (ScanRun {
                records: first.records,
                blocks: a,
                error: Some(
                    DecodeError::UnknownBlockType {
                        byte: data[first.last.position as int],
                        offset: first.last.position,
                    },
                ),
                last: first.last,
            })
        }),
{
    let first = scan_run(data, table, s, a);
    lemma_scan_run_split(data, table, s, a, (limit - a) as nat);
    lemma_unknown_block_is_fatal(data, table, first.last, (limit - a) as nat);
    assert(first.records + Seq::<Seq<u8>>::empty() =~= first.records);
}

/// The record under assembly never outgrows the length that its head
/// block declared: a step keeps it within the capacity.
pub proof fn lemma_record_within_capacity(
    data: Seq<u8>,
    table: Seq<Option<MIRecordBlockDef>>,
    s: ScanState,
)
    requires
        s.record.len() <= s.capacity,
        scan_step(data, table, s) is Advanced,
    ensures
        scan_step(data, table, s)->next.record.len() <= scan_step(data, table, s)->next.capacity,
        scan_step(data, table, s)->emitted.is_some() ==> scan_step(
            data,
            table,
            s,
        )->emitted.unwrap().len() <= scan_step(data, table, s)->next.capacity,
{
}

/// A return position is kept only along a chain: a step from a state
/// without one keeps one only where the block is a head block with data
/// that names a next position; a step from a state with one either keeps
/// it or returns to it and keeps none.
pub proof fn lemma_saved_position(
    data: Seq<u8>,
    table: Seq<Option<MIRecordBlockDef>>,
    s: ScanState,
)
    requires
        table.len() == 256,
        scan_step(data, table, s) is Advanced,
    ensures
        ({
            let next = scan_step(data, table, s)->next;
            let definition = table[data[s.position as int] as int].unwrap();
            &&& s.saved_position.is_none() && next.saved_position.is_some() ==> {
                &&& definition.record_len.is_some()
                &&& definition.data_len.is_some()
                &&& definition.next_filepos.is_some()
            }
            &&& s.saved_position.is_some() ==> next.saved_position == s.saved_position || (
            next.saved_position.is_none() && next.position == s.saved_position.unwrap())
        }),
{
}

/// Once the image has ended, a scan consumes nothing more, whatever its
/// limit.
pub proof fn lemma_scan_ends_at_end_of_stream(
    data: Seq<u8>,
    table: Seq<Option<MIRecordBlockDef>>,
    s: ScanState,
    limit: nat,
)
    requires
        s.position >= data.len(),
    ensures
        scan_run(data, table, s, limit) == (ScanRun {
            records: Seq::empty(),
            blocks: 0,
            error: None,
            last: s,
        }),
{
}

/// The encoding of the block that starts at `pos`.
pub open spec fn definition_at(data: Seq<u8>, pos: nat) -> MIRecordBlockDef {
    canonical_definition(data[pos as int]).unwrap()
}

/// The header of the block that starts at `pos`.
pub open spec fn header_at(data: Seq<u8>, pos: nat) -> Seq<u8> {
    span(data, pos + 1, definition_at(data, pos).header_len as nat)
}

/// What the header of the block that starts at `pos` says.
pub open spec fn info_at(data: Seq<u8>, pos: nat) -> MIRecordBlock {
    definition_at(data, pos).info(header_at(data, pos))
}

/// Where the span of the block that starts at `pos` begins.
pub open spec fn body_at(data: Seq<u8>, pos: nat) -> nat {
    pos + 1 + definition_at(data, pos).header_len as nat
}

/// Where the span of the block that starts at `pos` ends.
pub open spec fn end_at(data: Seq<u8>, pos: nat) -> nat {
    body_at(data, pos) + info_at(data, pos).block_len as nat
}

/// The data of the block that starts at `pos`.
pub open spec fn payload_at(data: Seq<u8>, pos: nat) -> Seq<u8> {
    span(data, body_at(data, pos), info_at(data, pos).data_len.unwrap() as nat)
}

/// A block of type `block_type` starts at `pos` and is whole: its header
/// and data lie within the image, a declared total length covers the
/// header, and its span ends within the range of 64-bit offsets.
pub open spec fn whole_block(data: Seq<u8>, pos: nat, block_type: u8) -> bool {
    &&& pos < data.len()
    &&& data[pos as int] == block_type
    &&& canonical_definition(block_type).is_some()
    &&& body_at(data, pos) <= data.len()
    &&& definition_at(data, pos).span_len(header_at(data, pos)) >= 0
    &&& info_at(data, pos).data_len.is_some() ==> body_at(data, pos) + info_at(
        data,
        pos,
    ).data_len.unwrap() <= data.len()
    &&& end_at(data, pos) <= u64::MAX
}

/// A whole block is decoded by its header alone.
pub proof fn lemma_whole_block_step(data: Seq<u8>, s: ScanState, block_type: u8)
    requires
        whole_block(data, s.position as nat, block_type),
    ensures
        scan_step(data, canonical_table(), s) == block_step(
            data,
            s,
            info_at(data, s.position as nat),
            body_at(data, s.position as nat),
        ),
        scan_step(data, canonical_table(), s) is Advanced,
{
}

/// A deleted block is passed over: the scan goes on after its span,
/// nothing is emitted, and the record under assembly and the kept return
/// position stay as they were.
pub proof fn lemma_deleted_block_is_skipped(data: Seq<u8>, s: ScanState)
    requires
        whole_block(data, s.position as nat, 0),
    ensures
        scan_step(data, canonical_table(), s) == (Step::Advanced {
            next: ScanState {
                position: end_at(data, s.position as nat) as u64,
                saved_position: s.saved_position,
                record: s.record,
                capacity: s.capacity,
            },
            emitted: None,
        }),
{
    lemma_whole_block_step(data, s, 0);
}

/// A self-contained block, of type 1 or 2, starts at `pos`.
pub open spec fn self_contained(data: Seq<u8>, pos: nat) -> bool {
    whole_block(data, pos, 1) || whole_block(data, pos, 2)
}

/// A self-contained block emits its data as a record and the scan goes on
/// after it, or, where a return position was kept, returns there.
pub proof fn lemma_self_contained_step(data: Seq<u8>, s: ScanState)
    requires
        self_contained(data, s.position as nat),
    ensures
        scan_step(data, canonical_table(), s) == (Step::Advanced {
            next: ScanState {
                position: if s.saved_position.is_some() {
                    s.saved_position.unwrap()
                } else {
                    end_at(data, s.position as nat) as u64
                },
                saved_position: None,
                record: payload_at(data, s.position as nat),
                capacity: info_at(data, s.position as nat).record_len.unwrap() as nat,
            },
            emitted: Some(payload_at(data, s.position as nat)),
        }),
{
    let pos = s.position as nat;
    let payload = payload_at(data, pos);
    lemma_whole_block_step(data, s, data[pos as int]);
    assert(Seq::<u8>::empty() + payload.take(payload.len() as int) =~= payload);
}

/// A deleted block between two self-contained blocks does not show in
/// what is emitted and leaves the record after it as it is: three blocks
/// are consumed and two records emitted, the data of the first block and
/// of the third.
pub proof fn lemma_deleted_block_between_records(data: Seq<u8>, s: ScanState)
    requires
        s.saved_position.is_none(),
        self_contained(data, s.position as nat),
        whole_block(data, end_at(data, s.position as nat), 0),
        self_contained(data, end_at(data, end_at(data, s.position as nat))),
    ensures
        ({
            let first = s.position as nat;
            let third = end_at(data, end_at(data, first));
            let run = scan_run(data, canonical_table(), s, 3);
            &&& run.records == seq![payload_at(data, first), payload_at(data, third)]
            &&& run.blocks == 3
            &&& run.error.is_none()
            &&& run.last.position == end_at(data, third)
        }),
{
    let first = s.position as nat;
    let third = end_at(data, end_at(data, first));
    lemma_self_contained_step(data, s);
    let s1 = scan_step(data, canonical_table(), s)->next;
    lemma_deleted_block_is_skipped(data, s1);
    let s2 = scan_step(data, canonical_table(), s1)->next;
    lemma_self_contained_step(data, s2);
    let s3 = scan_step(data, canonical_table(), s2)->next;
    reveal_with_fuel(scan_run, 4);
    let run = scan_run(data, canonical_table(), s, 3);
    assert(run.records =~= seq![payload_at(data, first), payload_at(data, third)]);
}

/// `n` self-contained blocks lie one after the other from `pos`.
pub open spec fn self_contained_run(data: Seq<u8>, pos: nat, n: nat) -> bool
    decreases n,
{
    n == 0 || (self_contained(data, pos) && self_contained_run(
        data,
        end_at(data, pos),
        (n - 1) as nat,
    ))
}

/// The data of `n` consecutive blocks from `pos`, in order.
pub open spec fn run_payloads(data: Seq<u8>, pos: nat, n: nat) -> Seq<Seq<u8>>
    decreases n,
{
    if n == 0 {
        Seq::empty()
    } else {
        seq![payload_at(data, pos)] + run_payloads(data, end_at(data, pos), (n - 1) as nat)
    }
}

/// Where `n` consecutive blocks from `pos` end.
pub open spec fn run_end(data: Seq<u8>, pos: nat, n: nat) -> nat
    decreases n,
{
    if n == 0 {
        pos
    } else {
        run_end(data, end_at(data, pos), (n - 1) as nat)
    }
}

/// A scan over `n` consecutive self-contained blocks consumes `n` blocks
/// and emits `n` records, the data of each block in order, and stops
/// where the last block ends.
pub proof fn lemma_self_contained_blocks(data: Seq<u8>, s: ScanState, n: nat)
    requires
        s.saved_position.is_none(),
        self_contained_run(data, s.position as nat, n),
    ensures
        ({
            let run = scan_run(data, canonical_table(), s, n);
            &&& run.records == run_payloads(data, s.position as nat, n)
            &&& run.records.len() == n
            &&& run.blocks == n
            &&& run.error.is_none()
            &&& run.last.position == run_end(data, s.position as nat, n)
            &&& run.last.saved_position.is_none()
        }),
    decreases n,
{
    if n > 0 {
        lemma_self_contained_step(data, s);
        let next = scan_step(data, canonical_table(), s)->next;
        lemma_self_contained_blocks(data, next, (n - 1) as nat);
    }
}

/// A data image that consists of `n` self-contained blocks and nothing
/// else emits exactly `n` records, whatever limit of at least `n` blocks
/// the scan is given.
pub proof fn lemma_image_of_self_contained_blocks(data: Seq<u8>, n: nat, limit: nat)
    requires
        self_contained_run(data, 0, n),
        run_end(data, 0, n) == data.len(),
        limit >= n,
    ensures
        ({
            let run = scan_run(data, canonical_table(), start_state(), limit);
            &&& run.records == run_payloads(data, 0, n)
            &&& run.records.len() == n
            &&& run.blocks == n
            &&& run.error.is_none()
        }),
{
    let s = start_state();
    lemma_self_contained_blocks(data, s, n);
    let first = scan_run(data, canonical_table(), s, n);
    lemma_scan_run_split(data, canonical_table(), s, n, (limit - n) as nat);
    lemma_scan_ends_at_end_of_stream(data, canonical_table(), first.last, (limit - n) as nat);
    assert(first.records + Seq::<Seq<u8>>::empty() =~= first.records);
}

/// The image of a self-contained block: the type byte, 2 where `wide`
/// and else 1, the length of the data in three bytes or in two, and the
/// data.
pub open spec fn simple_block(payload: Seq<u8>, wide: bool) -> Seq<u8> {
    if wide {
        seq![2u8] + be_bytes(payload.len(), 3) + payload
    } else {
        seq![1u8] + be_bytes(payload.len(), 2) + payload
    }
}

/// The greatest length of data that a self-contained block can declare.
pub open spec fn simple_block_limit(wide: bool) -> nat {
    if wide {
        0xFF_FFFF
    } else {
        0xFFFF
    }
}

/// Where the image of a self-contained block lies at `pos`, the scan
/// finds a whole block there whose data are the payload and whose span
/// ends where the image ends.
pub proof fn lemma_simple_block_is_whole(data: Seq<u8>, pos: nat, payload: Seq<u8>, wide: bool)
    requires
        payload.len() <= simple_block_limit(wide),
        data.len() <= u64::MAX,
        pos + simple_block(payload, wide).len() <= data.len(),
        data.subrange(pos as int, (pos + simple_block(payload, wide).len()) as int) == simple_block(
            payload,
            wide,
        ),
    ensures
        self_contained(data, pos),
        payload_at(data, pos) == payload,
        end_at(data, pos) == pos + simple_block(payload, wide).len(),
{
    let width: nat = if wide { 3 } else { 2 };
    let image = simple_block(payload, wide);
    let piece = data.subrange(pos as int, (pos + image.len()) as int);
    lemma_pow256_values();
    lemma_be_roundtrip(payload.len(), width);
    assert(image.len() == 1 + width + payload.len());
    assert(data[pos as int] == piece[0]);
    let header = header_at(data, pos);
    assert(header =~= be_bytes(payload.len(), width)) by {
        assert forall|i: int| 0 <= i < width implies header[i] == be_bytes(payload.len(), width)[i] by {
            assert(header[i] == piece[i + 1]);
        }
    }
    assert(header.subrange(0, width as int) =~= header);
    assert(payload_at(data, pos) =~= payload) by {
        assert forall|i: int| 0 <= i < payload.len() implies payload_at(data, pos)[i]
            == payload[i] by {
            assert(data[pos + 1 + width + i] == piece[1 + width + i]);
        }
    }
}

/// The image of a sequence of self-contained blocks, one after the
/// other. Each block is its data and whether it is of the wide type.
pub open spec fn simple_blocks(blocks: Seq<(Seq<u8>, bool)>) -> Seq<u8>
    decreases blocks.len(),
{
    if blocks.len() == 0 {
        Seq::empty()
    } else {
        simple_block(blocks[0].0, blocks[0].1) + simple_blocks(blocks.skip(1))
    }
}

/// The data of the blocks, in order.
pub open spec fn payloads_of(blocks: Seq<(Seq<u8>, bool)>) -> Seq<Seq<u8>> {
    blocks.map_values(|block: (Seq<u8>, bool)| block.0)
}

/// Where the image of a sequence of self-contained blocks fills a data
/// image from `pos` to its end, the blocks lie there one after the other
/// and their data are the payloads.
pub proof fn lemma_simple_blocks_run(data: Seq<u8>, pos: nat, blocks: Seq<(Seq<u8>, bool)>)
    requires
        data.len() <= u64::MAX,
        pos <= data.len(),
        data.subrange(pos as int, data.len() as int) == simple_blocks(blocks),
        forall|i: int|
            0 <= i < blocks.len() ==> (#[trigger] blocks[i]).0.len() <= simple_block_limit(
                blocks[i].1,
            ),
    ensures
        self_contained_run(data, pos, blocks.len()),
        run_payloads(data, pos, blocks.len()) == payloads_of(blocks),
        run_end(data, pos, blocks.len()) == data.len(),
    decreases blocks.len(),
{
    if blocks.len() == 0 {
        assert(data.subrange(pos as int, data.len() as int).len() == 0);
        assert(run_payloads(data, pos, 0) =~= payloads_of(blocks));
    } else {
        let first = simple_block(blocks[0].0, blocks[0].1);
        let rest = blocks.skip(1);
        let tail = data.subrange(pos as int, data.len() as int);
        assert(tail.len() == first.len() + simple_blocks(rest).len());
        assert(data.subrange(pos as int, (pos + first.len()) as int) =~= first) by {
            assert forall|i: int| 0 <= i < first.len() implies data[pos + i] == first[i] by {
                assert(tail[i] == first[i]);
            }
        }
        lemma_simple_block_is_whole(data, pos, blocks[0].0, blocks[0].1);
        let next = pos + first.len();
        assert(data.subrange(next as int, data.len() as int) =~= simple_blocks(rest)) by {
            assert forall|i: int| 0 <= i < simple_blocks(rest).len() implies data[next + i]
                == simple_blocks(rest)[i] by {
                assert(tail[first.len() + i] == simple_blocks(rest)[i]);
            }
        }
        assert forall|i: int| 0 <= i < rest.len() implies (#[trigger] rest[i]).0.len()
            <= simple_block_limit(rest[i].1) by {
            assert(rest[i] == blocks[i + 1]);
        }
        lemma_simple_blocks_run(data, next as nat, rest);
        assert(payloads_of(blocks) =~= seq![blocks[0].0] + payloads_of(rest));
    }
}

/// A data image composed of `n` self-contained blocks emits exactly `n`
/// records: the data of each block, in order. The scan consumes `n`
/// blocks and ends without failure, whatever limit of at least `n` blocks
/// it is given.
pub proof fn lemma_block_emission_count(blocks: Seq<(Seq<u8>, bool)>, limit: nat)
    requires
        simple_blocks(blocks).len() <= u64::MAX,
        forall|i: int|
            0 <= i < blocks.len() ==> (#[trigger] blocks[i]).0.len() <= simple_block_limit(
                blocks[i].1,
            ),
        limit >= blocks.len(),
    ensures
        ({
            let run = scan_run(simple_blocks(blocks), canonical_table(), start_state(), limit);
            &&& run.records == payloads_of(blocks)
            &&& run.records.len() == blocks.len()
            &&& run.blocks == blocks.len()
            &&& run.error.is_none()
        }),
{
    let data = simple_blocks(blocks);
    assert(data.subrange(0, data.len() as int) =~= data);
    lemma_simple_blocks_run(data, 0, blocks);
    lemma_image_of_self_contained_blocks(data, blocks.len(), limit);
}

/// A chained record: `links` are the positions of its blocks in chain
/// order. The first is a head block of type 5, the last a continuation
/// block of type 7 or 9, which names no next position, and those between
/// are continuation blocks of type 11; each but the last names the
/// position of the one after it.
pub open spec fn chain(data: Seq<u8>, links: Seq<u64>) -> bool {
    &&& links.len() >= 2
    &&& whole_block(data, links[0] as nat, 5)
    &&& info_at(data, links[0] as nat).next_filepos == Some(links[1])
    &&& forall|i: int|
        1 <= i < links.len() - 1 ==> whole_block(data, #[trigger] links[i] as nat, 11)
            && info_at(data, links[i] as nat).next_filepos == Some(links[i + 1])
    &&& whole_block(data, links.last() as nat, 7) || whole_block(data, links.last() as nat, 9)
}

/// The data of the blocks at `links[from..]`, one after the other.
pub open spec fn chain_payloads(data: Seq<u8>, links: Seq<u64>, from: nat) -> Seq<u8>
    decreases links.len() - from,
{
    if from >= links.len() {
        Seq::empty()
    } else {
        payload_at(data, links[from as int] as nat) + chain_payloads(data, links, from + 1)
    }
}

/// `bytes`, cut to at most `capacity` bytes.
pub open spec fn cut(bytes: Seq<u8>, capacity: nat) -> Seq<u8> {
    bytes.take(least(bytes.len(), capacity) as int)
}

/// Appending data as far as there is room, and then more, comes to the
/// same as appending all of it and cutting once.
pub proof fn lemma_cut_append(record: Seq<u8>, payload: Seq<u8>, rest: Seq<u8>, capacity: nat)
    requires
        record.len() <= capacity,
    ensures
        (record + payload.take(least(payload.len(), room(capacity, record.len())) as int)).len()
            <= capacity,
        cut(
            (record + payload.take(least(payload.len(), room(capacity, record.len())) as int))
                + rest,
            capacity,
        ) == cut(record + (payload + rest), capacity),
{
    let kept = record + payload.take(least(payload.len(), room(capacity, record.len())) as int);
    assert(cut(kept + rest, capacity) =~= cut(record + (payload + rest), capacity));
}

/// The record after the data of the block at `pos` have been appended
/// to `record` as far as `capacity` leaves room.
pub open spec fn extended(data: Seq<u8>, pos: nat, record: Seq<u8>, capacity: nat) -> Seq<u8> {
    record + payload_at(data, pos).take(
        least(payload_at(data, pos).len(), room(capacity, record.len())) as int,
    )
}

/// A head block that names a next position starts a record with its
/// data, keeps the position after its span for the return, and sends the
/// scan to the next position. Nothing is emitted yet.
pub proof fn lemma_head_step(data: Seq<u8>, s: ScanState)
    requires
        whole_block(data, s.position as nat, 5),
        s.saved_position.is_none(),
    ensures
        scan_step(data, canonical_table(), s) == (Step::Advanced {
            next: ScanState {
                position: info_at(data, s.position as nat).next_filepos.unwrap(),
                saved_position: Some(end_at(data, s.position as nat) as u64),
                record: extended(
                    data,
                    s.position as nat,
                    Seq::empty(),
                    info_at(data, s.position as nat).record_len.unwrap() as nat,
                ),
                capacity: info_at(data, s.position as nat).record_len.unwrap() as nat,
            },
            emitted: None,
        }),
{
    lemma_whole_block_step(data, s, 5);
}

/// Within a chain, a continuation block that names a next position adds
/// its data to the record and sends the scan on; the kept return
/// position stays. Nothing is emitted yet.
pub proof fn lemma_link_step(data: Seq<u8>, s: ScanState)
    requires
        whole_block(data, s.position as nat, 11),
        s.saved_position.is_some(),
    ensures
        scan_step(data, canonical_table(), s) == (Step::Advanced {
            next: ScanState {
                position: info_at(data, s.position as nat).next_filepos.unwrap(),
                saved_position: s.saved_position,
                record: extended(data, s.position as nat, s.record, s.capacity),
                capacity: s.capacity,
            },
            emitted: None,
        }),
{
    lemma_whole_block_step(data, s, 11);
}

/// Within a chain, a continuation block that names no next position
/// adds its data to the record, completes it, and returns the scan to
/// the kept position.
pub proof fn lemma_tail_step(data: Seq<u8>, s: ScanState)
    requires
        whole_block(data, s.position as nat, 7) || whole_block(data, s.position as nat, 9),
        s.saved_position.is_some(),
    ensures
        scan_step(data, canonical_table(), s) == (Step::Advanced {
            next: ScanState {
                position: s.saved_position.unwrap(),
                saved_position: None,
                record: extended(data, s.position as nat, s.record, s.capacity),
                capacity: s.capacity,
            },
            emitted: Some(extended(data, s.position as nat, s.record, s.capacity)),
        }),
{
    lemma_whole_block_step(data, s, data[s.position as int]);
}

/// Within a chain, from the block at `links[i]` on: the scan follows the
/// chain to its last block, emits one record there, which is the record
/// so far and the data of the remaining blocks, cut to the declared
/// record length, and returns to the kept position.
pub proof fn lemma_chain_tail(data: Seq<u8>, links: Seq<u64>, i: nat, s: ScanState)
    requires
        chain(data, links),
        1 <= i < links.len(),
        s.position == links[i as int],
        s.saved_position.is_some(),
        s.record.len() <= s.capacity,
    ensures
        ({
            let record = cut(s.record + chain_payloads(data, links, i), s.capacity);
            scan_run(data, canonical_table(), s, (links.len() - i) as nat) == (ScanRun {
                records: seq![record],
                blocks: (links.len() - i) as nat,
                error: None,
                last: ScanState {
                    position: s.saved_position.unwrap(),
                    saved_position: None,
                    record,
                    capacity: s.capacity,
                },
            })
        }),
    decreases links.len() - i,
{
    let pos = s.position as nat;
    let payload = payload_at(data, pos);
    let rest = chain_payloads(data, links, i + 1);
    let kept = extended(data, pos, s.record, s.capacity);
    let record = cut(s.record + chain_payloads(data, links, i), s.capacity);
    lemma_cut_append(s.record, payload, rest, s.capacity);
    assert(chain_payloads(data, links, i) == payload + rest);
    assert(record == cut(kept + rest, s.capacity));
    let left = (links.len() - i) as nat;
    if i == links.len() - 1 {
        assert(links[i as int] == links.last());
        lemma_tail_step(data, s);
        assert(rest =~= Seq::<u8>::empty());
        assert(kept + rest =~= kept);
        assert(cut(kept, s.capacity) =~= kept);
        let next = scan_step(data, canonical_table(), s)->next;
        let after = scan_run(data, canonical_table(), next, 0);
        assert(after.records =~= Seq::<Seq<u8>>::empty());
        assert(scan_run(data, canonical_table(), s, 1).records == emission(Some(kept))
            + after.records);
        assert(emission(Some(kept)) + Seq::<Seq<u8>>::empty() =~= seq![kept]);
    } else {
        assert(whole_block(data, links[i as int] as nat, 11));
        lemma_link_step(data, s);
        let next = scan_step(data, canonical_table(), s)->next;
        lemma_chain_tail(data, links, i + 1, next);
        let after = scan_run(data, canonical_table(), next, (left - 1) as nat);
        assert(scan_run(data, canonical_table(), s, left).records == emission(None)
            + after.records);
        assert(emission(None) + seq![record] =~= seq![record]);
    }
}

/// Whether the bytes `image` lie in `data` at `pos`.
pub open spec fn lies_at(data: Seq<u8>, pos: nat, image: Seq<u8>) -> bool {
    &&& pos + image.len() <= data.len()
    &&& data.subrange(pos as int, (pos + image.len()) as int) == image
}

/// Part of an image that lies in `data` lies there too.
pub proof fn lemma_lies_at_part(data: Seq<u8>, pos: nat, image: Seq<u8>, start: nat, end: nat)
    requires
        lies_at(data, pos, image),
        start <= end <= image.len(),
    ensures
        data.subrange((pos + start) as int, (pos + end) as int) == image.subrange(
            start as int,
            end as int,
        ),
{
    let piece = data.subrange(pos as int, (pos + image.len()) as int);
    let found = data.subrange((pos + start) as int, (pos + end) as int);
    let part = image.subrange(start as int, end as int);
    assert forall|i: int| 0 <= i < end - start implies #[trigger] found[i] == part[i] by {
        assert(piece[start + i] == image[start + i]);
    }
    assert(found =~= part);
}

/// The image of a head block of a chain: the type byte 5, the record
/// length and the data length in two bytes each, the next position in
/// eight, and the data.
pub open spec fn head_block(record_len: nat, payload: Seq<u8>, next: u64) -> Seq<u8> {
    seq![5u8] + be_bytes(record_len, 2) + be_bytes(payload.len(), 2) + be_bytes(next as nat, 8)
        + payload
}

/// The image of a continuation block that names a next position: the
/// type byte 11, the data length in two bytes, the next position in
/// eight, and the data.
pub open spec fn link_block(payload: Seq<u8>, next: u64) -> Seq<u8> {
    seq![11u8] + be_bytes(payload.len(), 2) + be_bytes(next as nat, 8) + payload
}

/// The image of a continuation block that ends a chain: the type byte
/// 7, the data length in two bytes, and the data.
pub open spec fn tail_block(payload: Seq<u8>) -> Seq<u8> {
    seq![7u8] + be_bytes(payload.len(), 2) + payload
}

/// Where the image of a head block lies at `pos`, the scan finds a whole
/// block of type 5 there with the record length, the next position and
/// the data of the image.
pub proof fn lemma_head_block_is_whole(
    data: Seq<u8>,
    pos: nat,
    record_len: nat,
    payload: Seq<u8>,
    next: u64,
)
    requires
        record_len <= 0xFFFF,
        payload.len() <= 0xFFFF,
        data.len() <= u64::MAX,
        lies_at(data, pos, head_block(record_len, payload, next)),
    ensures
        whole_block(data, pos, 5),
        info_at(data, pos).record_len == Some(record_len as u32),
        info_at(data, pos).next_filepos == Some(next),
        payload_at(data, pos) == payload,
        end_at(data, pos) == pos + 13 + payload.len(),
{
    let image = head_block(record_len, payload, next);
    lemma_pow256_values();
    lemma_be_roundtrip(record_len, 2);
    lemma_be_roundtrip(payload.len(), 2);
    lemma_be_roundtrip(next as nat, 8);
    assert(image.len() == 13 + payload.len());
    lemma_lies_at_part(data, pos, image, 0, 1);
    assert(data[pos as int] == data.subrange(pos as int, (pos + 1) as int)[0]);
    lemma_lies_at_part(data, pos, image, 1, 13);
    let header = header_at(data, pos);
    assert(header.subrange(0, 2) =~= be_bytes(record_len, 2));
    assert(header.subrange(2, 4) =~= be_bytes(payload.len(), 2));
    assert(header.subrange(4, 12) =~= be_bytes(next as nat, 8));
    lemma_lies_at_part(data, pos, image, 13, image.len());
    assert(image.subrange(13, image.len() as int) =~= payload);
}

/// Where the image of a linking continuation block lies at `pos`, the
/// scan finds a whole block of type 11 there with the next position and
/// the data of the image.
pub proof fn lemma_link_block_is_whole(data: Seq<u8>, pos: nat, payload: Seq<u8>, next: u64)
    requires
        payload.len() <= 0xFFFF,
        data.len() <= u64::MAX,
        lies_at(data, pos, link_block(payload, next)),
    ensures
        whole_block(data, pos, 11),
        info_at(data, pos).next_filepos == Some(next),
        payload_at(data, pos) == payload,
        end_at(data, pos) == pos + 11 + payload.len(),
{
    let image = link_block(payload, next);
    lemma_pow256_values();
    lemma_be_roundtrip(payload.len(), 2);
    lemma_be_roundtrip(next as nat, 8);
    assert(image.len() == 11 + payload.len());
    lemma_lies_at_part(data, pos, image, 0, 1);
    assert(data[pos as int] == data.subrange(pos as int, (pos + 1) as int)[0]);
    lemma_lies_at_part(data, pos, image, 1, 11);
    let header = header_at(data, pos);
    assert(header.subrange(0, 2) =~= be_bytes(payload.len(), 2));
    assert(header.subrange(2, 10) =~= be_bytes(next as nat, 8));
    lemma_lies_at_part(data, pos, image, 11, image.len());
    assert(image.subrange(11, image.len() as int) =~= payload);
}

/// Where the image of a closing continuation block lies at `pos`, the
/// scan finds a whole block of type 7 there with the data of the image.
pub proof fn lemma_tail_block_is_whole(data: Seq<u8>, pos: nat, payload: Seq<u8>)
    requires
        payload.len() <= 0xFFFF,
        data.len() <= u64::MAX,
        lies_at(data, pos, tail_block(payload)),
    ensures
        whole_block(data, pos, 7),
        info_at(data, pos).next_filepos.is_none(),
        payload_at(data, pos) == payload,
        end_at(data, pos) == pos + 3 + payload.len(),
{
    let image = tail_block(payload);
    lemma_pow256_values();
    lemma_be_roundtrip(payload.len(), 2);
    assert(image.len() == 3 + payload.len());
    lemma_lies_at_part(data, pos, image, 0, 1);
    assert(data[pos as int] == data.subrange(pos as int, (pos + 1) as int)[0]);
    lemma_lies_at_part(data, pos, image, 1, 3);
    let header = header_at(data, pos);
    assert(header.subrange(0, 2) =~= be_bytes(payload.len(), 2));
    lemma_lies_at_part(data, pos, image, 3, image.len());
    assert(image.subrange(3, image.len() as int) =~= payload);
}

/// A record split across a head block and a chain of continuation
/// blocks is emitted once, when the last block of the chain has been
/// read: its bytes are the data of the blocks in chain order, cut to the
/// record length that the head block declares. The scan consumes one
/// block per link and then stands at the position that follows the span
/// of the head block, with no return position kept.
pub proof fn lemma_chain_reassembly(data: Seq<u8>, links: Seq<u64>, s: ScanState)
    requires
        chain(data, links),
        s.position == links[0],
        s.saved_position.is_none(),
    ensures
        ({
            let capacity = info_at(data, links[0] as nat).record_len.unwrap() as nat;
            let record = cut(chain_payloads(data, links, 0), capacity);
            scan_run(data, canonical_table(), s, links.len()) == (ScanRun {
                records: seq![record],
                blocks: links.len(),
                error: None,
                last: ScanState {
                    position: end_at(data, links[0] as nat) as u64,
                    saved_position: None,
                    record,
                    capacity,
                },
            })
        }),
{
    let pos = s.position as nat;
    let capacity = info_at(data, pos).record_len.unwrap() as nat;
    let payload = payload_at(data, pos);
    let rest = chain_payloads(data, links, 1);
    lemma_head_step(data, s);
    lemma_cut_append(Seq::empty(), payload, rest, capacity);
    let next = scan_step(data, canonical_table(), s)->next;
    lemma_chain_tail(data, links, 1, next);
    assert(chain_payloads(data, links, 0) == payload + rest);
    assert(Seq::<u8>::empty() + (payload + rest) =~= payload + rest);
    let record = cut(chain_payloads(data, links, 0), capacity);
    let after = scan_run(data, canonical_table(), next, (links.len() - 1) as nat);
    assert(scan_run(data, canonical_table(), s, links.len()).records == emission(None)
        + after.records);
    assert(emission(None) + seq![record] =~= seq![record]);
}

/// The image of a continuation block with slack that ends a chain: the
/// type byte 9, the data length in two bytes, the length of the slack in
/// one, and the data. The slack follows the image.
pub open spec fn slack_tail_block(payload: Seq<u8>, slack: u8) -> Seq<u8> {
    seq![9u8] + be_bytes(payload.len(), 2) + seq![slack] + payload
}

/// The image of the header of a deleted block: the type byte 0, the
/// total length in three bytes, the next position in the list of free
/// blocks in eight, and eight more bytes.
pub open spec fn deleted_block(total: nat, next: u64, reserved: Seq<u8>) -> Seq<u8> {
    seq![0u8] + be_bytes(total, 3) + be_bytes(next as nat, 8) + reserved
}

/// Where the image of a closing continuation block with slack lies at
/// `pos`, the scan finds a whole block of type 9 there with the data of
/// the image, and its span ends after the slack.
pub proof fn lemma_slack_tail_block_is_whole(data: Seq<u8>, pos: nat, payload: Seq<u8>, slack: u8)
    requires
        payload.len() <= 0xFFFF,
        pos + 4 + payload.len() + slack <= u64::MAX,
        lies_at(data, pos, slack_tail_block(payload, slack)),
    ensures
        whole_block(data, pos, 9),
        info_at(data, pos).next_filepos.is_none(),
        payload_at(data, pos) == payload,
        end_at(data, pos) == pos + 4 + payload.len() + slack,
{
    let image = slack_tail_block(payload, slack);
    lemma_pow256_values();
    lemma_be_roundtrip(payload.len(), 2);
    assert(image.len() == 4 + payload.len());
    lemma_lies_at_part(data, pos, image, 0, 1);
    assert(data[pos as int] == data.subrange(pos as int, (pos + 1) as int)[0]);
    lemma_lies_at_part(data, pos, image, 1, 4);
    let header = header_at(data, pos);
    assert(header.subrange(0, 2) =~= be_bytes(payload.len(), 2));
    assert(header.subrange(2, 3) =~= seq![slack]);
    assert(be_value(seq![slack]) == slack) by {
        reveal_with_fuel(be_value, 2);
    }
    lemma_lies_at_part(data, pos, image, 4, image.len());
    assert(image.subrange(4, image.len() as int) =~= payload);
}

/// Where the image of the header of a deleted block lies at `pos` and
/// declares a total length that covers the header, the scan finds a whole
/// block of type 0 there, and its span ends at the declared total length
/// after the type byte.
pub proof fn lemma_deleted_block_is_whole(
    data: Seq<u8>,
    pos: nat,
    total: nat,
    next: u64,
    reserved: Seq<u8>,
)
    requires
        19 <= total <= 0xFF_FFFF,
        reserved.len() == 8,
        pos + 1 + total <= u64::MAX,
        lies_at(data, pos, deleted_block(total, next, reserved)),
    ensures
        whole_block(data, pos, 0),
        end_at(data, pos) == pos + 1 + total,
{
    let image = deleted_block(total, next, reserved);
    lemma_pow256_values();
    lemma_be_roundtrip(total, 3);
    lemma_be_roundtrip(next as nat, 8);
    assert(image.len() == 20);
    lemma_lies_at_part(data, pos, image, 0, 1);
    assert(data[pos as int] == data.subrange(pos as int, (pos + 1) as int)[0]);
    lemma_lies_at_part(data, pos, image, 1, 20);
    let header = header_at(data, pos);
    assert(header.subrange(0, 3) =~= be_bytes(total, 3));
}

/// The images of the blocks of a chained record lie in `data`: a head
/// block at `links[0]` that declares `record_len`, linking continuation
/// blocks at the positions between, and a closing continuation block at
/// the last position, with `slack` bytes of slack if any; each names the
/// position of the next, and `payloads` are their data, in chain order.
pub open spec fn chain_image(
    data: Seq<u8>,
    links: Seq<u64>,
    payloads: Seq<Seq<u8>>,
    record_len: nat,
    slack: Option<u8>,
) -> bool {
    &&& links.len() >= 2
    &&& payloads.len() == links.len()
    &&& data.len() <= u64::MAX
    &&& record_len <= 0xFFFF
    &&& forall|i: int| 0 <= i < payloads.len() ==> (#[trigger] payloads[i]).len() <= 0xFFFF
    &&& lies_at(data, links[0] as nat, head_block(record_len, payloads[0], links[1]))
    &&& forall|i: int|
        1 <= i < links.len() - 1 ==> lies_at(
            data,
            #[trigger] links[i] as nat,
            link_block(payloads[i], links[i + 1]),
        )
    &&& match slack {
        None => lies_at(data, links.last() as nat, tail_block(payloads.last())),
        Some(k) => links.last() + 4 + payloads.last().len() + k <= u64::MAX && lies_at(
            data,
            links.last() as nat,
            slack_tail_block(payloads.last(), k),
        ),
    }
}

/// The sequences `payloads[from..]`, one after the other.
pub open spec fn joined(payloads: Seq<Seq<u8>>, from: nat) -> Seq<u8>
    decreases payloads.len() - from,
{
    if from >= payloads.len() {
        Seq::empty()
    } else {
        payloads[from as int] + joined(payloads, from + 1)
    }
}

/// Where the images of the blocks of a chained record lie in a data
/// image, the scan finds the chain, and the data of its blocks are the
/// payloads.
pub proof fn lemma_chain_image_is_chain(
    data: Seq<u8>,
    links: Seq<u64>,
    payloads: Seq<Seq<u8>>,
    record_len: nat,
    slack: Option<u8>,
)
    requires
        chain_image(data, links, payloads, record_len, slack),
    ensures
        chain(data, links),
        info_at(data, links[0] as nat).record_len == Some(record_len as u32),
        end_at(data, links[0] as nat) == links[0] + 13 + payloads[0].len(),
        forall|i: int|
            0 <= i < links.len() ==> payload_at(data, #[trigger] links[i] as nat) == payloads[i],
{
    let last = links.len() - 1;
    lemma_head_block_is_whole(data, links[0] as nat, record_len, payloads[0], links[1]);
    match slack {
        None => {
            lemma_tail_block_is_whole(data, links[last] as nat, payloads[last]);
        },
        Some(k) => {
            lemma_slack_tail_block_is_whole(data, links[last] as nat, payloads[last], k);
        },
    }
    assert forall|i: int| 1 <= i < links.len() - 1 implies whole_block(
        data,
        #[trigger] links[i] as nat,
        11,
    ) && info_at(data, links[i] as nat).next_filepos == Some(links[i + 1]) && payload_at(
        data,
        links[i] as nat,
    ) == payloads[i] by {
        lemma_link_block_is_whole(data, links[i] as nat, payloads[i], links[i + 1]);
    }
    assert forall|i: int| 0 <= i < links.len() implies payload_at(
        data,
        #[trigger] links[i] as nat,
    ) == payloads[i] by {
        if 1 <= i < links.len() - 1 {
            assert(whole_block(data, links[i] as nat, 11));
        }
    }
}

/// The data of the blocks of a chain, joined, are the payloads, joined.
pub proof fn lemma_chain_payloads_joined(
    data: Seq<u8>,
    links: Seq<u64>,
    payloads: Seq<Seq<u8>>,
    from: nat,
)
    requires
        payloads.len() == links.len(),
        forall|i: int|
            0 <= i < links.len() ==> payload_at(data, #[trigger] links[i] as nat) == payloads[i],
    ensures
        chain_payloads(data, links, from) == joined(payloads, from),
    decreases links.len() - from,
{
    if from < links.len() {
        lemma_chain_payloads_joined(data, links, payloads, from + 1);
        assert(payload_at(data, links[from as int] as nat) == payloads[from as int]);
    }
}

/// A record written as a head block and continuation blocks, wherever
/// in the data image they lie, is emitted once: its bytes are the
/// payloads in chain order, cut to the record length that the head block
/// declares. The scan consumes one block per link and then stands right
/// after the head block.
pub proof fn lemma_chain_image_reassembly(
    data: Seq<u8>,
    links: Seq<u64>,
    payloads: Seq<Seq<u8>>,
    record_len: nat,
    slack: Option<u8>,
    s: ScanState,
)
    requires
        chain_image(data, links, payloads, record_len, slack),
        s.position == links[0],
        s.saved_position.is_none(),
    ensures
        ({
            let record = cut(joined(payloads, 0), record_len);
            scan_run(data, canonical_table(), s, links.len()) == (ScanRun {
                records: seq![record],
                blocks: links.len(),
                error: None,
                last: ScanState {
                    position: (links[0] + 13 + payloads[0].len()) as u64,
                    saved_position: None,
                    record,
                    capacity: record_len,
                },
            })
        }),
{
    lemma_chain_image_is_chain(data, links, payloads, record_len, slack);
    lemma_chain_payloads_joined(data, links, payloads, 0);
    lemma_chain_reassembly(data, links, s);
}

/// After a chain has been followed to its end, the scan resumes with the
/// block that follows the span of the head block: a scan of the chain and
/// `more` blocks is the chained record and then what a scan of `more`
/// blocks from that position gives.
pub proof fn lemma_resumption(data: Seq<u8>, links: Seq<u64>, s: ScanState, more: nat)
    requires
        chain(data, links),
        s.position == links[0],
        s.saved_position.is_none(),
    ensures
        ({
            let capacity = info_at(data, links[0] as nat).record_len.unwrap() as nat;
            let record = cut(chain_payloads(data, links, 0), capacity);
            let resumed = ScanState {
                position: end_at(data, links[0] as nat) as u64,
                saved_position: None,
                record,
                capacity,
            };
            let rest = scan_run(data, canonical_table(), resumed, more);
            scan_run(data, canonical_table(), s, links.len() + more) == (ScanRun {
                records: seq![record] + rest.records,
                blocks: links.len() + rest.blocks,
                error: rest.error,
                last: rest.last,
            })
        }),
{
    lemma_chain_reassembly(data, links, s);
    lemma_scan_run_split(data, canonical_table(), s, links.len(), more);
}

} // verus!
