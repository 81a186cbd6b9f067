//! The scan of a data image: one block at a time, records reassembled
//! along chains of continuation blocks.

use vstd::prelude::*;
use crate::blocks::{checked_block_info, table_well_formed, MIRecordBlock, MIRecordBlockDef};
use crate::bytes::{available, span, ByteReader};
use crate::index::{index_walk, read_table_state};
use crate::error::{DecodeError, HeaderField, IoCause};

verus! {

/// Where a scan stands: the position of the next block, and, while a
/// chain of continuation blocks is followed, the position to return to.
#[derive(Debug, Clone, Copy, PartialEq, Eq)]
pub struct ScanCursor {
    pub position: u64,
    pub saved_position: Option<u64>,
}

/// The state of a scan between two blocks: the cursor, the bytes of the
/// record under assembly, and the length that its head block declared.
pub struct ScanState {
    pub position: u64,
    pub saved_position: Option<u64>,
    pub record: Seq<u8>,
    pub capacity: nat,
}

/// What one block does to a scan.
pub enum Step {
    /// No byte is left at the position.
    EndOfStream,
    /// The block cannot be decoded.
    Failed(DecodeError),
    /// The block was consumed; `emitted` is the record that it completed.
    Advanced { next: ScanState, emitted: Option<Seq<u8>> },
}

/// The state in which every scan starts.
pub open spec fn start_state() -> ScanState {
    ScanState { position: 0, saved_position: None, record: Seq::empty(), capacity: 0 }
}

/// How many more bytes a record of `len` bytes may take.
pub open spec fn room(capacity: nat, len: nat) -> nat {
    if len <= capacity {
        (capacity - len) as nat
    } else {
        0
    }
}

/// The smaller of two numbers.
pub open spec fn least(a: nat, b: nat) -> nat {
    if a <= b {
        a
    } else {
        b
    }
}

/// The offset at which a malformed block length was read: the start of
/// its range in the header that begins at `header_start`.
pub open spec fn block_len_offset(definition: MIRecordBlockDef, header_start: nat) -> u64 {
    match definition.block_len {
        None => header_start as u64,
        Some((start, _)) => (header_start + start) as u64,
    }
}

/// The effect of the block at the position of `s`.
///
/// The byte at the position selects the encoding; a byte without one is
/// fatal. The header follows, and must be complete. The rest is
/// [`block_step`].
pub open spec fn scan_step(
    data: Seq<u8>,
    table: Seq<Option<MIRecordBlockDef>>,
    s: ScanState,
) -> Step {
    let pos = s.position as nat;
    if pos >= data.len() {
        Step::EndOfStream
    } else {
        let byte = data[pos as int];
        match table[byte as int] {
            None => Step::Failed(DecodeError::UnknownBlockType { byte, offset: s.position }),
            Some(definition) => {
                let header_start = pos + 1;
                let left = available(data.len(), header_start);
                if definition.header_len > left {
                    Step::Failed(
                        DecodeError::TruncatedError {
                            offset: header_start as u64,
                            expected: definition.header_len as u64,
                            got: left as u64,
                        },
                    )
                } else {
                    let header = span(data, header_start, definition.header_len as nat);
                    if definition.span_len(header) < 0 {
                        Step::Failed(
                            DecodeError::MalformedHeader {
                                field: HeaderField::BlockLen,
                                offset: block_len_offset(definition, header_start),
                            },
                        )
                    } else {
                        block_step(
                            data,
                            s,
                            definition.info(header),
                            header_start + definition.header_len as nat,
                        )
                    }
                }
            },
        }
    }
}

/// The effect of a block whose header said `info` and whose span starts
/// at `body`.
///
/// A block with a record length starts a new record. Its data, or those
/// of a block met while a chain is followed, are appended to the record
/// as far as the declared record length leaves room; they must all be
/// present. The scan then goes on after the span, unless the block was
/// read and names a next position, which is then followed, the place
/// after the span being kept for the return if none is kept yet; a block
/// without a next position ends a chain and returns to the kept place.
/// A block that was read and names no next position completes the record.
pub open spec fn block_step(data: Seq<u8>, s: ScanState, info: MIRecordBlock, body: nat) -> Step {
    let is_head = info.record_len.is_some();
    let before = if is_head {
        Seq::<u8>::empty()
    } else {
        s.record
    };
    let capacity = if is_head {
        info.record_len.unwrap() as nat
    } else {
        s.capacity
    };
    let should_read = info.data_len.is_some() && (is_head || s.saved_position.is_some());
    let left = available(data.len(), body);
    if should_read && info.data_len.unwrap() > left {
        Step::Failed(
            DecodeError::TruncatedError {
                offset: body as u64,
                expected: info.data_len.unwrap() as u64,
                got: left as u64,
            },
        )
    } else if body + info.block_len > u64::MAX {
        Step::Failed(DecodeError::IoError { source: IoCause::SeekOutOfRange })
    } else {
        let record = if should_read {
            let payload = span(data, body, info.data_len.unwrap() as nat);
            before + payload.take(least(payload.len(), room(capacity, before.len())) as int)
        } else {
            before
        };
        let after = (body + info.block_len) as u64;
        let follow = should_read && info.next_filepos.is_some();
        let position = if follow {
            info.next_filepos.unwrap()
        } else if info.next_filepos.is_none() && s.saved_position.is_some() {
            s.saved_position.unwrap()
        } else {
            after
        };
        let saved_position = if follow && s.saved_position.is_none() {
            Some(after)
        } else if info.next_filepos.is_none() {
            None
        } else {
            s.saved_position
        };
        Step::Advanced {
            next: ScanState { position, saved_position, record, capacity },
            emitted: if should_read && info.next_filepos.is_none() {
                Some(record)
            } else {
                None
            },
        }
    }
}

/// What a scan of several blocks amounts to.
pub struct ScanRun {
    /// The records emitted, in order.
    pub records: Seq<Seq<u8>>,
    /// The number of blocks consumed.
    pub blocks: nat,
    /// The failure that ended the scan, if one did.
    pub error: Option<DecodeError>,
    /// The state in which the scan stopped.
    pub last: ScanState,
}

/// The records that a step emitted: one or none.
pub open spec fn emission(emitted: Option<Seq<u8>>) -> Seq<Seq<u8>> {
    match emitted {
        None => Seq::empty(),
        Some(record) => seq![record],
    }
}

/// The scan of at most `limit` blocks from state `s`: block after block
/// until the image ends, a block fails, or the limit is reached.
pub open spec fn scan_run(
    data: Seq<u8>,
    table: Seq<Option<MIRecordBlockDef>>,
    s: ScanState,
    limit: nat,
) -> ScanRun
    decreases limit,
{
    if limit == 0 {
        ScanRun { records: Seq::empty(), blocks: 0, error: None, last: s }
    } else {
        match scan_step(data, table, s) {
            Step::EndOfStream => ScanRun {
                records: Seq::empty(),
                blocks: 0,
                error: None,
                last: s,
            },
            Step::Failed(e) => ScanRun {
                records: Seq::empty(),
                blocks: 0,
                error: Some(e),
                last: s,
            },
            Step::Advanced { next, emitted } => {
                let rest = scan_run(data, table, next, (limit - 1) as nat);
                ScanRun {
                    records: emission(emitted) + rest.records,
                    blocks: rest.blocks + 1,
                    error: rest.error,
                    last: rest.last,
                }
            },
        }
    }
}

/// The byte sequences that a vector of records holds.
pub open spec fn records_of(records: Seq<Vec<u8>>) -> Seq<Seq<u8>> {
    records.map_values(|record: Vec<u8>| record@)
}

/// What a step of the scanner found.
#[derive(Debug, Clone, PartialEq, Eq)]
pub enum StepOutcome {
    /// No block was left.
    EndOfStream,
    /// One block was consumed; `emitted` is the record that it completed.
    Block { emitted: Option<Vec<u8>> },
}

/// Appends the first `count` bytes of `bytes` to `record`.
fn append_prefix(record: &mut Vec<u8>, bytes: &[u8], count: usize)
    requires
        count <= bytes@.len(),
    ensures
        final(record)@ == old(record)@ + bytes@.take(count as int),
{
    let mut i: usize = 0;
    while i < count
        invariant
            i <= count <= bytes@.len(),
            record@ == old(record)@ + bytes@.take(i as int),
        decreases count - i,
    {
        record.push(bytes[i]);
        proof {
            assert(bytes@.take(i + 1) =~= bytes@.take(i as int).push(bytes@[i as int]));
            assert(record@ =~= old(record)@ + bytes@.take(i + 1));
        }
        i += 1;
    }
}

/// A scan in progress over one data image.
pub struct RecordScanner<'a> {
    reader: ByteReader<'a>,
    saved_position: Option<u64>,
    record: Vec<u8>,
    capacity: u32,
}

impl<'a> RecordScanner<'a> {
    /// The image under scan.
    pub closed spec fn image(&self) -> Seq<u8> {
        self.reader.source()
    }

    /// The state of the scan.
    pub closed spec fn state(&self) -> ScanState {
        ScanState {
            position: self.reader.offset(),
            saved_position: self.saved_position,
            record: self.record@,
            capacity: self.capacity as nat,
        }
    }

    /// A scan at the start of `data`.
    pub fn new(data: &'a [u8]) -> (scanner: Self)
        ensures
            scanner.image() == data@,
            scanner.state() == start_state(),
    {
        RecordScanner {
            reader: ByteReader::new(data),
            saved_position: None,
            record: Vec::new(),
            capacity: 0,
        }
    }

    /// The position of the next block and the kept return position.
    pub fn cursor(&self) -> (cursor: ScanCursor)
        ensures
            cursor.position == self.state().position,
            cursor.saved_position == self.state().saved_position,
    {
        ScanCursor { position: self.reader.position(), saved_position: self.saved_position }
    }

    /// Consumes the block at the position, if there is one. After a
    /// failure the scanner is of no further use.
    pub fn step(&mut self, block_types: &[Option<MIRecordBlockDef>]) -> (result: Result<
        StepOutcome,
        DecodeError,
    >)
        requires
            table_well_formed(block_types@),
        ensures
            final(self).image() == old(self).image(),
            match scan_step(old(self).image(), block_types@, old(self).state()) {
                Step::EndOfStream => result == Ok::<StepOutcome, DecodeError>(
                    StepOutcome::EndOfStream,
                ) && final(self).state() == old(self).state(),
                Step::Failed(e) => result == Err::<StepOutcome, DecodeError>(e),
                Step::Advanced { next, emitted } => final(self).state() == next && (match result {
                    Ok(StepOutcome::Block { emitted: found }) => match found {
                        None => emitted.is_none(),
                        Some(bytes) => emitted == Some(bytes@),
                    },
                    _ => false,
                }),
            },
    {
        let start = self.reader.position();
        let probe = self.reader.read_into(1);
        if probe.len() == 0 {
            return Ok(StepOutcome::EndOfStream);
        }
        let block_type = probe[0];
        let slot = block_types[block_type as usize];
        let block_definition = match slot {
            None => {
                return Err(DecodeError::UnknownBlockType { byte: block_type, offset: start });
            },
            Some(definition) => definition,
        };
        let header_start = self.reader.position();
        let header = match self.reader.read_exact(block_definition.header_len as u64) {
            Err(e) => {
                return Err(e);
            },
            Ok(bytes) => bytes,
        };
        let block_info = match checked_block_info(header, &block_definition) {
            None => {
                let at = match block_definition.block_len {
                    None => header_start,
                    Some((first, _)) => header_start + first as u64,
                };
                return Err(
                    DecodeError::MalformedHeader { field: HeaderField::BlockLen, offset: at },
                );
            },
            Some(info) => info,
        };
        if block_info.record_len.is_some() {
            self.record.clear();
            self.capacity = block_info.record_len.unwrap();
        }
        let should_read = block_info.data_len.is_some() && (block_info.record_len.is_some()
            || self.saved_position.is_some());
        if should_read {
            let data_len = block_info.data_len.unwrap();
            let payload = match self.reader.read_exact(data_len as u64) {
                Err(e) => {
                    return Err(e);
                },
                Ok(bytes) => bytes,
            };
            let len = self.record.len();
            let space: usize = if len <= self.capacity as usize {
                self.capacity as usize - len
            } else {
                0
            };
            let count: usize = if payload.len() <= space {
                payload.len()
            } else {
                space
            };
            append_prefix(&mut self.record, payload, count);
            let back = self.reader.seek_relative(-(data_len as i64));
            assert(back.is_ok());
        }
        match self.reader.seek_relative(block_info.block_len as i64) {
            Err(e) => {
                return Err(e);
            },
            Ok(_) => {},
        }
        if block_info.next_filepos.is_some() {
            if should_read {
                if self.saved_position.is_none() {
                    self.saved_position = Some(self.reader.position());
                }
                self.reader.seek_absolute(block_info.next_filepos.unwrap());
            }
        } else if self.saved_position.is_some() {
            self.reader.seek_absolute(self.saved_position.unwrap());
            self.saved_position = None;
        }
        let emitted = if should_read && block_info.next_filepos.is_none() {
            Some(self.record.clone())
        } else {
            None
        };
        Ok(StepOutcome::Block { emitted })
    }
}

/// Scans `data` from its start for at most `max_blocks` blocks and
/// appends each completed record to `writer`. Returns the number of
/// blocks consumed, or the failure that ended the scan; records completed
/// before a failure stay in `writer`.
pub fn scan_records(
    data: &[u8],
    block_types: &[Option<MIRecordBlockDef>],
    writer: &mut Vec<Vec<u8>>,
    max_blocks: u64,
) -> (result: Result<u64, DecodeError>)
    requires
        table_well_formed(block_types@),
    ensures
        ({
            let run = scan_run(data@, block_types@, start_state(), max_blocks as nat);
            &&& records_of(final(writer)@) == records_of(old(writer)@) + run.records
            &&& result == match run.error {
                Some(e) => Err::<u64, DecodeError>(e),
                None => Ok(run.blocks as u64),
            }
        }),
{
    let mut scanner = RecordScanner::new(data);
    let mut records: u64 = 0;
    let ghost whole = scan_run(data@, block_types@, start_state(), max_blocks as nat);
    proof {
        assert(records_of(writer@) + whole.records =~= records_of(old(writer)@) + whole.records);
    }
    while records < max_blocks
        invariant
            scanner.image() == data@,
            table_well_formed(block_types@),
            records <= max_blocks,
            whole == scan_run(data@, block_types@, start_state(), max_blocks as nat),
            ({
                let rest = scan_run(
                    data@,
                    block_types@,
                    scanner.state(),
                    (max_blocks - records) as nat,
                );
                &&& records_of(old(writer)@) + whole.records == records_of(writer@)
                    + rest.records
                &&& whole.blocks == records + rest.blocks
                &&& whole.error == rest.error
            }),
        decreases max_blocks - records,
    {
        let ghost before = records_of(writer@);
        let ghost rest = scan_run(
            data@,
            block_types@,
            scanner.state(),
            (max_blocks - records) as nat,
        );
        match scanner.step(block_types) {
            Err(e) => {
                proof {
                    assert(before + rest.records =~= before);
                }
                return Err(e);
            },
            Ok(StepOutcome::EndOfStream) => {
                proof {
                    assert(before + rest.records =~= before);
                }
                return Ok(records);
            },
            Ok(StepOutcome::Block { emitted }) => {
                let ghost tail = scan_run(
                    data@,
                    block_types@,
                    scanner.state(),
                    (max_blocks - records - 1) as nat,
                );
                match emitted {
                    None => {
                        proof {
                            assert(before + rest.records =~= before + tail.records);
                        }
                    },
                    Some(record) => {
                        let ghost bytes = record@;
                        writer.push(record);
                        proof {
                            assert(records_of(writer@) =~= before.push(bytes));
                            assert(before + rest.records =~= before.push(bytes) + tail.records);
                        }
                    },
                }
                records += 1;
            },
        }
    }
    proof {
        assert(records_of(writer@) + Seq::<Seq<u8>>::empty() =~= records_of(writer@));
    }
    Ok(records)
}

/// Decodes a table from its two images: walks the index image, then
/// scans the data image for at most `max_blocks` blocks, appending each
/// completed record to `writer`. Returns the number of blocks consumed.
/// A failure of the walk comes before any scan; a failure of the scan
/// leaves the records completed before it in `writer`.
pub fn read_table_records(
    index: &[u8],
    data: &[u8],
    block_types: &[Option<MIRecordBlockDef>],
    writer: &mut Vec<Vec<u8>>,
    max_blocks: u64,
) -> (result: Result<u64, DecodeError>)
    requires
        table_well_formed(block_types@),
    ensures
        match index_walk(index@) {
            Err(e) => result == Err::<u64, DecodeError>(e) && final(writer)@ == old(writer)@,
            Ok(_) => {
                let run = scan_run(data@, block_types@, start_state(), max_blocks as nat);
                &&& records_of(final(writer)@) == records_of(old(writer)@) + run.records
                &&& result == match run.error {
                    Some(e) => Err::<u64, DecodeError>(e),
                    None => Ok(run.blocks as u64),
                }
            },
        },
{
    let mut reader = ByteReader::new(index);
    match read_table_state(&mut reader) {
        Err(e) => Err(e),
        Ok(_) => scan_records(data, block_types, writer, max_blocks),
    }
}

} // verus!
