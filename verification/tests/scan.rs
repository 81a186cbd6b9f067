use mitable::blocks::record_block_definitions;
use mitable::error::{DecodeError, HeaderField};
use mitable::scan::{read_table_records, scan_records, RecordScanner, ScanCursor, StepOutcome};

fn small_block(payload: &[u8]) -> Vec<u8> {
    let mut out = vec![1u8, (payload.len() >> 8) as u8, payload.len() as u8];
    out.extend_from_slice(payload);
    out
}

fn big_block(payload: &[u8]) -> Vec<u8> {
    let n = payload.len();
    let mut out = vec![2u8, (n >> 16) as u8, (n >> 8) as u8, n as u8];
    out.extend_from_slice(payload);
    out
}

fn head_block(record_len: u16, payload: &[u8], next: u64) -> Vec<u8> {
    let mut out = vec![5u8];
    out.extend_from_slice(&record_len.to_be_bytes());
    out.extend_from_slice(&(payload.len() as u16).to_be_bytes());
    out.extend_from_slice(&next.to_be_bytes());
    out.extend_from_slice(payload);
    out
}

fn link_block(payload: &[u8], next: u64) -> Vec<u8> {
    let mut out = vec![11u8];
    out.extend_from_slice(&(payload.len() as u16).to_be_bytes());
    out.extend_from_slice(&next.to_be_bytes());
    out.extend_from_slice(payload);
    out
}

fn tail_block(payload: &[u8]) -> Vec<u8> {
    let mut out = vec![7u8];
    out.extend_from_slice(&(payload.len() as u16).to_be_bytes());
    out.extend_from_slice(payload);
    out
}

fn slack_tail_block(payload: &[u8], slack: u8) -> Vec<u8> {
    let mut out = vec![9u8];
    out.extend_from_slice(&(payload.len() as u16).to_be_bytes());
    out.push(slack);
    out.extend_from_slice(payload);
    out.extend(std::iter::repeat(0xEE).take(slack as usize));
    out
}

fn deleted_block(total: u32, next: u64) -> Vec<u8> {
    let mut out = vec![0u8, (total >> 16) as u8, (total >> 8) as u8, total as u8];
    out.extend_from_slice(&next.to_be_bytes());
    out.extend_from_slice(&[0u8; 8]);
    let span = total as usize - 19;
    out.extend(std::iter::repeat(0xDD).take(span));
    out
}

fn place(image: &mut Vec<u8>, at: usize, bytes: &[u8]) {
    if image.len() < at + bytes.len() {
        image.resize(at + bytes.len(), 0);
    }
    image[at..at + bytes.len()].copy_from_slice(bytes);
}

fn scan(data: &[u8]) -> (Result<u64, DecodeError>, Vec<Vec<u8>>) {
    let table = record_block_definitions();
    let mut records = Vec::new();
    let result = scan_records(data, &table, &mut records, u64::MAX);
    (result, records)
}

fn minimal_index() -> Vec<u8> {
    let mut index = vec![0u8; 32];
    index[13] = 32;
    let mut base = vec![0u8; 100];
    base[67] = 1;
    index.extend_from_slice(&base);
    index.extend_from_slice(&[0x00, 0x01, 0x00, 0x10, 0, 0, 0]);
    index
}

#[test]
fn empty_data_emits_nothing() {
    let table = record_block_definitions();
    let mut records = Vec::new();
    let result = read_table_records(&minimal_index(), &[], &table, &mut records, u64::MAX);
    assert_eq!(result, Ok(0));
    assert!(records.is_empty());
}

#[test]
fn one_small_block_emits_its_payload() {
    let data = [0x01, 0x00, 0x05, 0xAA, 0xBB, 0xCC, 0xDD, 0xEE];
    let (result, records) = scan(&data);
    assert_eq!(result, Ok(1));
    assert_eq!(records, vec![vec![0xAA, 0xBB, 0xCC, 0xDD, 0xEE]]);
}

#[test]
fn two_big_blocks_emit_two_records() {
    let data = [0x02, 0, 0, 3, 1, 2, 3, 0x02, 0, 0, 3, 4, 5, 6];
    let (result, records) = scan(&data);
    assert_eq!(result, Ok(2));
    assert_eq!(records, vec![vec![1, 2, 3], vec![4, 5, 6]]);
}

#[test]
fn chained_record_is_reassembled_and_the_stream_resumed() {
    let first = [1u8, 2, 3, 4, 5, 6, 7, 8];
    let second = [9u8, 10, 11, 12, 13, 14, 15, 16];
    let mut data = head_block(0x0010, &first, 0x100);
    assert_eq!(data.len(), 21);
    data.extend_from_slice(&small_block(&[0x51, 0x52]));
    let gap_at = data.len();
    let tail = tail_block(&second);
    let end = 0x100 + tail.len();
    let filler = deleted_block((end - gap_at - 1) as u32, 0);
    assert_eq!(gap_at + filler.len(), end);
    data.extend_from_slice(&filler);
    place(&mut data, 0x100, &tail);
    let (result, records) = scan(&data);
    assert_eq!(result, Ok(4));
    let mut whole = first.to_vec();
    whole.extend_from_slice(&second);
    assert_eq!(whole.len(), 16);
    assert_eq!(records, vec![whole, vec![0x51, 0x52]]);
}

#[test]
fn deleted_block_before_a_record_is_skipped() {
    let mut data = deleted_block(25, 0x1234);
    data.extend_from_slice(&small_block(&[7, 8, 9]));
    let (result, records) = scan(&data);
    assert_eq!(result, Ok(2));
    assert_eq!(records, vec![vec![7, 8, 9]]);
}

#[test]
fn deleted_block_between_two_records_leaves_both_intact() {
    let mut data = small_block(&[1, 2]);
    data.extend_from_slice(&deleted_block(19, u64::MAX));
    data.extend_from_slice(&big_block(&[3, 4, 5]));
    let (result, records) = scan(&data);
    assert_eq!(result, Ok(3));
    assert_eq!(records, vec![vec![1, 2], vec![3, 4, 5]]);
}

#[test]
fn block_type_six_is_unknown() {
    let (result, records) = scan(&[6, 0, 0, 0]);
    assert_eq!(result, Err(DecodeError::UnknownBlockType { byte: 6, offset: 0 }));
    assert!(records.is_empty());
}

#[test]
fn unknown_block_after_records_keeps_them_and_emits_no_more() {
    let mut data = small_block(&[1]);
    data.extend_from_slice(&small_block(&[2, 3]));
    let at = data.len() as u64;
    data.push(6);
    data.extend_from_slice(&small_block(&[4]));
    let (result, records) = scan(&data);
    assert_eq!(result, Err(DecodeError::UnknownBlockType { byte: 6, offset: at }));
    assert_eq!(records, vec![vec![1], vec![2, 3]]);
}

#[test]
fn every_byte_without_an_encoding_is_fatal() {
    for byte in [6u8, 8, 10, 12, 13, 14, 0x80, 0xFF] {
        let (result, records) = scan(&[byte, 0, 1, 0]);
        assert_eq!(result, Err(DecodeError::UnknownBlockType { byte, offset: 0 }));
        assert!(records.is_empty());
    }
}

#[test]
fn n_self_contained_blocks_emit_n_records() {
    let mut data = Vec::new();
    let mut expected = Vec::new();
    for i in 0..40usize {
        let payload: Vec<u8> = (0..i).map(|j| (i * 7 + j) as u8).collect();
        if i % 2 == 0 {
            data.extend_from_slice(&small_block(&payload));
        } else {
            data.extend_from_slice(&big_block(&payload));
        }
        expected.push(payload);
    }
    let (result, records) = scan(&data);
    assert_eq!(result, Ok(40));
    assert_eq!(records.len(), 40);
    assert_eq!(records, expected);
}

#[test]
fn chain_of_three_continuations_is_concatenated_in_chain_order() {
    let mut data = head_block(10, &[1, 2], 200);
    let resume = data.len();
    place(&mut data, 200, &link_block(&[3, 4, 5], 100));
    place(&mut data, 100, &link_block(&[6], 300));
    place(&mut data, 300, &slack_tail_block(&[7, 8, 9, 10], 2));
    let table = record_block_definitions();
    let mut records = Vec::new();
    let result = scan_records(&data, &table, &mut records, 4);
    assert_eq!(result, Ok(4));
    assert_eq!(records, vec![vec![1, 2, 3, 4, 5, 6, 7, 8, 9, 10]]);
    let mut scanner = RecordScanner::new(&data);
    for _ in 0..4 {
        scanner.step(&table).unwrap();
    }
    assert_eq!(
        scanner.cursor(),
        ScanCursor { position: resume as u64, saved_position: None }
    );
}

#[test]
fn chained_record_is_cut_at_the_declared_length() {
    let mut data = head_block(5, &[1, 2, 3], 64);
    data.extend_from_slice(&small_block(&[0x42]));
    place(&mut data, 64, &tail_block(&[4, 5, 6, 7]));
    let table = record_block_definitions();
    let mut records = Vec::new();
    assert_eq!(scan_records(&data, &table, &mut records, 3), Ok(3));
    assert_eq!(records, vec![vec![1, 2, 3, 4, 5], vec![0x42]]);
}

#[test]
fn short_chain_emits_what_was_read() {
    let mut data = head_block(9, &[1, 2, 3], 64);
    place(&mut data, 64, &tail_block(&[4, 5]));
    let table = record_block_definitions();
    let mut records = Vec::new();
    assert_eq!(scan_records(&data, &table, &mut records, 2), Ok(2));
    assert_eq!(records, vec![vec![1, 2, 3, 4, 5]]);
}

#[test]
fn scanner_saves_the_return_position_on_chain_entry() {
    let mut data = head_block(4, &[1, 2], 19);
    let after_head = data.len() as u64;
    assert_eq!(after_head, 15);
    data.extend_from_slice(&small_block(&[9]));
    data.extend_from_slice(&link_block(&[3], 31));
    data.extend_from_slice(&tail_block(&[4]));
    let table = record_block_definitions();
    let mut scanner = RecordScanner::new(&data);
    assert_eq!(scanner.cursor(), ScanCursor { position: 0, saved_position: None });
    assert_eq!(scanner.step(&table), Ok(StepOutcome::Block { emitted: None }));
    assert_eq!(scanner.cursor(), ScanCursor { position: 19, saved_position: Some(after_head) });
    assert_eq!(scanner.step(&table), Ok(StepOutcome::Block { emitted: None }));
    assert_eq!(scanner.cursor(), ScanCursor { position: 31, saved_position: Some(after_head) });
    assert_eq!(
        scanner.step(&table),
        Ok(StepOutcome::Block { emitted: Some(vec![1, 2, 3, 4]) })
    );
    assert_eq!(scanner.cursor(), ScanCursor { position: after_head, saved_position: None });
    assert_eq!(scanner.step(&table), Ok(StepOutcome::Block { emitted: Some(vec![9]) }));
    assert_eq!(scanner.cursor(), ScanCursor { position: 19, saved_position: None });
    assert_eq!(scanner.step(&table), Ok(StepOutcome::Block { emitted: None }));
    assert_eq!(scanner.step(&table), Ok(StepOutcome::Block { emitted: None }));
    assert_eq!(scanner.cursor(), ScanCursor { position: 35, saved_position: None });
    assert_eq!(scanner.step(&table), Ok(StepOutcome::EndOfStream));
    assert_eq!(scanner.step(&table), Ok(StepOutcome::EndOfStream));
    assert_eq!(scanner.cursor(), ScanCursor { position: 35, saved_position: None });
}

#[test]
fn continuation_without_a_chain_is_passed_over() {
    let mut data = tail_block(&[1, 2, 3]);
    data.extend_from_slice(&slack_tail_block(&[4], 1));
    data.extend_from_slice(&link_block(&[5, 6], 0));
    data.extend_from_slice(&small_block(&[7]));
    let (result, records) = scan(&data);
    assert_eq!(result, Ok(4));
    assert_eq!(records, vec![vec![7]]);
}

#[test]
fn blocks_with_slack_skip_the_slack() {
    let mut data = vec![3u8, 0, 2, 3, 0xA1, 0xA2, 0, 0, 0];
    data.extend_from_slice(&[4u8, 0, 0, 1, 2, 0xB1, 0, 0]);
    data.extend_from_slice(&small_block(&[0xC1]));
    let (result, records) = scan(&data);
    assert_eq!(result, Ok(3));
    assert_eq!(records, vec![vec![0xA1, 0xA2], vec![0xB1], vec![0xC1]]);
}

#[test]
fn truncated_header_is_reported() {
    let (result, records) = scan(&[5, 0, 1, 0]);
    assert_eq!(result, Err(DecodeError::TruncatedError { offset: 1, expected: 12, got: 3 }));
    assert!(records.is_empty());
    let (result, _) = scan(&[1]);
    assert_eq!(result, Err(DecodeError::TruncatedError { offset: 1, expected: 2, got: 0 }));
}

#[test]
fn truncated_payload_is_reported() {
    let mut data = small_block(&[1, 2]);
    data.extend_from_slice(&[1, 0, 4, 9, 9]);
    let (result, records) = scan(&data);
    assert_eq!(result, Err(DecodeError::TruncatedError { offset: 8, expected: 4, got: 2 }));
    assert_eq!(records, vec![vec![1, 2]]);
}

#[test]
fn deleted_block_shorter_than_its_header_is_malformed() {
    let mut data = small_block(&[1]);
    data.extend_from_slice(&[0u8; 20]);
    let (result, records) = scan(&data);
    assert_eq!(
        result,
        Err(DecodeError::MalformedHeader { field: HeaderField::BlockLen, offset: 5 })
    );
    assert_eq!(records, vec![vec![1]]);
}

#[test]
fn span_beyond_the_end_ends_the_scan() {
    let data = [9u8, 0, 1, 200, 0x33];
    let (result, records) = scan(&data);
    assert_eq!(result, Ok(1));
    assert!(records.is_empty());
}

#[test]
fn limit_stops_a_cyclic_chain() {
    let mut data = head_block(4, &[1], 13 + 1);
    data.extend_from_slice(&link_block(&[2], 0));
    let table = record_block_definitions();
    let mut records = Vec::new();
    assert_eq!(scan_records(&data, &table, &mut records, 10), Ok(10));
    assert!(records.is_empty());
    assert_eq!(scan_records(&data, &table, &mut records, 0), Ok(0));
}

#[test]
fn limit_counts_blocks_not_records() {
    let mut data = deleted_block(19, 0);
    data.extend_from_slice(&small_block(&[1]));
    data.extend_from_slice(&small_block(&[2]));
    let table = record_block_definitions();
    let mut records = vec![vec![0xFF]];
    assert_eq!(scan_records(&data, &table, &mut records, 2), Ok(2));
    assert_eq!(records, vec![vec![0xFF], vec![1]]);
}

#[test]
fn index_failure_comes_before_any_scan() {
    let table = record_block_definitions();
    let mut records = Vec::new();
    let data = small_block(&[1]);
    let result = read_table_records(&[0u8; 10], &data, &table, &mut records, u64::MAX);
    assert_eq!(result, Err(DecodeError::TruncatedError { offset: 0, expected: 32, got: 10 }));
    assert!(records.is_empty());
    let result = read_table_records(&minimal_index(), &data, &table, &mut records, u64::MAX);
    assert_eq!(result, Ok(1));
    assert_eq!(records, vec![vec![1]]);
}
