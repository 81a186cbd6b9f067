use mitable::bytes::ByteReader;
use mitable::error::{DecodeError, HeaderField};
use mitable::index::read_table_state;
use mitable::table::{
    find_table_files, MIRecDef, MITableBase, MITableFiles, MITableHeader, MITableState, Show,
};

fn prefix(options: u16, base_pos: u16, key_parts: u16, unique_key_parts: u16, keys: u8, uniques: u8, fulltext: u8) -> Vec<u8> {
    let mut index = vec![0xA5u8; 32];
    index[4..6].copy_from_slice(&options.to_be_bytes());
    index[12..14].copy_from_slice(&base_pos.to_be_bytes());
    index[14..16].copy_from_slice(&key_parts.to_be_bytes());
    index[16..18].copy_from_slice(&unique_key_parts.to_be_bytes());
    index[18] = keys;
    index[19] = uniques;
    index[22] = fulltext;
    index
}

fn base_info(fields: u32) -> Vec<u8> {
    let mut base = vec![0x5Au8; 100];
    base[64..68].copy_from_slice(&fields.to_be_bytes());
    base
}

fn key_def(segments: u8) -> Vec<u8> {
    let mut def = vec![0x11u8; 12];
    def[0] = segments;
    def.extend(std::iter::repeat(0x22).take(segments as usize * 18));
    def
}

fn unique_def(segments: u16) -> Vec<u8> {
    let mut def = vec![0x33u8; 4];
    def[0..2].copy_from_slice(&segments.to_be_bytes());
    def.extend(std::iter::repeat(0x44).take(segments as usize * 18));
    def
}

fn field_rec(rtype: i16, length: u16) -> Vec<u8> {
    let mut rec = Vec::new();
    rec.extend_from_slice(&rtype.to_be_bytes());
    rec.extend_from_slice(&length.to_be_bytes());
    rec.extend_from_slice(&[0x66, 0x77, 0x88]);
    rec
}

#[test]
fn minimal_index_has_one_field() {
    let mut index = prefix(0, 32, 0, 0, 0, 0, 0);
    index.extend_from_slice(&base_info(1));
    index.extend_from_slice(&field_rec(0x0001, 0x0010));
    let mut reader = ByteReader::new(&index);
    let state = read_table_state(&mut reader).unwrap();
    assert_eq!(
        state,
        MITableState {
            header: MITableHeader {
                options: 0,
                keys: 0,
                uniques: 0,
                key_parts: 0,
                unique_key_parts: 0,
                fulltext_keys: 0,
                base_pos: 32,
            },
            base: MITableBase {
                fields: 1,
                key_segments: vec![],
                unique_segments: vec![],
                records: vec![MIRecDef { rtype: 1, length: 16 }],
            },
        }
    );
    assert_eq!(reader.position(), 32 + 100 + 7);
}

#[test]
fn header_fields_come_back_as_written() {
    let mut index = prefix(0xBEEF, 40, 0x0102, 0xFFFF, 0, 0, 0xC3);
    index.extend_from_slice(&[0u8; 8]);
    index.extend_from_slice(&base_info(0));
    let mut reader = ByteReader::new(&index);
    let state = read_table_state(&mut reader).unwrap();
    assert_eq!(state.header.options, 0xBEEF);
    assert_eq!(state.header.base_pos, 40);
    assert_eq!(state.header.key_parts, 0x0102);
    assert_eq!(state.header.unique_key_parts, 0xFFFF);
    assert_eq!(state.header.keys, 0);
    assert_eq!(state.header.uniques, 0);
    assert_eq!(state.header.fulltext_keys, 0xC3);
    assert_eq!(state.base.fields, 0);
    assert!(state.base.records.is_empty());
    assert_eq!(reader.position(), 140);
}

#[test]
fn walk_ends_after_keys_uniques_and_fields() {
    let mut index = prefix(1, 36, 5, 3, 3, 2, 0);
    index.extend_from_slice(&[0u8; 4]);
    index.extend_from_slice(&base_info(3));
    for segments in [2u8, 0, 3] {
        index.extend_from_slice(&key_def(segments));
    }
    for segments in [1u16, 2] {
        index.extend_from_slice(&unique_def(segments));
    }
    index.extend_from_slice(&field_rec(0, 4));
    index.extend_from_slice(&field_rec(-2, 0xFFFF));
    index.extend_from_slice(&field_rec(i16::MIN, 1));
    index.extend_from_slice(&[0xEE; 9]);
    let mut reader = ByteReader::new(&index);
    let state = read_table_state(&mut reader).unwrap();
    assert_eq!(state.header.keys, 3);
    assert_eq!(state.header.uniques, 2);
    assert_eq!(state.base.key_segments, vec![2, 0, 3]);
    assert_eq!(state.base.unique_segments, vec![1, 2]);
    assert_eq!(
        state.base.records,
        vec![
            MIRecDef { rtype: 0, length: 4 },
            MIRecDef { rtype: -2, length: 0xFFFF },
            MIRecDef { rtype: i16::MIN, length: 1 },
        ]
    );
    let expected = 36 + 100 + (12 + 2 * 18) + 12 + (12 + 3 * 18) + (4 + 18) + (4 + 2 * 18) + 3 * 7;
    assert_eq!(reader.position(), expected);
    assert_eq!(reader.position() as usize, index.len() - 9);
}

#[test]
fn walk_starts_at_the_beginning_wherever_the_reader_stands() {
    let mut index = prefix(0, 32, 0, 0, 0, 0, 0);
    index.extend_from_slice(&base_info(0));
    let mut reader = ByteReader::new(&index);
    reader.seek_absolute(77);
    assert!(read_table_state(&mut reader).is_ok());
    assert_eq!(reader.position(), 132);
}

#[test]
fn short_prefix_is_truncated() {
    let index = vec![0u8; 31];
    let mut reader = ByteReader::new(&index);
    assert_eq!(
        read_table_state(&mut reader),
        Err(DecodeError::TruncatedError { offset: 0, expected: 32, got: 31 })
    );
}

#[test]
fn base_position_beyond_the_image_is_malformed() {
    let index = prefix(0, 33, 0, 0, 0, 0, 0);
    let mut reader = ByteReader::new(&index);
    assert_eq!(
        read_table_state(&mut reader),
        Err(DecodeError::MalformedHeader { field: HeaderField::BasePos, offset: 12 })
    );
}

#[test]
fn short_base_information_is_truncated() {
    let mut index = prefix(0, 32, 0, 0, 0, 0, 0);
    index.extend_from_slice(&[0u8; 99]);
    let mut reader = ByteReader::new(&index);
    assert_eq!(
        read_table_state(&mut reader),
        Err(DecodeError::TruncatedError { offset: 32, expected: 100, got: 99 })
    );
}

#[test]
fn missing_definitions_are_truncated() {
    let mut index = prefix(0, 32, 0, 0, 1, 1, 0);
    index.extend_from_slice(&base_info(2));
    index.extend_from_slice(&key_def(1));
    let keys_end = index.len() as u64;
    let mut reader = ByteReader::new(&index);
    assert_eq!(
        read_table_state(&mut reader),
        Err(DecodeError::TruncatedError { offset: keys_end, expected: 4, got: 0 })
    );
    index.extend_from_slice(&[0x00, 0x02, 0, 0]);
    index.extend_from_slice(&[0u8; 20]);
    let mut reader = ByteReader::new(&index);
    assert_eq!(
        read_table_state(&mut reader),
        Err(DecodeError::TruncatedError { offset: keys_end + 4, expected: 36, got: 20 })
    );
    index.extend_from_slice(&[0u8; 16]);
    index.extend_from_slice(&field_rec(3, 3));
    index.extend_from_slice(&[0u8; 6]);
    let fields_at = keys_end + 4 + 36;
    let mut reader = ByteReader::new(&index);
    assert_eq!(
        read_table_state(&mut reader),
        Err(DecodeError::TruncatedError { offset: fields_at + 7, expected: 7, got: 6 })
    );
}

#[test]
fn key_segments_are_passed_over_even_beyond_the_end() {
    let mut index = prefix(0, 32, 0, 0, 1, 0, 0);
    index.extend_from_slice(&base_info(0));
    let mut def = vec![0u8; 12];
    def[0] = 5;
    index.extend_from_slice(&def);
    let mut reader = ByteReader::new(&index);
    let state = read_table_state(&mut reader).unwrap();
    assert_eq!(state.base.key_segments, vec![5]);
    assert_eq!(reader.position(), 32 + 100 + 12 + 90);
}

#[test]
fn table_files_are_joined_as_they_are() {
    let files = find_table_files(&"/var/db/".to_string(), &"people".to_string());
    assert_eq!(
        files,
        MITableFiles {
            index: "/var/db/people.MYI".to_string(),
            data: "/var/db/people.MYD".to_string(),
        }
    );
    let files = find_table_files(&"dir".to_string(), &"t".to_string());
    assert_eq!(files.index, "dirt.MYI");
    assert_eq!(files.data, "dirt.MYD");
}

#[test]
fn options_show_the_record_format() {
    assert_eq!(0u32.show(), "static");
    assert_eq!(1u32.show(), "dynamic");
    assert_eq!(2u32.show(), "static");
    assert_eq!(4u32.show(), "packed");
    assert_eq!(5u32.show(), "dynamic");
    assert_eq!(6u32.show(), "packed");
    assert_eq!(0xFFFF_FFF8u32.show(), "static");
}

#[test]
fn header_alone_needs_only_the_prefix() {
    let index = prefix(0x0102, 0xFFFF, 7, 9, 200, 100, 50);
    let mut reader = ByteReader::new(&index);
    reader.seek_absolute(5);
    assert_eq!(
        mitable::index::read_table_header(&mut reader),
        Ok(MITableHeader {
            options: 0x0102,
            keys: 200,
            uniques: 100,
            key_parts: 7,
            unique_key_parts: 9,
            fulltext_keys: 50,
            base_pos: 0xFFFF,
        })
    );
    assert_eq!(reader.position(), 32);
    let mut reader = ByteReader::new(&index[..20]);
    assert_eq!(
        mitable::index::read_table_header(&mut reader),
        Err(DecodeError::TruncatedError { offset: 0, expected: 32, got: 20 })
    );
}
