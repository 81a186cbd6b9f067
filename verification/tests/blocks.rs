use mitable::blocks::{
    check_definition, check_range, check_table, checked_block_info, find_header_bytes,
    read_block_info, record_block_definitions, MIRecordBlock, MIRecordBlockDef,
};

#[test]
fn table_has_the_nine_encodings() {
    let table = record_block_definitions();
    assert_eq!(table.len(), 256);
    for block_type in 0..256usize {
        let known = matches!(block_type, 0 | 1 | 2 | 3 | 4 | 5 | 7 | 9 | 11);
        assert_eq!(table[block_type].is_some(), known);
    }
}

#[test]
fn table_rows_are_as_documented() {
    let table = record_block_definitions();
    assert_eq!(
        table[0],
        Some(MIRecordBlockDef {
            record_len: None,
            block_len: Some((0, 3)),
            data_len: None,
            unused_len: None,
            next_filepos: Some((3, 11)),
            header_len: 19,
            deleted: true,
        })
    );
    assert_eq!(
        table[1],
        Some(MIRecordBlockDef {
            record_len: Some((0, 2)),
            block_len: Some((0, 2)),
            data_len: Some((0, 2)),
            unused_len: None,
            next_filepos: None,
            header_len: 2,
            deleted: false,
        })
    );
    assert_eq!(
        table[4],
        Some(MIRecordBlockDef {
            record_len: Some((0, 3)),
            block_len: None,
            data_len: Some((0, 3)),
            unused_len: Some((3, 4)),
            next_filepos: None,
            header_len: 4,
            deleted: false,
        })
    );
    assert_eq!(
        table[5],
        Some(MIRecordBlockDef {
            record_len: Some((0, 2)),
            block_len: Some((2, 4)),
            data_len: Some((2, 4)),
            unused_len: None,
            next_filepos: Some((4, 12)),
            header_len: 12,
            deleted: false,
        })
    );
    assert_eq!(
        table[11],
        Some(MIRecordBlockDef {
            record_len: None,
            block_len: Some((0, 2)),
            data_len: Some((0, 2)),
            unused_len: None,
            next_filepos: Some((2, 10)),
            header_len: 10,
            deleted: false,
        })
    );
    assert_eq!(table[9].unwrap().unused_len, Some((2, 3)));
    assert_eq!(table[7].unwrap().header_len, 2);
    assert_eq!(table[2].unwrap().header_len, 3);
    assert_eq!(table[3].unwrap().header_len, 3);
}

#[test]
fn header_len_is_the_last_field_end_of_live_encodings() {
    let table = record_block_definitions();
    for slot in table.iter() {
        if let Some(def) = slot {
            let ends = [def.record_len, def.block_len, def.data_len, def.unused_len, def.next_filepos];
            let last = ends.iter().map(|r| r.map(|(_, end)| end).unwrap_or(0)).max().unwrap();
            if def.deleted {
                assert!(last <= def.header_len as usize);
            } else {
                assert_eq!(last, def.header_len as usize);
            }
        }
    }
}

#[test]
fn find_header_bytes_decodes_a_present_range() {
    let header = [0x00u8, 0x10, 0x00, 0x08, 0, 0, 0, 0, 0, 0, 0x01, 0x00];
    assert_eq!(find_header_bytes(&header, Some((0, 2))), Some(0x10));
    assert_eq!(find_header_bytes(&header, Some((4, 12))), Some(0x100));
    assert_eq!(find_header_bytes(&header, Some((3, 3))), Some(0));
    assert_eq!(find_header_bytes(&header, None), None);
}

#[test]
fn block_info_of_a_chained_head() {
    let table = record_block_definitions();
    let header = [0x00u8, 0x10, 0x00, 0x08, 0, 0, 0, 0, 0, 0, 0x01, 0x00];
    assert_eq!(
        read_block_info(&header, &table[5].unwrap()),
        MIRecordBlock {
            record_len: Some(0x10),
            data_len: Some(8),
            unused_len: None,
            next_filepos: Some(0x100),
            block_len: 8,
            deleted: false,
        }
    );
}

#[test]
fn block_info_adds_slack_to_the_data() {
    let table = record_block_definitions();
    assert_eq!(
        read_block_info(&[0x01, 0x02, 0x05], &table[3].unwrap()),
        MIRecordBlock {
            record_len: Some(0x0102),
            data_len: Some(0x0102),
            unused_len: Some(5),
            next_filepos: None,
            block_len: 0x0107,
            deleted: false,
        }
    );
    assert_eq!(
        read_block_info(&[0x00, 0x04, 0x03], &table[9].unwrap()),
        MIRecordBlock {
            record_len: None,
            data_len: Some(4),
            unused_len: Some(3),
            next_filepos: None,
            block_len: 7,
            deleted: false,
        }
    );
}

#[test]
fn block_info_of_a_deleted_block_takes_the_header_off() {
    let table = record_block_definitions();
    let mut header = [0u8; 19];
    header[2] = 40;
    header[10] = 0x77;
    assert_eq!(
        read_block_info(&header, &table[0].unwrap()),
        MIRecordBlock {
            record_len: None,
            data_len: None,
            unused_len: None,
            next_filepos: Some(0x77),
            block_len: 21,
            deleted: true,
        }
    );
}

#[test]
fn checked_block_info_refuses_a_deleted_block_shorter_than_its_header() {
    let table = record_block_definitions();
    let mut header = [0u8; 19];
    header[2] = 18;
    assert_eq!(checked_block_info(&header, &table[0].unwrap()), None);
    header[2] = 19;
    assert_eq!(checked_block_info(&header, &table[0].unwrap()).map(|b| b.block_len), Some(0));
    assert_eq!(
        checked_block_info(&[0x00, 0x05], &table[1].unwrap()),
        Some(read_block_info(&[0x00, 0x05], &table[1].unwrap()))
    );
}

#[test]
fn the_table_of_the_format_is_usable() {
    let table = record_block_definitions();
    assert!(check_table(&table));
    assert!(!check_table(&table[..255]));
    let empty: Vec<Option<MIRecordBlockDef>> = vec![None; 256];
    assert!(check_table(&empty));
    let mut long = table.to_vec();
    long.push(None);
    assert!(!check_table(&long));
}

#[test]
fn unusable_definitions_are_told_apart() {
    let table = record_block_definitions();
    let good = table[5].unwrap();
    assert!(check_definition(&good));
    let mut beyond = good;
    beyond.next_filepos = Some((4, 13));
    assert!(!check_definition(&beyond));
    let mut wide = good;
    wide.header_len = 20;
    wide.data_len = Some((2, 7));
    assert!(!check_definition(&wide));
    let mut reversed = good;
    reversed.record_len = Some((2, 0));
    assert!(!check_definition(&reversed));
    let mut no_data = good;
    no_data.data_len = None;
    assert!(!check_definition(&no_data));
    let mut slack_only = table[9].unwrap();
    slack_only.data_len = None;
    assert!(!check_definition(&slack_only));
    let mut deleted = table[0].unwrap();
    assert!(check_definition(&deleted));
    deleted.block_len = None;
    assert!(!check_definition(&deleted));
    let mut broken = table;
    broken[200] = Some(no_data);
    assert!(!check_table(&broken));
}

#[test]
fn ranges_are_tested_against_limit_and_width() {
    assert!(check_range(None, 0, 0));
    assert!(check_range(Some((0, 2)), 2, 4));
    assert!(check_range(Some((3, 3)), 3, 0));
    assert!(!check_range(Some((0, 3)), 2, 4));
    assert!(!check_range(Some((0, 5)), 8, 4));
    assert!(!check_range(Some((2, 1)), 8, 4));
}
