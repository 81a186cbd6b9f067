//! What an index image says about its table.

use vstd::prelude::*;
use vstd::string::StringExecFns;

verus! {

/// The option bits of a table.
pub type MITableOptions = u32;

/// Records are stored in the dynamic, block-framed form.
pub const MI_OPTION_PACK_RECORD: u32 = 1;

/// Keys are stored packed.
pub const MI_OPTION_PACK_KEYS: u32 = 2;

/// Records are stored compressed.
pub const MI_OPTION_COMPRESS_RECORD: u32 = 4;

/// The description of one field.
#[derive(Debug, Clone, Copy, PartialEq, Eq)]
pub struct MIRecDef {
    pub rtype: i16,
    pub length: u16,
}

/// The fixed prefix of an index image.
#[derive(Debug, Clone, Copy, PartialEq, Eq)]
pub struct MITableHeader {
    pub options: MITableOptions,
    pub keys: u8,
    pub uniques: u8,
    pub key_parts: u32,
    pub unique_key_parts: u32,
    pub fulltext_keys: u8,
    pub base_pos: u32,
}

/// What follows the base information of an index image: the number of
/// fields, the segment count of each key and of each unique definition,
/// and the field descriptions, each in file order.
#[derive(Debug, Clone, PartialEq, Eq)]
pub struct MITableBase {
    pub fields: u32,
    pub key_segments: Vec<u8>,
    pub unique_segments: Vec<u16>,
    pub records: Vec<MIRecDef>,
}

/// The shape of a table.
#[derive(Debug, Clone, PartialEq, Eq)]
pub struct MITableState {
    pub header: MITableHeader,
    pub base: MITableBase,
}

/// The extension of an index file.
pub const INDEX_EXT: &'static str = ".MYI";

/// The extension of a data file.
pub const DATA_EXT: &'static str = ".MYD";

/// The paths of the two files of a table.
#[derive(Debug, Clone, PartialEq, Eq)]
pub struct MITableFiles {
    pub index: String,
    pub data: String,
}

/// The paths of the files of `table_name` in `directory`: the directory,
/// the name and the extension, joined as they are. The directory brings
/// its own trailing separator.
pub fn find_table_files(directory: &String, table_name: &String) -> (files: MITableFiles)
    ensures
        files.index@ == directory@ + table_name@ + INDEX_EXT@,
        files.data@ == directory@ + table_name@ + DATA_EXT@,
{
    let index_file = table_name.clone().concat(INDEX_EXT);
    let data_file = table_name.clone().concat(DATA_EXT);
    let files = MITableFiles {
        index: directory.clone().concat(index_file.as_str()),
        data: directory.clone().concat(data_file.as_str()),
    };
    proof {
        assert(directory@ + (table_name@ + INDEX_EXT@) =~= directory@ + table_name@ + INDEX_EXT@);
        assert(directory@ + (table_name@ + DATA_EXT@) =~= directory@ + table_name@ + DATA_EXT@);
    }
    files
}

/// How a table with these options stores its records.
#[derive(Debug, Clone, Copy, PartialEq, Eq)]
pub enum RecordFormat {
    Dynamic,
    Packed,
    Static,
}

/// The record format that option bits select: dynamic where the
/// pack-record bit is set, else packed where the compress-record bit is
/// set, else static.
pub open spec fn record_format(options: MITableOptions) -> RecordFormat {
    if options & MI_OPTION_PACK_RECORD != 0 {
        RecordFormat::Dynamic
    } else if options & MI_OPTION_COMPRESS_RECORD != 0 {
        RecordFormat::Packed
    } else {
        RecordFormat::Static
    }
}

/// The name of a record format.
pub open spec fn format_name(format: RecordFormat) -> Seq<char> {
    match format {
        RecordFormat::Dynamic => "dynamic"@,
        RecordFormat::Packed => "packed"@,
        RecordFormat::Static => "static"@,
    }
}

/// A short description of a value.
pub trait Show {
    /// What `show` returns.
    spec fn shown(&self) -> Seq<char>;

    /// Describes the value.
    fn show(&self) -> (text: String)
        ensures
            text@ == self.shown(),
    ;
}

impl Show for MITableOptions {
    open spec fn shown(&self) -> Seq<char> {
        format_name(record_format(*self))
    }

    fn show(&self) -> (text: String) {
        let record_type = if *self & MI_OPTION_PACK_RECORD != 0 {
            "dynamic"
        } else if *self & MI_OPTION_COMPRESS_RECORD != 0 {
            "packed"
        } else {
            "static"
        };
        String::from_str(record_type)
    }
}

} // verus!
