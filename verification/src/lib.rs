//! Archive-listing parser and directory-tree reconstruction.
//!
//! The library turns the loosely structured text that an archive tool
//! prints for a detailed listing (`Key = Value` blocks separated by blank
//! lines) into a deduplicated, fully populated, deterministically ordered
//! sequence of file and directory records. Every function is specified
//! and verified; the surrounding application supplies already-decoded
//! listing text and receives an owned record sequence back.

use vstd::prelude::*;

pub mod chars;
pub mod classify;
pub mod file_item;
pub mod laws;
pub mod logging;
pub mod order;
pub mod parser;
pub mod text;
pub mod tree;

use crate::file_item::{FileItem, ItemModel, items_model};

verus! {

/// The final record sequence of a listing text: the entry blocks parsed
/// in source order, then reconstructed into the cleaned, back-filled,
/// classified and ordered output.
pub open spec fn listing_model(text: Seq<char>) -> Seq<ItemModel> {
    crate::tree::reconstruct_model(crate::parser::entries_of(text))
}

/// Parses the detailed listing output of the archive tool into a record
/// per archive entry, with every implied ancestor directory present,
/// exactly one record per path, and directories sorted first.
pub fn parse_7z_list_output(output_str: &str) -> (r: Vec<FileItem>)
    ensures
        items_model(r@) == listing_model(output_str@),
{
    let entries: Vec<crate::parser::RawEntry> = crate::parser::parse_entry_blocks(output_str);
    crate::tree::reconstruct(entries)
}

} // verus!
