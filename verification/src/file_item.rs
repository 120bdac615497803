//! The entry record: one file or directory inside an archive listing.

use vstd::prelude::*;

verus! {

/// Mathematical model of a [`FileItem`]: the same fields, with every string
/// abstracted to its sequence of characters.
pub ghost struct ItemModel {
    /// Normalized path, `/`-separated; directory paths end in `/`.
    pub path: Seq<char>,
    /// Whether the entry is a directory.
    pub is_dir: bool,
    /// Size in bytes; directories carry `0`.
    pub size: u64,
    /// Modification timestamp, kept verbatim; empty if absent.
    pub modified: Seq<char>,
    /// Human-readable type label, derived from the path and the flag.
    pub label: Seq<char>,
}

/// Represents an item (file or directory) within an archive.
#[derive(Debug, Clone)]
pub struct FileItem {
    /// The full path of the item within the archive, using `/` as separator.
    pub name: String,
    /// Whether the item is a directory.
    pub is_dir: bool,
    /// The size of the item in bytes.
    pub size: u64,
    /// The modification date of the item as a string.
    pub modified_date: String,
    /// A descriptive name for the type of the item.
    pub type_label: String,
}

impl View for FileItem {
    type V = ItemModel;

    open spec fn view(&self) -> ItemModel {
        ItemModel {
            path: self.name@,
            is_dir: self.is_dir,
            size: self.size,
            modified: self.modified_date@,
            label: self.type_label@,
        }
    }
}

/// The models of a vector of items, in order.
pub open spec fn items_model(items: Seq<FileItem>) -> Seq<ItemModel> {
    items.map_values(|it: FileItem| it@)
}

/// Whether some record of `rs` carries path `p`.
pub open spec fn item_path_in(rs: Seq<ItemModel>, p: Seq<char>) -> bool {
    exists|k: int| 0 <= k < rs.len() && rs[k].path == p
}

/// No two records carry the same path.
pub open spec fn nodup_paths(rs: Seq<ItemModel>) -> bool {
    forall|i: int, j: int| 0 <= i < j < rs.len() ==> rs[i].path != rs[j].path
}

} // verus!
