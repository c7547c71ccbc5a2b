//! The options that decide what is listed, in what order and how.
use vstd::prelude::*;

verus! {

/// Which hidden entries are listed.
#[derive(Clone, Copy, Debug, PartialEq, Eq, Structural)]
pub enum Files {
    All,
    AlmostAll,
    Normal,
}

/// What entries are sorted by.
#[derive(Clone, Copy, Debug, PartialEq, Eq, Structural)]
pub enum Sort {
    Unsorted,
    Name,
    Size,
    Time,
    Version,
    Extension,
    Width,
}

/// Which symbolic links are followed.
#[derive(Clone, Copy, Debug, PartialEq, Eq, Structural)]
pub enum Dereference {
    Never,
    DirArgs,
    Args,
    All,
}

/// How entries are laid out.
#[derive(Clone, Copy, Debug, PartialEq, Eq, Structural)]
pub enum Format {
    Columns,
    Long,
    OneLine,
    Across,
    Commas,
}

/// Which timestamp is shown and sorted by.
#[derive(Clone, Copy, Debug, PartialEq, Eq, Structural)]
pub enum TimeField {
    Modification,
    Access,
    Change,
    Birth,
}

/// The unit of displayed sizes.
#[derive(Clone, Copy, Debug, PartialEq, Eq, Structural)]
pub enum SizeFormat {
    Bytes,
    Binary,
    Decimal,
}

/// The options of a listing.
#[derive(Clone, Copy, Debug, PartialEq, Eq, Structural)]
pub struct Config {
    pub format: Format,
    pub files: Files,
    pub sort: Sort,
    pub time: TimeField,
    pub dereference: Dereference,
    pub size_format: SizeFormat,
    pub block_size: u64,
    pub recursive: bool,
    pub reverse: bool,
    pub directory: bool,
    pub group_directories_first: bool,
    pub alloc_size: bool,
    pub dired: bool,
    pub hyperlink: bool,
    pub context: bool,
    /// Whether names are sorted by the rules of a locale rather than by bytes.
    pub locale_collation: bool,
}

} // verus!
