use vstd::prelude::*;

pub mod inventory;
pub mod listing;
pub mod order;
pub mod plan;
pub mod remote;
pub mod text;

pub use inventory::{FileList, FileMeta};
pub use listing::{parse_ls_line, parse_ls_output, parse_stat_output, FileInfo, FormatError};
pub use plan::{
    build_transfer_plan, PlanError, Reason, TransferKind, TransferOperation, TransferPlan,
};

verus! {

/// What kind of filesystem object an entry describes.
#[derive(Clone, Copy, Debug, PartialEq, Eq, Structural)]
pub enum FileKind {
    RegularFile,
    Directory,
    Symlink,
    Other,
}

} // verus!
