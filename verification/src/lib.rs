//! Renaming and moving entries of the disk by editing a list of their paths.
//!
//! The entries are collected into a list of sources ([`collect`]), the list
//! is written out as a text and read back after it was edited ([`edit`]),
//! every changed line is held against the rules for a batch ([`validate`]),
//! and each accepted operation is turned into steps on disk ([`execute`]).
//! [`run`] ties these into one run. The library itself never reads from the
//! disk, the editor or the terminal and never writes to them: what is found
//! there is handed in, and what is to be done there is handed out.

pub mod collect;
pub mod dictionary;
pub mod edit;
pub mod execute;
pub mod model;
pub mod natural;
pub mod order;
pub mod path;
pub mod pattern;
pub mod run;
pub mod spelling;
pub mod text;
pub mod validate;

pub use crate::collect::{is_hidden, list_files, put_source, sources_from};
pub use crate::edit::{operations_from, prompt_redo};
pub use crate::execute::{execute_move, execute_operation};
pub use crate::model::{CommandLine, Destination, Operation, OperationKind, Source};
pub use crate::path::normalize;
pub use crate::validate::is_operational;
