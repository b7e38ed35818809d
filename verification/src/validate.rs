//! The rules that decide whether one more operation may join a batch.

use crate::model::{EntryKind, Operation, OperationView};
use crate::path::within;
use crate::text::{chars_of, views};
use vstd::prelude::*;

verus! {

/// Why an operation may not join a batch.
#[derive(Clone, Copy, Debug, PartialEq, Eq, Structural)]
pub enum ConflictKind {
    /// The line ends in a separator, and the source is a file or a symlink.
    MissingName,
    /// An operation of the batch has the same destination.
    DuplicateDestination,
    /// The destination lies in, or holds, the destination of an operation
    /// of the batch.
    NestedDestination,
    /// The destination is there on disk.
    DestinationExists,
    /// The destination is the source itself or lies below it.
    SourceContainsDestination,
}

/// The text ends in the separator `/`.
pub open spec fn ends_with_separator(text: Seq<char>) -> bool {
    text.len() > 0 && text.last() == '/'
}

/// A line that ends in a separator names a directory to move into, which
/// says nothing of the name that a file or a symlink is to get.
pub open spec fn lacks_name(candidate: OperationView) -> bool {
    ends_with_separator(candidate.dst.text) && (candidate.src.meta == EntryKind::File
        || candidate.src.meta == EntryKind::Symlink)
}

/// Some operation of the batch has the candidate's destination.
pub open spec fn repeats_destination(
    accepted: Seq<OperationView>,
    candidate: OperationView,
) -> bool {
    exists|i: int|
        0 <= i < accepted.len() && (#[trigger] accepted[i]).dst.path == candidate.dst.path
}

/// One of the two destinations is the other or lies below it.
pub open spec fn nested(a: OperationView, b: OperationView) -> bool {
    within(a.dst.path, b.dst.path) || within(b.dst.path, a.dst.path)
}

/// The candidate's destination and that of some operation of the batch
/// contain one another.
pub open spec fn nests_destination(
    accepted: Seq<OperationView>,
    candidate: OperationView,
) -> bool {
    exists|i: int| 0 <= i < accepted.len() && nested(#[trigger] accepted[i], candidate)
}

/// The destination is the source or lies below it.
pub open spec fn falls_into_source(candidate: OperationView) -> bool {
    within(candidate.dst.path, candidate.src.path)
}

/// The first rule that the candidate breaks, if it breaks one. `exists`
/// says whether the candidate's destination is there on disk.
pub open spec fn conflict(
    accepted: Seq<OperationView>,
    candidate: OperationView,
    exists: bool,
) -> Option<ConflictKind> {
    if lacks_name(candidate) {
        Some(ConflictKind::MissingName)
    } else if repeats_destination(accepted, candidate) {
        Some(ConflictKind::DuplicateDestination)
    } else if nests_destination(accepted, candidate) {
        Some(ConflictKind::NestedDestination)
    } else if exists {
        Some(ConflictKind::DestinationExists)
    } else if falls_into_source(candidate) {
        Some(ConflictKind::SourceContainsDestination)
    } else {
        None
    }
}

/// Tells whether the text ends in the separator `/`.
pub fn has_trailing_separator(text: &str) -> (r: bool)
    ensures
        r == ends_with_separator(text@),
{
    let v = chars_of(text);
    v.len() > 0 && v[v.len() - 1] == '/'
}

/// Decides whether `new_operation` may join `operations`, the operations
/// accepted so far. `exists` tells whether its destination is on disk now.
pub fn is_operational(operations: &[Operation], new_operation: &Operation, exists: bool) -> (r:
    Result<(), ConflictKind>)
    ensures
        r == match conflict(views(operations@), new_operation@, exists) {
            Some(kind) => Err::<(), ConflictKind>(kind),
            None => Ok(()),
        },
{
    let ghost accepted = views(operations@);
    let ghost candidate = new_operation@;
    let src = &new_operation.src;
    let dst = &new_operation.dst;
    if has_trailing_separator(dst.text().as_str()) && (src.meta == EntryKind::File || src.meta
        == EntryKind::Symlink) {
        return Err(ConflictKind::MissingName);
    }
    let mut i: usize = 0;
    while i < operations.len()
        invariant
            i <= operations.len(),
            accepted == views(operations@),
            candidate == new_operation@,
            !lacks_name(candidate),
            forall|j: int| 0 <= j < i ==> (#[trigger] accepted[j]).dst.path != candidate.dst.path,
        decreases operations.len() - i,
    {
        if operations[i].dst.path().same_as(new_operation.dst.path()) {
            assert(accepted[i as int].dst.path == candidate.dst.path);
            return Err(ConflictKind::DuplicateDestination);
        }
        assert(accepted[i as int] == operations@[i as int]@);
        i += 1;
    }
    let mut i: usize = 0;
    while i < operations.len()
        invariant
            i <= operations.len(),
            accepted == views(operations@),
            candidate == new_operation@,
            !lacks_name(candidate),
            !repeats_destination(accepted, candidate),
            forall|j: int| 0 <= j < i ==> !nested(#[trigger] accepted[j], candidate),
        decreases operations.len() - i,
    {
        let other = operations[i].dst.path();
        assert(accepted[i as int] == operations@[i as int]@);
        if other.is_within(new_operation.dst.path()) || new_operation.dst.path().is_within(other) {
            assert(nested(accepted[i as int], candidate));
            return Err(ConflictKind::NestedDestination);
        }
        i += 1;
    }
    if exists {
        return Err(ConflictKind::DestinationExists);
    }
    if dst.path().is_within(&src.path) {
        return Err(ConflictKind::SourceContainsDestination);
    }
    Ok(())
}

} // verus!
