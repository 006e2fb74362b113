//! Telling the user what went wrong.

use crate::companion::CompanionError;
use crate::guard::Refusal;
use crate::protocol::Failure;
use crate::sync::SyncError;
use vstd::prelude::*;
#[allow(unused_imports)]
use vstd::string::*;

verus! {

/// What is said of a failed sync, the paths being shown as given. Where it is `None`,
/// the failure speaks for itself.
pub open spec fn sync_message(
    error: SyncError,
    source: Seq<char>,
    target: Seq<char>,
    parent: Seq<char>,
) -> Option<Seq<char>> {
    match error {
        SyncError::ParentNotCreated(_) => Some("Failed to create parent dir "@ + parent),
        SyncError::Refused(Refusal::SourceNotAccessible(_)) => Some(
            "Source "@ + source + " does not exist or is not accessible"@,
        ),
        SyncError::Refused(Refusal::TargetInsideSource) => Some(
            "Destination "@ + target + " is inside source "@ + source
                + "; refusing to copy to avoid infinite recursion"@,
        ),
        SyncError::Refused(Refusal::SourceInsideTarget) => Some(
            "Source "@ + source + " is inside destination "@ + target
                + "; refusing to avoid deleting the source"@,
        ),
        SyncError::LinkNotCreated(_) => Some(
            "Failed to create symlink "@ + target + " -> "@ + source,
        ),
        SyncError::CopyFailed(_) => None,
    }
}

/// The failure behind a failed sync, where there is one.
pub open spec fn sync_failure(error: SyncError) -> Option<Failure> {
    match error {
        SyncError::ParentNotCreated(failure) => Some(failure),
        SyncError::Refused(Refusal::SourceNotAccessible(failure)) => Some(failure),
        SyncError::Refused(_) => None,
        SyncError::LinkNotCreated(failure) => Some(failure),
        SyncError::CopyFailed(failure) => Some(failure),
    }
}

/// What is said of a failed companion sync, the paths being shown as given: those of the
/// file and its place in the shared directory, or of the two directories. Where it is
/// `None`, the failure speaks for itself.
pub open spec fn companion_message<N, T>(
    error: CompanionError<N, T>,
    source: Seq<char>,
    target: Seq<char>,
) -> Option<Seq<char>> {
    match error {
        CompanionError::DirNotCreated(_) => Some(
            "Failed to create companion target dir "@ + target,
        ),
        CompanionError::SubdirNotRead(_) => Some("Failed to read companion subdir "@ + source),
        CompanionError::EntryNotRead(_) => None,
        CompanionError::LinkNotCreated { from, to, failure } => Some(
            "Failed to create companion symlink "@ + target + " -> "@ + source,
        ),
        CompanionError::FileNotCopied { from, to, failure } => Some(
            "Failed to copy companion file "@ + source + " -> "@ + target,
        ),
    }
}

/// The failure behind a failed companion sync.
pub open spec fn companion_failure<N, T>(error: CompanionError<N, T>) -> Failure {
    match error {
        CompanionError::DirNotCreated(failure) => failure,
        CompanionError::SubdirNotRead(failure) => failure,
        CompanionError::EntryNotRead(failure) => failure,
        CompanionError::LinkNotCreated { from, to, failure } => failure,
        CompanionError::FileNotCopied { from, to, failure } => failure,
    }
}

/// A phrase and what follows it.
fn phrase(start: &str, rest: &str) -> (text: String)
    ensures
        text@ == start@ + rest@,
{
    start.to_owned().concat(rest)
}

impl SyncError {
    /// What to say of this error, given how to show the source, the target and the
    /// target's parent directory.
    pub fn message(&self, source: &str, target: &str, parent: &str) -> (text: Option<String>)
        ensures
            (match text {
                Some(text) => Some(text@),
                None => None,
            }) == sync_message(*self, source@, target@, parent@),
    {
        match self {
            SyncError::ParentNotCreated(_) => Some(phrase("Failed to create parent dir ", parent)),
            SyncError::Refused(Refusal::SourceNotAccessible(_)) => Some(
                phrase("Source ", source).concat(" does not exist or is not accessible"),
            ),
            SyncError::Refused(Refusal::TargetInsideSource) => Some(
                phrase("Destination ", target).concat(" is inside source ").concat(source).concat(
                    "; refusing to copy to avoid infinite recursion",
                ),
            ),
            SyncError::Refused(Refusal::SourceInsideTarget) => Some(
                phrase("Source ", source).concat(" is inside destination ").concat(target).concat(
                    "; refusing to avoid deleting the source",
                ),
            ),
            SyncError::LinkNotCreated(_) => Some(
                phrase("Failed to create symlink ", target).concat(" -> ").concat(source),
            ),
            SyncError::CopyFailed(_) => None,
        }
    }

    /// The failure behind this error, where there is one.
    pub fn failure(&self) -> (failure: Option<Failure>)
        ensures
            failure == sync_failure(*self),
    {
        match self {
            SyncError::ParentNotCreated(failure) => Some(*failure),
            SyncError::Refused(Refusal::SourceNotAccessible(failure)) => Some(*failure),
            SyncError::Refused(_) => None,
            SyncError::LinkNotCreated(failure) => Some(*failure),
            SyncError::CopyFailed(failure) => Some(*failure),
        }
    }
}

impl CompanionError<Vec<u8>, String> {
    /// What to say of this error, given how to show the file and its place in the shared
    /// directory, or the two directories.
    pub fn message(&self, source: &str, target: &str) -> (text: Option<String>)
        ensures
            (match text {
                Some(text) => Some(text@),
                None => None,
            }) == companion_message(self@, source@, target@),
    {
        match self {
            CompanionError::DirNotCreated(_) => Some(
                phrase("Failed to create companion target dir ", target),
            ),
            CompanionError::SubdirNotRead(_) => Some(
                phrase("Failed to read companion subdir ", source),
            ),
            CompanionError::EntryNotRead(_) => None,
            CompanionError::LinkNotCreated { .. } => Some(
                phrase("Failed to create companion symlink ", target).concat(" -> ").concat(source),
            ),
            CompanionError::FileNotCopied { .. } => Some(
                phrase("Failed to copy companion file ", source).concat(" -> ").concat(target),
            ),
        }
    }

    /// The failure behind this error.
    pub fn failure(&self) -> (failure: Failure)
        ensures
            failure == companion_failure(self@),
    {
        match self {
            CompanionError::DirNotCreated(failure) => *failure,
            CompanionError::SubdirNotRead(failure) => *failure,
            CompanionError::EntryNotRead(failure) => *failure,
            CompanionError::LinkNotCreated { failure, .. } => *failure,
            CompanionError::FileNotCopied { failure, .. } => *failure,
        }
    }
}

/// What is said of a failed sync names what it is about: the parent directory, the source,
/// or both source and target, each once and in the place where it belongs. A copy's failure
/// is left to speak for itself.
pub proof fn law_sync_errors_are_named(
    failure: Failure,
    source: Seq<char>,
    target: Seq<char>,
    parent: Seq<char>,
)
    ensures
        sync_message(SyncError::ParentNotCreated(failure), source, target, parent) == Some(
            "Failed to create parent dir "@ + parent,
        ),
        sync_message(
            SyncError::Refused(Refusal::SourceNotAccessible(failure)),
            source,
            target,
            parent,
        ) == Some("Source "@ + source + " does not exist or is not accessible"@),
        sync_message(SyncError::Refused(Refusal::TargetInsideSource), source, target, parent)
            == Some(
            "Destination "@ + target + " is inside source "@ + source
                + "; refusing to copy to avoid infinite recursion"@,
        ),
        sync_message(SyncError::Refused(Refusal::SourceInsideTarget), source, target, parent)
            == Some(
            "Source "@ + source + " is inside destination "@ + target
                + "; refusing to avoid deleting the source"@,
        ),
        sync_message(SyncError::LinkNotCreated(failure), source, target, parent) == Some(
            "Failed to create symlink "@ + target + " -> "@ + source,
        ),
        sync_message(SyncError::CopyFailed(failure), source, target, parent) is None,
{
}

/// The failure behind a failed sync is the one that the sync ended with; only a refusal for
/// overlap has none.
pub proof fn law_sync_failures_are_kept(failure: Failure)
    ensures
        sync_failure(SyncError::ParentNotCreated(failure)) == Some(failure),
        sync_failure(SyncError::Refused(Refusal::SourceNotAccessible(failure))) == Some(failure),
        sync_failure(SyncError::LinkNotCreated(failure)) == Some(failure),
        sync_failure(SyncError::CopyFailed(failure)) == Some(failure),
        sync_failure(SyncError::Refused(Refusal::TargetInsideSource)) is None,
        sync_failure(SyncError::Refused(Refusal::SourceInsideTarget)) is None,
{
}

/// What is said of a failed companion sync names what it is about, and the failure behind it
/// is the one that the sync ended with.
pub proof fn law_companion_errors_are_named(
    failure: Failure,
    from: Seq<u8>,
    to: Seq<char>,
    source: Seq<char>,
    target: Seq<char>,
)
    ensures
        ({
            let dir = CompanionError::<Seq<u8>, Seq<char>>::DirNotCreated(failure);
            let subdir = CompanionError::<Seq<u8>, Seq<char>>::SubdirNotRead(failure);
            let entry = CompanionError::<Seq<u8>, Seq<char>>::EntryNotRead(failure);
            let link = CompanionError::LinkNotCreated { from, to, failure };
            let file = CompanionError::FileNotCopied { from, to, failure };
            &&& companion_message(dir, source, target) == Some(
                "Failed to create companion target dir "@ + target,
            )
            &&& companion_message(subdir, source, target) == Some(
                "Failed to read companion subdir "@ + source,
            )
            &&& companion_message(entry, source, target) is None
            &&& companion_message(link, source, target) == Some(
                "Failed to create companion symlink "@ + target + " -> "@ + source,
            )
            &&& companion_message(file, source, target) == Some(
                "Failed to copy companion file "@ + source + " -> "@ + target,
            )
            &&& companion_failure(dir) == failure
            &&& companion_failure(subdir) == failure
            &&& companion_failure(entry) == failure
            &&& companion_failure(link) == failure
            &&& companion_failure(file) == failure
        }),
{
}

} // verus!
