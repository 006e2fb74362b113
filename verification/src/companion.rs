//! Placing the companion files of a skill in a directory that all skills share.

use crate::mode::{Platform, SyncMode};
#[allow(unused_imports)]
use crate::path;
use crate::path::{PathView, SkillPath};
#[allow(unused_imports)]
use crate::protocol;
use crate::protocol::{EntryKind, Failure, FsReply, Listed, Protocol, Reply, ReplyView};
#[allow(unused_imports)]
use crate::removal;
use crate::removal::{remove_target, RemovalPhase, RemovalRequest, RemovalRun, RemovalWorld};
#[allow(unused_imports)]
use crate::sync;
#[allow(unused_imports)]
use crate::text;
use crate::text::lossy_text;
use vstd::prelude::*;
#[allow(unused_imports)]
use vstd::string::*;
#[allow(unused_imports)]
use vstd::utf8::*;

verus! {

/// What a companion sync asks of the file system. `N` is how file names in the skill's
/// directory are held, `T` how those in the shared directory are.
#[derive(Debug, PartialEq, Eq)]
pub enum CompanionRequest<N, T> {
    /// Tell whether the skill has the directory with companion files.
    CheckSubdir,
    /// Have the watcher ignore what happens to the shared directory.
    Mute,
    /// Make the shared directory, and those above it that are missing.
    CreateDir,
    /// List the directory with companion files.
    ListSubdir,
    /// Part of removing what stands at a name in the shared directory, to make room for the
    /// companion file.
    Remove { from: N, to: T, request: RemovalRequest },
    /// Make the name in the shared directory a link to the companion file.
    LinkFile { from: N, to: T },
    /// Copy the companion file to the name in the shared directory.
    CopyFile { from: N, to: T },
}

/// Why a companion sync fails.
#[derive(Debug, PartialEq, Eq)]
pub enum CompanionError<N, T> {
    DirNotCreated(Failure),
    SubdirNotRead(Failure),
    EntryNotRead(Failure),
    LinkNotCreated { from: N, to: T, failure: Failure },
    FileNotCopied { from: N, to: T, failure: Failure },
}

/// How far a companion sync has come.
#[derive(Debug, PartialEq, Eq)]
pub enum CompanionPhase<N, T> {
    CheckingSubdir,
    Muting,
    CreatingDir,
    Listing,
    Removing { from: N, to: T, removal: RemovalRun },
    Linking { from: N, to: T },
    Copying { from: N, to: T },
    Done,
    Failed(CompanionError<N, T>),
}

/// A companion sync under way.
#[derive(Debug, PartialEq, Eq)]
pub struct CompanionRun {
    pub skill_name: String,
    pub mode: SyncMode,
    pub platform: Platform,
    pub phase: CompanionPhase<Vec<u8>, String>,
    /// The entries that are still to be seen to, the next one last.
    pub waiting: Vec<Listed<Vec<u8>>>,
    /// The names in the shared directory that were written, in order.
    pub written: Vec<String>,
}

/// A companion sync as contracts speak of it.
#[verifier::ext_equal]
pub struct CompanionView {
    pub skill_name: Seq<char>,
    pub mode: SyncMode,
    pub platform: Platform,
    pub phase: CompanionPhase<Seq<u8>, Seq<char>>,
    /// The entries that are still to be seen to, the next one first.
    pub waiting: Seq<Listed<Seq<u8>>>,
    pub written: Seq<Seq<char>>,
}

impl View for CompanionRequest<Vec<u8>, String> {
    type V = CompanionRequest<Seq<u8>, Seq<char>>;

    open spec fn view(&self) -> CompanionRequest<Seq<u8>, Seq<char>> {
        match self {
            CompanionRequest::CheckSubdir => CompanionRequest::CheckSubdir,
            CompanionRequest::Mute => CompanionRequest::Mute,
            CompanionRequest::CreateDir => CompanionRequest::CreateDir,
            CompanionRequest::ListSubdir => CompanionRequest::ListSubdir,
            CompanionRequest::Remove { from, to, request } => CompanionRequest::Remove {
                from: from@,
                to: to@,
                request: *request,
            },
            CompanionRequest::LinkFile { from, to } => CompanionRequest::LinkFile {
                from: from@,
                to: to@,
            },
            CompanionRequest::CopyFile { from, to } => CompanionRequest::CopyFile {
                from: from@,
                to: to@,
            },
        }
    }
}

impl View for CompanionError<Vec<u8>, String> {
    type V = CompanionError<Seq<u8>, Seq<char>>;

    open spec fn view(&self) -> CompanionError<Seq<u8>, Seq<char>> {
        match self {
            CompanionError::DirNotCreated(failure) => CompanionError::DirNotCreated(*failure),
            CompanionError::SubdirNotRead(failure) => CompanionError::SubdirNotRead(*failure),
            CompanionError::EntryNotRead(failure) => CompanionError::EntryNotRead(*failure),
            CompanionError::LinkNotCreated { from, to, failure } => {
                CompanionError::LinkNotCreated { from: from@, to: to@, failure: *failure }
            },
            CompanionError::FileNotCopied { from, to, failure } => {
                CompanionError::FileNotCopied { from: from@, to: to@, failure: *failure }
            },
        }
    }
}

impl View for CompanionPhase<Vec<u8>, String> {
    type V = CompanionPhase<Seq<u8>, Seq<char>>;

    open spec fn view(&self) -> CompanionPhase<Seq<u8>, Seq<char>> {
        match self {
            CompanionPhase::CheckingSubdir => CompanionPhase::CheckingSubdir,
            CompanionPhase::Muting => CompanionPhase::Muting,
            CompanionPhase::CreatingDir => CompanionPhase::CreatingDir,
            CompanionPhase::Listing => CompanionPhase::Listing,
            CompanionPhase::Removing { from, to, removal } => CompanionPhase::Removing {
                from: from@,
                to: to@,
                removal: *removal,
            },
            CompanionPhase::Linking { from, to } => CompanionPhase::Linking {
                from: from@,
                to: to@,
            },
            CompanionPhase::Copying { from, to } => CompanionPhase::Copying {
                from: from@,
                to: to@,
            },
            CompanionPhase::Done => CompanionPhase::Done,
            CompanionPhase::Failed(error) => CompanionPhase::Failed(error@),
        }
    }
}

/// Entries that are taken from the end, in the order in which they are taken.
pub open spec fn waiting_view(waiting: Seq<Listed<Vec<u8>>>) -> Seq<Listed<Seq<u8>>> {
    Seq::new(waiting.len(), |i: int| waiting[waiting.len() - 1 - i]@)
}

/// The characters of texts.
pub open spec fn texts_view(texts: Seq<String>) -> Seq<Seq<char>> {
    Seq::new(texts.len(), |i: int| texts[i]@)
}

impl View for CompanionRun {
    type V = CompanionView;

    open spec fn view(&self) -> CompanionView {
        CompanionView {
            skill_name: self.skill_name@,
            mode: self.mode,
            platform: self.platform,
            phase: self.phase@,
            waiting: waiting_view(self.waiting@),
            written: texts_view(self.written@),
        }
    }
}

/// The name that a companion file gets in the shared directory: the skill's name and
/// its own, so that skills do not get into each other's way.
pub open spec fn companion_name(skill_name: Seq<char>, name: Seq<u8>) -> Seq<char> {
    skill_name + "-"@ + text::shown(name)
}

/// Where a file is that was written under `name` in the shared directory `target_dir`, seen
/// from the directory `current`.
pub open spec fn written_place(
    current: PathView,
    target_dir: PathView,
    name: Seq<char>,
) -> PathView {
    current.joined(target_dir).joined(path::unix_path(encode_utf8(name)))
}

/// What the file system would reply to a companion sync.
pub struct CompanionWorld {
    /// Whether the skill has the directory with companion files.
    pub subdir: bool,
    /// How making the shared directory goes.
    pub created: Result<(), Failure>,
    /// What the directory with companion files holds.
    pub listed: Result<Seq<Listed<Seq<u8>>>, Failure>,
    /// To removing what stands at a name in the shared directory, for each file.
    pub removal: spec_fn(Seq<u8>, Seq<char>) -> RemovalWorld,
    /// How linking each file goes.
    pub linked: spec_fn(Seq<u8>, Seq<char>) -> Result<(), Failure>,
    /// How copying each file goes.
    pub copied: spec_fn(Seq<u8>, Seq<char>) -> Result<(), Failure>,
}

impl CompanionView {
    /// This sync in another phase.
    pub open spec fn in_phase(self, phase: CompanionPhase<Seq<u8>, Seq<char>>) -> CompanionView {
        CompanionView { phase, ..self }
    }

    /// Goes on with the next regular file among these entries; the others are passed
    /// over, and an entry that could not be read is a failure.
    pub open spec fn with_entries(self, entries: Seq<Listed<Seq<u8>>>) -> CompanionView
        decreases entries.len(),
    {
        if entries.len() == 0 {
            CompanionView { phase: CompanionPhase::Done, waiting: entries, ..self }
        } else {
            let rest = entries.drop_first();
            match entries[0] {
                Listed::Failed(failure) => CompanionView {
                    phase: CompanionPhase::Failed(CompanionError::EntryNotRead(failure)),
                    waiting: rest,
                    ..self
                },
                Listed::Found { name, kind } => if kind == EntryKind::File {
                    CompanionView {
                        phase: CompanionPhase::Removing {
                            from: name,
                            to: companion_name(self.skill_name, name),
                            removal: RemovalRun {
                                platform: self.platform,
                                phase: RemovalPhase::Inspecting,
                            },
                        },
                        waiting: rest,
                        ..self
                    }
                } else {
                    self.with_entries(rest)
                },
            }
        }
    }

    /// Goes on with the removal, or with what comes after it, however it went.
    pub open spec fn with_removal(
        self,
        from: Seq<u8>,
        to: Seq<char>,
        removal: RemovalRun,
    ) -> CompanionView {
        self.in_phase(
            match removal.outcome() {
                None => CompanionPhase::Removing { from, to, removal },
                Some(_) => if sync::links(self.mode, self.platform) {
                    CompanionPhase::Linking { from, to }
                } else {
                    CompanionPhase::Copying { from, to }
                },
            },
        )
    }

    /// Notes a name as written and goes on with the next entry.
    pub open spec fn with_written(self, to: Seq<char>) -> CompanionView {
        CompanionView { written: self.written.push(to), ..self }.with_entries(self.waiting)
    }
}

impl Protocol for CompanionView {
    type Request = CompanionRequest<Seq<u8>, Seq<char>>;

    type Outcome = Result<Seq<Seq<char>>, CompanionError<Seq<u8>, Seq<char>>>;

    type World = CompanionWorld;

    open spec fn pending(self) -> Option<CompanionRequest<Seq<u8>, Seq<char>>> {
        match self.phase {
            CompanionPhase::CheckingSubdir => Some(CompanionRequest::CheckSubdir),
            CompanionPhase::Muting => Some(CompanionRequest::Mute),
            CompanionPhase::CreatingDir => Some(CompanionRequest::CreateDir),
            CompanionPhase::Listing => Some(CompanionRequest::ListSubdir),
            CompanionPhase::Removing { from, to, removal } => match removal.pending() {
                Some(request) => Some(CompanionRequest::Remove { from, to, request }),
                None => None,
            },
            CompanionPhase::Linking { from, to } => Some(CompanionRequest::LinkFile { from, to }),
            CompanionPhase::Copying { from, to } => Some(CompanionRequest::CopyFile { from, to }),
            CompanionPhase::Done => None,
            CompanionPhase::Failed(_) => None,
        }
    }

    open spec fn outcome(self) -> Option<
        Result<Seq<Seq<char>>, CompanionError<Seq<u8>, Seq<char>>>,
    > {
        match self.phase {
            CompanionPhase::Done => Some(Ok(self.written)),
            CompanionPhase::Failed(error) => Some(Err(error)),
            _ => None,
        }
    }

    open spec fn next(self, reply: ReplyView) -> CompanionView {
        match (self.phase, reply) {
            (CompanionPhase::CheckingSubdir, Reply::Flag(there)) => self.in_phase(
                if there {
                    CompanionPhase::Muting
                } else {
                    CompanionPhase::Done
                },
            ),
            (CompanionPhase::Muting, Reply::Muted) => self.in_phase(CompanionPhase::CreatingDir),
            (CompanionPhase::CreatingDir, Reply::Outcome(Ok(_))) => self.in_phase(
                CompanionPhase::Listing,
            ),
            (CompanionPhase::CreatingDir, Reply::Outcome(Err(failure))) => self.in_phase(
                CompanionPhase::Failed(CompanionError::DirNotCreated(failure)),
            ),
            (CompanionPhase::Listing, Reply::Listing(Ok(entries))) => self.with_entries(entries),
            (CompanionPhase::Listing, Reply::Listing(Err(failure))) => self.in_phase(
                CompanionPhase::Failed(CompanionError::SubdirNotRead(failure)),
            ),
            (CompanionPhase::Removing { from, to, removal }, _) => self.with_removal(
                from,
                to,
                removal.next(reply),
            ),
            (CompanionPhase::Linking { from, to }, Reply::Outcome(Ok(_))) => self.with_written(to),
            (CompanionPhase::Linking { from, to }, Reply::Outcome(Err(failure))) => self.in_phase(
                if self.platform == Platform::Windows {
                    CompanionPhase::Copying { from, to }
                } else {
                    CompanionPhase::Failed(CompanionError::LinkNotCreated { from, to, failure })
                },
            ),
            (CompanionPhase::Copying { from, to }, Reply::Outcome(Ok(_))) => self.with_written(to),
            (CompanionPhase::Copying { from, to }, Reply::Outcome(Err(failure))) => self.in_phase(
                CompanionPhase::Failed(CompanionError::FileNotCopied { from, to, failure }),
            ),
            _ => self,
        }
    }

    open spec fn reply(
        world: CompanionWorld,
        request: CompanionRequest<Seq<u8>, Seq<char>>,
    ) -> ReplyView {
        match request {
            CompanionRequest::CheckSubdir => Reply::Flag(world.subdir),
            CompanionRequest::Mute => Reply::Muted,
            CompanionRequest::CreateDir => Reply::Outcome(world.created),
            CompanionRequest::ListSubdir => Reply::Listing(world.listed),
            CompanionRequest::Remove { from, to, request } => {
                <RemovalRun as Protocol>::reply((world.removal)(from, to), request)
            },
            CompanionRequest::LinkFile { from, to } => Reply::Outcome((world.linked)(from, to)),
            CompanionRequest::CopyFile { from, to } => Reply::Outcome((world.copied)(from, to)),
        }
    }

    /// A removal that has ended has made way for what follows.
    open spec fn valid(self) -> bool {
        match self.phase {
            CompanionPhase::Removing { from, to, removal } => removal.outcome() is None,
            _ => true,
        }
    }

    proof fn asks_or_has_ended(self) {
    }

    proof fn stays_valid(self, reply: ReplyView) {
        match (self.phase, reply) {
            (CompanionPhase::Listing, Reply::Listing(Ok(entries))) => {
                lemma_with_entries_is_valid(self, entries);
            },
            (CompanionPhase::Linking { from, to }, Reply::Outcome(Ok(_))) => {
                lemma_with_entries_is_valid(
                    CompanionView { written: self.written.push(to), ..self },
                    self.waiting,
                );
            },
            (CompanionPhase::Copying { from, to }, Reply::Outcome(Ok(_))) => {
                lemma_with_entries_is_valid(
                    CompanionView { written: self.written.push(to), ..self },
                    self.waiting,
                );
            },
            _ => {},
        }
    }
}

proof fn lemma_with_entries_is_valid(run: CompanionView, entries: Seq<Listed<Seq<u8>>>)
    ensures
        run.with_entries(entries).valid(),
    decreases entries.len(),
{
    if entries.len() > 0 {
        lemma_with_entries_is_valid(run, entries.drop_first());
    }
}

/// Builds the name that a companion file gets in the shared directory.
fn make_companion_name(skill_name: &String, name: &Vec<u8>) -> (to: String)
    ensures
        to@ == companion_name(skill_name@, name@),
        valid_utf8(name@) ==> to@ == skill_name@ + "-"@ + decode_utf8(name@),
        !valid_utf8(name@) ==> to@ == skill_name@ + "-"@ + text::lossy_decoding(name@),
{
    let shown = lossy_text(name);
    let mut to = skill_name.clone();
    to.append("-");
    to.append(shown.as_str());
    to
}

/// The absolute path of a file that a companion sync has written under `name` in the shared
/// directory `target_dir`, `current` being the current directory and paths being written in
/// the Unix manner.
pub fn written_path(current: &SkillPath, target_dir: &SkillPath, name: &str) -> (path: SkillPath)
    ensures
        path@ == written_place(current@, target_dir@, name@),
        path@ == current@.joined(target_dir@).joined(path::unix_path(encode_utf8(name@))),
        current@.is_fixed() && !target_dir@.is_drive_relative() && (target_dir@.absolute
            ==> target_dir@.is_fixed()) ==> path@.is_fixed(),
{
    proof {
        lemma_written_place_is_fixed(current@, target_dir@, name@);
    }
    current.joined(target_dir).joined(&SkillPath::from_unix(name.as_bytes()))
}

/// Where the current directory is known, so is the place of every file that was written.
pub proof fn lemma_written_place_is_fixed(current: PathView, target_dir: PathView, name: Seq<char>)
    ensures
        current.is_fixed() && !target_dir.is_drive_relative() && (target_dir.absolute
            ==> target_dir.is_fixed()) ==> written_place(current, target_dir, name).is_fixed(),
{
    path::lemma_unix_path_has_no_prefix(encode_utf8(name));
    if current.is_fixed() && !target_dir.is_drive_relative() && (target_dir.absolute
        ==> target_dir.is_fixed()) {
        path::lemma_joined_is_fixed(current, target_dir);
        path::lemma_joined_is_fixed(
            current.joined(target_dir),
            path::unix_path(encode_utf8(name)),
        );
    }
}

/// The entries, so that the first one comes off the end first.
fn reversed(entries: Vec<Listed<Vec<u8>>>) -> (waiting: Vec<Listed<Vec<u8>>>)
    ensures
        waiting_view(waiting@) == protocol::listing_view(entries@),
{
    let ghost listing = protocol::listing_view(entries@);
    let mut entries = entries;
    let mut waiting: Vec<Listed<Vec<u8>>> = Vec::new();
    assert(waiting_view(waiting@) =~= listing.skip(listing.len() as int));
    while entries.len() > 0
        invariant
            entries@.len() <= listing.len(),
            protocol::listing_view(entries@) == listing.take(entries@.len() as int),
            waiting_view(waiting@) == listing.skip(entries@.len() as int),
        decreases entries@.len(),
    {
        let ghost count = entries@.len() as int;
        let ghost before = waiting_view(waiting@);
        assert(entries@[count - 1]@ == listing.take(count)[count - 1]);
        let entry = entries.pop().unwrap();
        waiting.push(entry);
        assert(protocol::listing_view(entries@) =~= listing.take(count - 1));
        assert(waiting_view(waiting@) =~= seq![listing[count - 1]] + before);
        assert(listing.skip(count - 1) =~= seq![listing[count - 1]] + listing.skip(count));
    }
    assert(listing.skip(0) =~= listing);
    waiting
}

impl CompanionRun {
    /// The request that waits for a reply.
    pub fn request(&self) -> (request: Option<CompanionRequest<Vec<u8>, String>>)
        ensures
            (match request {
                Some(request) => Some(request@),
                None => None,
            }) == self@.pending(),
    {
        match &self.phase {
            CompanionPhase::CheckingSubdir => Some(CompanionRequest::CheckSubdir),
            CompanionPhase::Muting => Some(CompanionRequest::Mute),
            CompanionPhase::CreatingDir => Some(CompanionRequest::CreateDir),
            CompanionPhase::Listing => Some(CompanionRequest::ListSubdir),
            CompanionPhase::Removing { from, to, removal } => match removal.request() {
                Some(request) => {
                    let name = from.clone();
                    assert(name@ =~= from@);
                    Some(CompanionRequest::Remove { from: name, to: to.clone(), request })
                },
                None => None,
            },
            CompanionPhase::Linking { from, to } => {
                let name = from.clone();
                assert(name@ =~= from@);
                Some(CompanionRequest::LinkFile { from: name, to: to.clone() })
            },
            CompanionPhase::Copying { from, to } => {
                let name = from.clone();
                assert(name@ =~= from@);
                Some(CompanionRequest::CopyFile { from: name, to: to.clone() })
            },
            CompanionPhase::Done => None,
            CompanionPhase::Failed(_) => None,
        }
    }

    /// The outcome, once there is one: the names in the shared directory that were
    /// written.
    pub fn result(self) -> (result: Option<
        Result<Vec<String>, CompanionError<Vec<u8>, String>>,
    >)
        ensures
            (match result {
                Some(Ok(written)) => Some(Ok(texts_view(written@))),
                Some(Err(error)) => Some(Err(error@)),
                None => None,
            }) == self@.outcome(),
    {
        match self.phase {
            CompanionPhase::Done => Some(Ok(self.written)),
            CompanionPhase::Failed(error) => Some(Err(error)),
            _ => None,
        }
    }

    /// Goes on with the next regular file among the entries that wait.
    fn next_entry(self) -> (run: CompanionRun)
        ensures
            run@ == self@.with_entries(self@.waiting),
    {
        let ghost whole = self@;
        let CompanionRun { skill_name, mode, platform, phase, waiting, written } = self;
        let mut waiting = waiting;
        let mut phase = phase;
        let mut more = true;
        while more
            invariant
                whole.skill_name == skill_name@,
                whole.mode == mode,
                whole.platform == platform,
                whole.written == texts_view(written@),
                more ==> whole.with_entries(whole.waiting) == whole.with_entries(
                    waiting_view(waiting@),
                ),
                !more ==> whole.with_entries(whole.waiting) == (CompanionView {
                    phase: phase@,
                    waiting: waiting_view(waiting@),
                    ..whole
                }),
            decreases (if more { 1int } else { 0int }), waiting@.len(),
        {
            let ghost before = waiting_view(waiting@);
            match waiting.pop() {
                None => {
                    phase = CompanionPhase::Done;
                    more = false;
                },
                Some(entry) => {
                    assert(before[0] == entry@);
                    assert(before.drop_first() =~= waiting_view(waiting@));
                    match entry {
                        Listed::Failed(failure) => {
                            phase = CompanionPhase::Failed(CompanionError::EntryNotRead(failure));
                            more = false;
                        },
                        Listed::Found { name, kind } => match kind {
                            EntryKind::File => {
                                let to = make_companion_name(&skill_name, &name);
                                phase = CompanionPhase::Removing {
                                    from: name,
                                    to,
                                    removal: remove_target(platform),
                                };
                                more = false;
                            },
                            _ => {},
                        },
                    }
                },
            }
        }
        CompanionRun { skill_name, mode, platform, phase, waiting, written }
    }

    /// Notes a name as written and goes on with the next entry.
    fn note_written(self, to: String) -> (run: CompanionRun)
        ensures
            run@ == self@.with_written(to@),
    {
        let mut run = self;
        let ghost before = run.written@;
        run.written.push(to);
        assert(texts_view(run.written@) =~= texts_view(before).push(to@));
        run.next_entry()
    }

    /// Takes a reply.
    pub fn advance(self, reply: FsReply) -> (run: CompanionRun)
        ensures
            run@ == self@.next(reply@),
            self@.valid() ==> run@.valid(),
    {
        proof {
            if self@.valid() {
                self@.stays_valid(reply@);
            }
        }
        let ghost before = self@;
        let CompanionRun { skill_name, mode, platform, phase, waiting, written } = self;
        let phase = match (phase, reply) {
            (CompanionPhase::CheckingSubdir, Reply::Flag(there)) => if there {
                CompanionPhase::Muting
            } else {
                CompanionPhase::Done
            },
            (CompanionPhase::Muting, Reply::Muted) => CompanionPhase::CreatingDir,
            (CompanionPhase::CreatingDir, Reply::Outcome(Ok(_))) => CompanionPhase::Listing,
            (CompanionPhase::CreatingDir, Reply::Outcome(Err(failure))) => CompanionPhase::Failed(
                CompanionError::DirNotCreated(failure),
            ),
            (CompanionPhase::Listing, Reply::Listing(Ok(entries))) => {
                let run = CompanionRun {
                    skill_name,
                    mode,
                    platform,
                    phase: CompanionPhase::Listing,
                    waiting: reversed(entries),
                    written,
                };
                proof {
                    lemma_with_entries_anew(before, run@, run@.waiting);
                }
                return run.next_entry();
            },
            (CompanionPhase::Listing, Reply::Listing(Err(failure))) => CompanionPhase::Failed(
                CompanionError::SubdirNotRead(failure),
            ),
            (CompanionPhase::Removing { from, to, removal }, reply) => {
                let removal = removal.advance(reply);
                match removal.result() {
                    None => CompanionPhase::Removing { from, to, removal },
                    Some(_) => match (mode, platform) {
                        (SyncMode::Symlink, Platform::Unix) => CompanionPhase::Linking {
                            from,
                            to,
                        },
                        (SyncMode::Symlink, Platform::Windows) => CompanionPhase::Linking {
                            from,
                            to,
                        },
                        _ => CompanionPhase::Copying { from, to },
                    },
                }
            },
            (CompanionPhase::Linking { from, to }, Reply::Outcome(Ok(_))) => {
                let run = CompanionRun {
                    skill_name,
                    mode,
                    platform,
                    phase: CompanionPhase::Done,
                    waiting,
                    written,
                };
                proof {
                    lemma_with_entries_anew(
                        CompanionView { written: before.written.push(to@), ..before },
                        CompanionView { written: run@.written.push(to@), ..run@ },
                        run@.waiting,
                    );
                }
                return run.note_written(to);
            },
            (CompanionPhase::Linking { from, to }, Reply::Outcome(Err(failure))) => {
                match platform {
                    Platform::Windows => CompanionPhase::Copying { from, to },
                    _ => CompanionPhase::Failed(
                        CompanionError::LinkNotCreated { from, to, failure },
                    ),
                }
            },
            (CompanionPhase::Copying { from, to }, Reply::Outcome(Ok(_))) => {
                let run = CompanionRun {
                    skill_name,
                    mode,
                    platform,
                    phase: CompanionPhase::Done,
                    waiting,
                    written,
                };
                proof {
                    lemma_with_entries_anew(
                        CompanionView { written: before.written.push(to@), ..before },
                        CompanionView { written: run@.written.push(to@), ..run@ },
                        run@.waiting,
                    );
                }
                return run.note_written(to);
            },
            (CompanionPhase::Copying { from, to }, Reply::Outcome(Err(failure))) => {
                CompanionPhase::Failed(CompanionError::FileNotCopied { from, to, failure })
            },
            (phase, _) => phase,
        };
        CompanionRun { skill_name, mode, platform, phase, waiting, written }
    }
}

/// Where a sync goes on with entries does not depend on the phase that it was in, nor
/// on the entries that waited before.
proof fn lemma_with_entries_anew(
    a: CompanionView,
    b: CompanionView,
    entries: Seq<Listed<Seq<u8>>>,
)
    requires
        a.skill_name == b.skill_name,
        a.mode == b.mode,
        a.platform == b.platform,
        a.written == b.written,
    ensures
        a.with_entries(entries) == b.with_entries(entries),
    decreases entries.len(),
{
    if entries.len() > 0 {
        lemma_with_entries_anew(a, b, entries.drop_first());
    }
}

/// The requests that a companion sync makes, and how it ends.
#[verifier::ext_equal]
pub struct CompanionTrace {
    pub requests: Seq<CompanionRequest<Seq<u8>, Seq<char>>>,
    pub result: Result<Seq<Seq<char>>, CompanionError<Seq<u8>, Seq<char>>>,
}

/// The trace with these requests in front.
pub open spec fn preceded(
    requests: Seq<CompanionRequest<Seq<u8>, Seq<char>>>,
    trace: CompanionTrace,
) -> CompanionTrace {
    CompanionTrace { requests: requests + trace.requests, result: trace.result }
}

/// A request of a removal for a file as a request of a companion sync.
pub open spec fn as_removal_request(from: Seq<u8>, to: Seq<char>) -> spec_fn(
    RemovalRequest,
) -> CompanionRequest<Seq<u8>, Seq<char>> {
    |request: RemovalRequest| CompanionRequest::Remove { from, to, request }
}

/// The requests of a removal for a file as requests of a companion sync.
pub open spec fn removal_part(from: Seq<u8>, to: Seq<char>, requests: Seq<RemovalRequest>) -> Seq<
    CompanionRequest<Seq<u8>, Seq<char>>,
> {
    protocol::lifted(requests, as_removal_request(from, to))
}

/// Whether a file is linked first and then, the link being refused, copied.
pub open spec fn falls_back(
    platform: Platform,
    world: CompanionWorld,
    from: Seq<u8>,
    to: Seq<char>,
) -> bool {
    platform == Platform::Windows && (world.linked)(from, to) is Err
}

/// The requests that put one file in its place, once nothing stands there: a link where
/// links are wanted and the platform has them, and else a copy.
pub open spec fn placing_requests(
    mode: SyncMode,
    platform: Platform,
    world: CompanionWorld,
    from: Seq<u8>,
    to: Seq<char>,
) -> Seq<CompanionRequest<Seq<u8>, Seq<char>>> {
    if !sync::links(mode, platform) {
        seq![CompanionRequest::CopyFile { from, to }]
    } else if falls_back(platform, world, from, to) {
        seq![CompanionRequest::LinkFile { from, to }, CompanionRequest::CopyFile { from, to }]
    } else {
        seq![CompanionRequest::LinkFile { from, to }]
    }
}

/// What goes wrong with putting one file in its place, if anything.
pub open spec fn placing_error(
    mode: SyncMode,
    platform: Platform,
    world: CompanionWorld,
    from: Seq<u8>,
    to: Seq<char>,
) -> Option<CompanionError<Seq<u8>, Seq<char>>> {
    if sync::links(mode, platform) && !falls_back(platform, world, from, to) {
        match (world.linked)(from, to) {
            Ok(_) => None,
            Err(failure) => Some(CompanionError::LinkNotCreated { from, to, failure }),
        }
    } else {
        match (world.copied)(from, to) {
            Ok(_) => None,
            Err(failure) => Some(CompanionError::FileNotCopied { from, to, failure }),
        }
    }
}

/// The requests that one file takes: what stands at its name is removed, whether or not
/// that succeeds, and the file is put there.
pub open spec fn file_requests(
    mode: SyncMode,
    platform: Platform,
    world: CompanionWorld,
    from: Seq<u8>,
    to: Seq<char>,
) -> Seq<CompanionRequest<Seq<u8>, Seq<char>>> {
    removal_part(from, to, removal::removal_requests(platform, (world.removal)(from, to)))
        + placing_requests(mode, platform, world, from, to)
}

/// What placing the regular files among these entries amounts to, `written` being
/// written already. The first failure ends it.
pub open spec fn placing_files(
    skill_name: Seq<char>,
    mode: SyncMode,
    platform: Platform,
    world: CompanionWorld,
    entries: Seq<Listed<Seq<u8>>>,
    written: Seq<Seq<char>>,
) -> CompanionTrace
    decreases entries.len(),
{
    if entries.len() == 0 {
        CompanionTrace { requests: seq![], result: Ok(written) }
    } else {
        let rest = entries.drop_first();
        match entries[0] {
            Listed::Failed(failure) => CompanionTrace {
                requests: seq![],
                result: Err(CompanionError::EntryNotRead(failure)),
            },
            Listed::Found { name, kind } => if kind == EntryKind::File {
                let to = companion_name(skill_name, name);
                preceded(
                    file_requests(mode, platform, world, name, to),
                    match placing_error(mode, platform, world, name, to) {
                        Some(error) => CompanionTrace { requests: seq![], result: Err(error) },
                        None => placing_files(
                            skill_name,
                            mode,
                            platform,
                            world,
                            rest,
                            written.push(to),
                        ),
                    },
                )
            } else {
                placing_files(skill_name, mode, platform, world, rest, written)
            },
        }
    }
}

/// What a companion sync amounts to: nothing where the skill has no companion files; and
/// else the watcher is told, the shared directory made, and each file placed in it.
pub open spec fn companion_sync(
    skill_name: Seq<char>,
    mode: SyncMode,
    platform: Platform,
    world: CompanionWorld,
) -> CompanionTrace {
    preceded(
        seq![CompanionRequest::CheckSubdir],
        if !world.subdir {
            CompanionTrace { requests: seq![], result: Ok(seq![]) }
        } else {
            preceded(
                seq![CompanionRequest::Mute, CompanionRequest::CreateDir],
                match world.created {
                    Err(failure) => CompanionTrace {
                        requests: seq![],
                        result: Err(CompanionError::DirNotCreated(failure)),
                    },
                    Ok(_) => preceded(
                        seq![CompanionRequest::ListSubdir],
                        match world.listed {
                            Err(failure) => CompanionTrace {
                                requests: seq![],
                                result: Err(CompanionError::SubdirNotRead(failure)),
                            },
                            Ok(entries) => placing_files(
                                skill_name,
                                mode,
                                platform,
                                world,
                                entries,
                                seq![],
                            ),
                        },
                    ),
                },
            )
        },
    )
}

/// The first state of a companion sync.
pub open spec fn companion_sync_of(
    skill_name: Seq<char>,
    mode: SyncMode,
    platform: Platform,
) -> CompanionView {
    CompanionView {
        skill_name,
        mode,
        platform,
        phase: CompanionPhase::CheckingSubdir,
        waiting: seq![],
        written: seq![],
    }
}

/// The companion sync that is in the middle of a removal.
spec fn in_removal(base: CompanionView, from: Seq<u8>, to: Seq<char>) -> spec_fn(
    RemovalRun,
) -> CompanionView {
    |state: RemovalRun| base.with_removal(from, to, state)
}

proof fn lemma_carries_removal(
    base: CompanionView,
    from: Seq<u8>,
    to: Seq<char>,
    world: CompanionWorld,
)
    ensures
        protocol::carries(
            (world.removal)(from, to),
            in_removal(base, from, to),
            as_removal_request(from, to),
            world,
        ),
{
}

/// A file whose name is free is put there as `placing_requests` says, and then the sync
/// goes on.
proof fn lemma_file_is_placed(
    run: CompanionView,
    from: Seq<u8>,
    to: Seq<char>,
    world: CompanionWorld,
    later: CompanionTrace,
)
    requires
        run.phase == (if sync::links(run.mode, run.platform) {
            CompanionPhase::Linking { from, to }
        } else {
            CompanionPhase::Copying { from, to }
        }),
        match placing_error(run.mode, run.platform, world, from, to) {
            None => protocol::ends(
                run.with_written(to),
                world,
                later.requests,
                later.result,
            ),
            Some(error) => later == (CompanionTrace { requests: seq![], result: Err(error) }),
        },
    ensures
        protocol::ends(
            run,
            world,
            placing_requests(run.mode, run.platform, world, from, to) + later.requests,
            later.result,
        ),
{
    let link = CompanionRequest::<Seq<u8>, Seq<char>>::LinkFile { from, to };
    let copy = CompanionRequest::<Seq<u8>, Seq<char>>::CopyFile { from, to };
    let requests = placing_requests(run.mode, run.platform, world, from, to);
    let error = placing_error(run.mode, run.platform, world, from, to);
    if sync::links(run.mode, run.platform) {
        let linked = run.next(Reply::Outcome((world.linked)(from, to)));
        if falls_back(run.platform, world, from, to) {
            let copied = linked.next(Reply::Outcome((world.copied)(from, to)));
            if error is Some {
                protocol::lemma_ends_now(copied, world, later.result);
            } else {
                lemma_with_entries_anew(
                    CompanionView { written: run.written.push(to), ..run },
                    CompanionView { written: linked.written.push(to), ..linked },
                    run.waiting,
                );
            }
            protocol::lemma_ends_step(linked, world, copy, later.requests, later.result);
            let tail = seq![copy] + later.requests;
            protocol::lemma_ends_step(run, world, link, tail, later.result);
            assert(seq![link] + tail =~= requests + later.requests);
        } else {
            if error is Some {
                protocol::lemma_ends_now(linked, world, later.result);
            }
            protocol::lemma_ends_step(run, world, link, later.requests, later.result);
            assert(seq![link] + later.requests =~= requests + later.requests);
        }
    } else {
        let copied = run.next(Reply::Outcome((world.copied)(from, to)));
        if error is Some {
            protocol::lemma_ends_now(copied, world, later.result);
        }
        protocol::lemma_ends_step(run, world, copy, later.requests, later.result);
        assert(seq![copy] + later.requests =~= requests + later.requests);
    }
}

/// A companion sync does with entries what `placing_files` says.
proof fn lemma_files_are_placed(
    run: CompanionView,
    world: CompanionWorld,
    entries: Seq<Listed<Seq<u8>>>,
)
    ensures
        protocol::ends(
            run.with_entries(entries),
            world,
            placing_files(run.skill_name, run.mode, run.platform, world, entries, run.written).requests,
            placing_files(run.skill_name, run.mode, run.platform, world, entries, run.written).result,
        ),
    decreases entries.len(),
{
    let trace = placing_files(
        run.skill_name,
        run.mode,
        run.platform,
        world,
        entries,
        run.written,
    );
    let here = run.with_entries(entries);
    if entries.len() == 0 {
        protocol::lemma_ends_now(here, world, trace.result);
    } else {
        let rest = entries.drop_first();
        match entries[0] {
            Listed::Failed(failure) => {
                protocol::lemma_ends_now(here, world, trace.result);
            },
            Listed::Found { name, kind } => {
                if kind == EntryKind::File {
                    let to = companion_name(run.skill_name, name);
                    let removal = RemovalRun {
                        platform: run.platform,
                        phase: RemovalPhase::Inspecting,
                    };
                    let replies = (world.removal)(name, to);
                    let asked = removal::removal_requests(run.platform, replies);
                    let removed = removal::removal_outcome(run.platform, replies);
                    removal::lemma_removal_ends(removal, replies);
                    lemma_carries_removal(here, name, to, world);
                    let error = placing_error(run.mode, run.platform, world, name, to);
                    let more = CompanionView { written: run.written.push(to), ..run };
                    let later = match error {
                        Some(error) => CompanionTrace { requests: seq![], result: Err(error) },
                        None => placing_files(
                            run.skill_name,
                            run.mode,
                            run.platform,
                            world,
                            rest,
                            run.written.push(to),
                        ),
                    };
                    if error is None {
                        lemma_files_are_placed(more, world, rest);
                    }
                    let placing = preceded(
                        placing_requests(run.mode, run.platform, world, name, to),
                        later,
                    );
                    assert forall|state: RemovalRun|
                        state.outcome() == Some(removed) implies protocol::ends(
                        #[trigger] in_removal(here, name, to)(state),
                        world,
                        placing.requests,
                        placing.result,
                    ) by {
                        let free = here.with_removal(name, to, state);
                        lemma_with_entries_anew(
                            more,
                            CompanionView { written: free.written.push(to), ..free },
                            rest,
                        );
                        lemma_file_is_placed(free, name, to, world, later);
                    }
                    protocol::lemma_part_then_rest(
                        removal,
                        replies,
                        asked,
                        removed,
                        in_removal(here, name, to),
                        as_removal_request(name, to),
                        world,
                        placing.requests,
                        placing.result,
                    );
                    assert(here.with_removal(name, to, removal) == here);
                    assert(removal_part(name, to, asked) + placing.requests =~= trace.requests);
                } else {
                    lemma_files_are_placed(run, world, rest);
                }
            },
        }
    }
}

/// A companion sync does what `companion_sync` says.
pub proof fn lemma_companion_sync_ends(
    skill_name: Seq<char>,
    mode: SyncMode,
    platform: Platform,
    world: CompanionWorld,
)
    ensures
        protocol::ends(
            companion_sync_of(skill_name, mode, platform),
            world,
            companion_sync(skill_name, mode, platform, world).requests,
            companion_sync(skill_name, mode, platform, world).result,
        ),
{
    let run = companion_sync_of(skill_name, mode, platform);
    let trace = companion_sync(skill_name, mode, platform, world);
    let none = Seq::<CompanionRequest<Seq<u8>, Seq<char>>>::empty();
    let check = CompanionRequest::<Seq<u8>, Seq<char>>::CheckSubdir;
    let mute = CompanionRequest::<Seq<u8>, Seq<char>>::Mute;
    let create = CompanionRequest::<Seq<u8>, Seq<char>>::CreateDir;
    let list = CompanionRequest::<Seq<u8>, Seq<char>>::ListSubdir;
    let checked = run.next(Reply::Flag(world.subdir));
    if !world.subdir {
        protocol::lemma_ends_now(checked, world, trace.result);
        protocol::lemma_ends_step(run, world, check, none, trace.result);
        assert(seq![check] + none =~= trace.requests);
    } else {
        let muted = checked.next(Reply::Muted);
        let created = muted.next(Reply::Outcome(world.created));
        let later = match world.created {
            Err(_) => {
                protocol::lemma_ends_now(created, world, trace.result);
                none
            },
            Ok(_) => {
                let listed = created.next(Reply::Listing(world.listed));
                let last = match world.listed {
                    Err(_) => {
                        protocol::lemma_ends_now(listed, world, trace.result);
                        none
                    },
                    Ok(entries) => {
                        lemma_files_are_placed(created, world, entries);
                        placing_files(
                            skill_name,
                            mode,
                            platform,
                            world,
                            entries,
                            seq![],
                        ).requests
                    },
                };
                protocol::lemma_ends_step(created, world, list, last, trace.result);
                seq![list] + last
            },
        };
        protocol::lemma_ends_step(muted, world, create, later, trace.result);
        let tail = seq![create] + later;
        protocol::lemma_ends_step(checked, world, mute, tail, trace.result);
        let rest = seq![mute] + tail;
        protocol::lemma_ends_step(run, world, check, rest, trace.result);
        assert(seq![check] + rest =~= trace.requests);
    }
}

/// Starts placing the companion files of a skill in a directory that all skills share.
///
/// Each regular file of the skill's companion directory is linked or copied to the
/// shared directory, under the skill's name and its own. Everything else in that
/// directory is passed over. The outcome is the names that were written.
pub fn sync_companion_files(skill_name: &str, mode: SyncMode, platform: Platform) -> (run:
    CompanionRun)
    ensures
        run@ == companion_sync_of(skill_name@, mode, platform),
        run@.valid(),
        forall|world: CompanionWorld| #[trigger]
            protocol::ends(
                run@,
                world,
                companion_sync(skill_name@, mode, platform, world).requests,
                companion_sync(skill_name@, mode, platform, world).result,
            ),
{
    let run = CompanionRun {
        skill_name: skill_name.to_owned(),
        mode,
        platform,
        phase: CompanionPhase::CheckingSubdir,
        waiting: Vec::new(),
        written: Vec::new(),
    };
    assert(run@.waiting =~= seq![]);
    assert(run@.written =~= seq![]);
    proof {
        assert forall|world: CompanionWorld| #[trigger]
            protocol::ends(
                run@,
                world,
                companion_sync(skill_name@, mode, platform, world).requests,
                companion_sync(skill_name@, mode, platform, world).result,
            ) by {
            lemma_companion_sync_ends(skill_name@, mode, platform, world);
        }
    }
    run
}

} // verus!
