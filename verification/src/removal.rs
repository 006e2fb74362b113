//! Removing whatever stands at a target.

use crate::mode::Platform;
#[allow(unused_imports)]
use crate::protocol;
use crate::path::PathView;
use crate::protocol::{
    Failure, FailureKind, FileKind, FsReply, Listed, Protocol, Reply, ReplyView,
};
use vstd::prelude::*;

verus! {

/// The three ways of removing something.
#[derive(Debug, Clone, Copy, PartialEq, Eq, Structural)]
pub enum Removal {
    /// Unlink a file, or a link as such.
    File,
    /// Remove a directory that has no entries of its own, such as a link made as a
    /// directory.
    EmptyDir,
    /// Remove a directory with everything in it.
    Tree,
}

/// How to remove what stands at a target. A link is removed itself and never followed.
pub open spec fn removal_for(platform: Platform, kind: FileKind) -> Removal {
    match kind {
        FileKind::Link { directory } => if platform == Platform::Windows && directory {
            Removal::EmptyDir
        } else {
            Removal::File
        },
        FileKind::Directory => Removal::Tree,
        FileKind::Other => Removal::File,
    }
}

/// What a removal asks of the file system, all of it about the target.
#[derive(Debug, Clone, Copy, PartialEq, Eq, Structural)]
pub enum RemovalRequest {
    /// Tell what stands there, links not followed.
    Inspect,
    /// Have the watcher ignore the change.
    Mute,
    Remove(Removal),
}

/// How far a removal has come.
#[derive(Debug, Clone, Copy, PartialEq, Eq)]
pub enum RemovalPhase {
    Inspecting,
    Muting(Removal),
    Removing(Removal),
    Ended(Result<(), Failure>),
}

/// A removal under way.
#[derive(Debug, Clone, Copy, PartialEq, Eq)]
pub struct RemovalRun {
    pub platform: Platform,
    pub phase: RemovalPhase,
}

/// What the file system would reply to a removal.
pub struct RemovalWorld {
    /// What stands at the target.
    pub kind: Result<FileKind, Failure>,
    /// How each way of removing it goes.
    pub removed: spec_fn(Removal) -> Result<(), Failure>,
}

impl Protocol for RemovalRun {
    type Request = RemovalRequest;

    type Outcome = Result<(), Failure>;

    type World = RemovalWorld;

    open spec fn pending(self) -> Option<RemovalRequest> {
        match self.phase {
            RemovalPhase::Inspecting => Some(RemovalRequest::Inspect),
            RemovalPhase::Muting(_) => Some(RemovalRequest::Mute),
            RemovalPhase::Removing(removal) => Some(RemovalRequest::Remove(removal)),
            RemovalPhase::Ended(_) => None,
        }
    }

    open spec fn outcome(self) -> Option<Result<(), Failure>> {
        match self.phase {
            RemovalPhase::Ended(result) => Some(result),
            _ => None,
        }
    }

    open spec fn next(self, reply: ReplyView) -> RemovalRun {
        let phase = match (self.phase, reply) {
            (RemovalPhase::Inspecting, Reply::Kind(Ok(kind))) => RemovalPhase::Muting(
                removal_for(self.platform, kind),
            ),
            (RemovalPhase::Inspecting, Reply::Kind(Err(failure))) => RemovalPhase::Ended(
                if failure.kind == FailureKind::NotFound {
                    Ok(())
                } else {
                    Err(failure)
                },
            ),
            (RemovalPhase::Muting(removal), Reply::Muted) => RemovalPhase::Removing(removal),
            (RemovalPhase::Removing(_), Reply::Outcome(result)) => RemovalPhase::Ended(result),
            _ => self.phase,
        };
        RemovalRun { platform: self.platform, phase }
    }

    open spec fn reply(world: RemovalWorld, request: RemovalRequest) -> ReplyView {
        match request {
            RemovalRequest::Inspect => Reply::Kind(world.kind),
            RemovalRequest::Mute => Reply::Muted,
            RemovalRequest::Remove(removal) => Reply::Outcome((world.removed)(removal)),
        }
    }

    open spec fn valid(self) -> bool {
        true
    }

    proof fn asks_or_has_ended(self) {
    }

    proof fn stays_valid(self, reply: ReplyView) {
    }
}

/// The requests that a removal makes: where nothing can be seen it only looks.
pub open spec fn removal_requests(platform: Platform, world: RemovalWorld) -> Seq<RemovalRequest> {
    match world.kind {
        Ok(kind) => seq![
            RemovalRequest::Inspect,
            RemovalRequest::Mute,
            RemovalRequest::Remove(removal_for(platform, kind)),
        ],
        Err(_) => seq![RemovalRequest::Inspect],
    }
}

/// How a removal ends: well where nothing was there, and else as the removing goes.
pub open spec fn removal_outcome(platform: Platform, world: RemovalWorld) -> Result<(), Failure> {
    match world.kind {
        Ok(kind) => (world.removed)(removal_for(platform, kind)),
        Err(failure) => if failure.kind == FailureKind::NotFound {
            Ok(())
        } else {
            Err(failure)
        },
    }
}

/// Starts removing whatever stands at the target.
pub fn remove_target(platform: Platform) -> (run: RemovalRun)
    ensures
        run == (RemovalRun { platform, phase: RemovalPhase::Inspecting }),
        forall|world: RemovalWorld| #[trigger]
            protocol::ends(
                run,
                world,
                removal_requests(platform, world),
                removal_outcome(platform, world),
            ),
{
    let run = RemovalRun { platform, phase: RemovalPhase::Inspecting };
    proof {
        assert forall|world: RemovalWorld| #[trigger]
            protocol::ends(
                run,
                world,
                removal_requests(platform, world),
                removal_outcome(platform, world),
            ) by {
            lemma_removal_ends(run, world);
        }
    }
    run
}

/// A removal makes these requests and ends this way.
pub proof fn lemma_removal_ends(run: RemovalRun, world: RemovalWorld)
    requires
        run.phase == RemovalPhase::Inspecting,
    ensures
        protocol::ends(
            run,
            world,
            removal_requests(run.platform, world),
            removal_outcome(run.platform, world),
        ),
{
    let none = Seq::<RemovalRequest>::empty();
    let outcome = removal_outcome(run.platform, world);
    let seen = run.next(Reply::Kind(world.kind));
    match world.kind {
        Ok(kind) => {
            let muted = seen.next(Reply::Muted);
            let removal = removal_for(run.platform, kind);
            let removed = muted.next(Reply::Outcome((world.removed)(removal)));
            protocol::lemma_ends_now(removed, world, outcome);
            protocol::lemma_ends_step(
                muted,
                world,
                RemovalRequest::Remove(removal),
                none,
                outcome,
            );
            let last = seq![RemovalRequest::Remove(removal)] + none;
            protocol::lemma_ends_step(seen, world, RemovalRequest::Mute, last, outcome);
            let tail = seq![RemovalRequest::Mute] + last;
            protocol::lemma_ends_step(run, world, RemovalRequest::Inspect, tail, outcome);
            assert(seq![RemovalRequest::Inspect] + tail =~= removal_requests(run.platform, world));
        },
        Err(_) => {
            protocol::lemma_ends_now(seen, world, outcome);
            protocol::lemma_ends_step(run, world, RemovalRequest::Inspect, none, outcome);
            assert(seq![RemovalRequest::Inspect] + none =~= removal_requests(run.platform, world));
        },
    }
}

/// How to remove something of the given kind.
fn choose_removal(platform: Platform, kind: FileKind) -> (removal: Removal)
    ensures
        removal == removal_for(platform, kind),
{
    match kind {
        FileKind::Link { directory } => match platform {
            Platform::Windows => if directory {
                Removal::EmptyDir
            } else {
                Removal::File
            },
            _ => Removal::File,
        },
        FileKind::Directory => Removal::Tree,
        FileKind::Other => Removal::File,
    }
}

impl RemovalRun {
    /// The request that waits for a reply.
    pub fn request(&self) -> (request: Option<RemovalRequest>)
        ensures
            request == self.pending(),
    {
        match self.phase {
            RemovalPhase::Inspecting => Some(RemovalRequest::Inspect),
            RemovalPhase::Muting(_) => Some(RemovalRequest::Mute),
            RemovalPhase::Removing(removal) => Some(RemovalRequest::Remove(removal)),
            RemovalPhase::Ended(_) => None,
        }
    }

    /// The outcome, once there is one.
    pub fn result(&self) -> (result: Option<Result<(), Failure>>)
        ensures
            result == self.outcome(),
    {
        match self.phase {
            RemovalPhase::Ended(result) => Some(result),
            _ => None,
        }
    }

    /// Takes a reply.
    pub fn advance(self, reply: FsReply) -> (run: RemovalRun)
        ensures
            run == self.next(reply@),
    {
        let phase = match (self.phase, reply) {
            (RemovalPhase::Inspecting, Reply::Kind(Ok(kind))) => RemovalPhase::Muting(
                choose_removal(self.platform, kind),
            ),
            (RemovalPhase::Inspecting, Reply::Kind(Err(failure))) => match failure.kind {
                FailureKind::NotFound => RemovalPhase::Ended(Ok(())),
                FailureKind::Other => RemovalPhase::Ended(Err(failure)),
            },
            (RemovalPhase::Muting(removal), Reply::Muted) => RemovalPhase::Removing(removal),
            (RemovalPhase::Removing(_), Reply::Outcome(result)) => RemovalPhase::Ended(result),
            _ => self.phase,
        };
        RemovalRun { platform: self.platform, phase }
    }
}

/// What a removal does, by what stands at the target: a directory goes with everything in
/// it, a file is unlinked, and a link goes itself, in the way in which the platform made it.
/// Nothing is done where nothing is there.
pub proof fn law_removal_by_what_is_there(
    platform: Platform,
    world: RemovalWorld,
    requests: Seq<RemovalRequest>,
    outcome: Result<(), Failure>,
)
    requires
        protocol::ends(
            RemovalRun { platform, phase: RemovalPhase::Inspecting },
            world,
            requests,
            outcome,
        ),
    ensures
        match world.kind {
            Ok(FileKind::Directory) => {
                &&& requests == seq![
                    RemovalRequest::Inspect,
                    RemovalRequest::Mute,
                    RemovalRequest::Remove(Removal::Tree),
                ]
                &&& outcome == (world.removed)(Removal::Tree)
            },
            Ok(FileKind::Other) => {
                &&& requests == seq![
                    RemovalRequest::Inspect,
                    RemovalRequest::Mute,
                    RemovalRequest::Remove(Removal::File),
                ]
                &&& outcome == (world.removed)(Removal::File)
            },
            Ok(FileKind::Link { directory }) => {
                if directory && platform == Platform::Windows {
                    &&& requests == seq![
                        RemovalRequest::Inspect,
                        RemovalRequest::Mute,
                        RemovalRequest::Remove(Removal::EmptyDir),
                    ]
                    &&& outcome == (world.removed)(Removal::EmptyDir)
                } else {
                    &&& requests == seq![
                        RemovalRequest::Inspect,
                        RemovalRequest::Mute,
                        RemovalRequest::Remove(Removal::File),
                    ]
                    &&& outcome == (world.removed)(Removal::File)
                }
            },
            Err(failure) => {
                &&& requests == seq![RemovalRequest::Inspect]
                &&& failure.kind == FailureKind::NotFound ==> outcome == Ok::<(), Failure>(())
                &&& failure.kind != FailureKind::NotFound ==> outcome == Err::<(), Failure>(failure)
            },
        },
{
    let run = RemovalRun { platform, phase: RemovalPhase::Inspecting };
    lemma_removal_ends(run, world);
    protocol::law_runs_end_one_way(
        run,
        world,
        (requests, outcome),
        (removal_requests(platform, world), removal_outcome(platform, world)),
    );
}

/// On a disk where each way of removing works on what it is for and on nothing else, a
/// removal goes well, whatever stands at the target: files and plain links are unlinked,
/// directories removed as trees, and links that are directories as empty ones.
pub proof fn law_removal_goes_well_on_a_sound_disk(
    platform: Platform,
    world: RemovalWorld,
    requests: Seq<RemovalRequest>,
    outcome: Result<(), Failure>,
)
    requires
        protocol::ends(
            RemovalRun { platform, phase: RemovalPhase::Inspecting },
            world,
            requests,
            outcome,
        ),
        world.kind is Err ==> world.kind->Err_0.kind == FailureKind::NotFound,
        (world.removed)(Removal::Tree) is Ok <==> world.kind == Ok::<FileKind, Failure>(
            FileKind::Directory,
        ),
        (world.removed)(Removal::EmptyDir) is Ok <==> (platform == Platform::Windows && world.kind
            == Ok::<FileKind, Failure>(FileKind::Link { directory: true })),
        (world.removed)(Removal::File) is Ok <==> (world.kind == Ok::<FileKind, Failure>(
            FileKind::Other,
        ) || world.kind == Ok::<FileKind, Failure>(FileKind::Link { directory: false })
            || platform != Platform::Windows && world.kind == Ok::<FileKind, Failure>(
            FileKind::Link { directory: true },
        )),
    ensures
        outcome is Ok,
        world.kind is Ok ==> exists|way: Removal|
            requests.contains(RemovalRequest::Remove(way)) && (#[trigger] (world.removed)(way)) is Ok,
{
    law_removal_by_what_is_there(platform, world, requests, outcome);
    match world.kind {
        Ok(_) => {
            assert(requests[2] is Remove);
            let way = requests[2]->Remove_0;
            assert(requests.contains(RemovalRequest::Remove(way)));
            assert((world.removed)(way) is Ok);
        },
        Err(_) => {},
    }
}

/// A reply of a kind that was not asked for leaves a removal where it is.
pub proof fn law_stray_replies_do_not_move_a_removal(run: RemovalRun, reply: ReplyView)
    requires
        match run.pending() {
            Some(RemovalRequest::Inspect) => !(reply is Kind),
            Some(RemovalRequest::Mute) => !(reply is Muted),
            Some(RemovalRequest::Remove(_)) => !(reply is Outcome),
            None => true,
        },
    ensures
        run.next(reply) == run,
{
}

/// A removal is told what the file system has to tell.
pub proof fn law_removal_is_told_the_truth(world: RemovalWorld, removal: Removal)
    ensures
        RemovalRun::reply(world, RemovalRequest::Inspect) == Reply::<
            PathView,
            Seq<Listed<Seq<u8>>>,
        >::Kind(world.kind),
        RemovalRun::reply(world, RemovalRequest::Mute) == Reply::<
            PathView,
            Seq<Listed<Seq<u8>>>,
        >::Muted,
        RemovalRun::reply(world, RemovalRequest::Remove(removal)) == Reply::<
            PathView,
            Seq<Listed<Seq<u8>>>,
        >::Outcome((world.removed)(removal)),
{
}

/// A link is never followed: whatever it leads to is out of a removal's reach.
pub proof fn law_links_are_not_followed(platform: Platform, world: RemovalWorld, directory: bool)
    requires
        world.kind == Ok::<FileKind, Failure>(FileKind::Link { directory }),
    ensures
        !removal_requests(platform, world).contains(RemovalRequest::Remove(Removal::Tree)),
{
}

/// A target that is not there needs no removing: the removal looks, changes nothing and
/// ends well.
pub proof fn law_missing_target_is_no_failure(
    platform: Platform,
    world: RemovalWorld,
    failure: Failure,
)
    requires
        world.kind == Err::<FileKind, Failure>(failure),
        failure.kind == FailureKind::NotFound,
    ensures
        removal_requests(platform, world) == seq![RemovalRequest::Inspect],
        removal_outcome(platform, world) == Ok::<(), Failure>(()),
{
}

/// Nothing is removed unseen, and the watcher is told before every removal.
pub proof fn law_removals_are_muted(platform: Platform, world: RemovalWorld, at: int)
    requires
        0 <= at < removal_requests(platform, world).len(),
        removal_requests(platform, world)[at] is Remove,
    ensures
        world.kind is Ok,
        removal_requests(platform, world).take(at).contains(RemovalRequest::Mute),
{
    assert(removal_requests(platform, world).take(at)[1] == RemovalRequest::Mute);
}

} // verus!
