//! Bringing a target into step with its source.

#[allow(unused_imports)]
use crate::copy;
use crate::copy::{copy_dir_recursive, CopyRequest, CopyRun, CopyView, CopyWorld};
#[allow(unused_imports)]
use crate::current;
use crate::current::{is_target_current, CheckRequest, CheckWorld, CurrentCheck};
#[allow(unused_imports)]
use crate::guard;
use crate::guard::{ensure_dst_not_inside_src, GuardRequest, GuardWorld, OverlapGuard, Refusal};
use crate::mode::{Platform, SyncMode};
#[allow(unused_imports)]
use crate::path;
use crate::path::{PathView, SkillPath};
#[allow(unused_imports)]
use crate::protocol;
use crate::protocol::{Failure, FsReply, Listed, Protocol, Reply, ReplyView};
#[allow(unused_imports)]
use crate::removal;
use crate::removal::{remove_target, RemovalPhase, RemovalRequest, RemovalRun, RemovalWorld};
use vstd::prelude::*;

verus! {

/// What a sync asks of the file system. `R` is how places below the source and the
/// target are held.
#[derive(Debug, PartialEq, Eq)]
pub enum SyncRequest<R> {
    /// Part of checking whether the target is current.
    Check(CheckRequest),
    /// Have the watcher ignore what happens to the target.
    Mute,
    /// Part of checking that source and target do not overlap, before anything is written.
    Guard(GuardRequest),
    /// Make the target's parent directory, and those above it that are missing.
    CreateParent,
    /// Part of checking once more, now that the parent directory is there.
    GuardAgain(GuardRequest),
    /// Part of removing what stands at the target.
    Remove(RemovalRequest),
    /// Make the target a symbolic link to the source.
    CreateLink,
    /// Make the target a directory junction to the source.
    CreateJunction,
    /// Part of copying the source to the target.
    Copy(CopyRequest<R>),
}

/// Why a sync fails.
#[derive(Debug, Clone, Copy, PartialEq, Eq, Structural)]
pub enum SyncError {
    ParentNotCreated(Failure),
    Refused(Refusal),
    LinkNotCreated(Failure),
    CopyFailed(Failure),
}

/// How far a sync has come. `P` is how paths are held, `C` how copies under way.
#[derive(Debug, PartialEq, Eq)]
pub enum SyncPhase<P, C> {
    Checking(CurrentCheck<P>),
    Muting,
    Guarding(OverlapGuard<P>),
    CreatingParent,
    GuardingAgain(OverlapGuard<P>),
    Removing(RemovalRun),
    Linking,
    Joining,
    Copying(C),
    Ended(Result<SyncMode, SyncError>),
}

/// A sync under way.
#[derive(Debug, PartialEq, Eq)]
pub struct SyncRun<P, C> {
    pub source: P,
    pub target: P,
    pub mode: SyncMode,
    pub platform: Platform,
    pub phase: SyncPhase<P, C>,
}

impl View for SyncRequest<Vec<Vec<u8>>> {
    type V = SyncRequest<Seq<Seq<u8>>>;

    open spec fn view(&self) -> SyncRequest<Seq<Seq<u8>>> {
        match self {
            SyncRequest::Check(request) => SyncRequest::Check(*request),
            SyncRequest::Mute => SyncRequest::Mute,
            SyncRequest::Guard(request) => SyncRequest::Guard(*request),
            SyncRequest::CreateParent => SyncRequest::CreateParent,
            SyncRequest::GuardAgain(request) => SyncRequest::GuardAgain(*request),
            SyncRequest::Remove(request) => SyncRequest::Remove(*request),
            SyncRequest::CreateLink => SyncRequest::CreateLink,
            SyncRequest::CreateJunction => SyncRequest::CreateJunction,
            SyncRequest::Copy(request) => SyncRequest::Copy(request@),
        }
    }
}

impl View for SyncPhase<SkillPath, CopyRun> {
    type V = SyncPhase<PathView, CopyView>;

    open spec fn view(&self) -> SyncPhase<PathView, CopyView> {
        match self {
            SyncPhase::Checking(check) => SyncPhase::Checking(check@),
            SyncPhase::Muting => SyncPhase::Muting,
            SyncPhase::Guarding(guard) => SyncPhase::Guarding(guard@),
            SyncPhase::CreatingParent => SyncPhase::CreatingParent,
            SyncPhase::GuardingAgain(guard) => SyncPhase::GuardingAgain(guard@),
            SyncPhase::Removing(removal) => SyncPhase::Removing(*removal),
            SyncPhase::Linking => SyncPhase::Linking,
            SyncPhase::Joining => SyncPhase::Joining,
            SyncPhase::Copying(copy) => SyncPhase::Copying(copy@),
            SyncPhase::Ended(result) => SyncPhase::Ended(*result),
        }
    }
}

/// A sync as contracts speak of it.
pub type SyncView = SyncRun<PathView, CopyView>;

impl View for SyncRun<SkillPath, CopyRun> {
    type V = SyncView;

    open spec fn view(&self) -> SyncView {
        SyncRun {
            source: self.source@,
            target: self.target@,
            mode: self.mode,
            platform: self.platform,
            phase: self.phase@,
        }
    }
}

/// What the file system would reply to a sync.
pub struct SyncWorld {
    /// To checking whether the target is current.
    pub check: CheckWorld,
    /// To checking for overlap, before anything is written.
    pub guard: GuardWorld,
    /// How making the parent directory goes.
    pub parent: Result<(), Failure>,
    /// To checking for overlap once the parent directory is there.
    pub guard_again: GuardWorld,
    /// To removing what stands at the target.
    pub removal: RemovalWorld,
    /// How making the link goes.
    pub link: Result<(), Failure>,
    /// How making the junction goes.
    pub junction: Result<(), Failure>,
    /// To copying.
    pub copy: CopyWorld,
}

impl SyncRun<PathView, CopyView> {
    /// This sync in another phase.
    pub open spec fn in_phase(self, phase: SyncPhase<PathView, CopyView>) -> SyncView {
        SyncRun { phase, ..self }
    }

    /// Goes on with the check, or with what comes after it.
    pub open spec fn with_check(self, check: CurrentCheck<PathView>) -> SyncView {
        self.in_phase(
            match check.outcome() {
                None => SyncPhase::Checking(check),
                Some(true) => SyncPhase::Ended(Ok(self.mode)),
                Some(false) => SyncPhase::Muting,
            },
        )
    }

    /// Goes on with the guard, or with what comes after it: the parent directory, where
    /// the target has one.
    pub open spec fn with_guard(self, guard: OverlapGuard<PathView>) -> SyncView {
        self.in_phase(
            match guard.outcome() {
                None => SyncPhase::Guarding(guard),
                Some(Ok(_)) => if self.target.parent() is Some {
                    SyncPhase::CreatingParent
                } else {
                    SyncPhase::Removing(
                        RemovalRun { platform: self.platform, phase: RemovalPhase::Inspecting },
                    )
                },
                Some(Err(refusal)) => SyncPhase::Ended(Err(SyncError::Refused(refusal))),
            },
        )
    }

    /// Goes on with the second guard, or with what comes after it.
    pub open spec fn with_guard_again(self, guard: OverlapGuard<PathView>) -> SyncView {
        self.in_phase(
            match guard.outcome() {
                None => SyncPhase::GuardingAgain(guard),
                Some(Ok(_)) => SyncPhase::Removing(
                    RemovalRun { platform: self.platform, phase: RemovalPhase::Inspecting },
                ),
                Some(Err(refusal)) => SyncPhase::Ended(Err(SyncError::Refused(refusal))),
            },
        )
    }

    /// Goes on with the removal, or with what comes after it, however it went.
    pub open spec fn with_removal(self, removal: RemovalRun) -> SyncView {
        self.in_phase(
            match removal.outcome() {
                None => SyncPhase::Removing(removal),
                Some(_) => if links(self.mode, self.platform) {
                    SyncPhase::Linking
                } else {
                    SyncPhase::Copying(copy::copy_of_all())
                },
            },
        )
    }

    /// Goes on with the copy, or ends with it.
    pub open spec fn with_copy(self, copy: CopyView) -> SyncView {
        self.in_phase(
            match copy.outcome() {
                None => SyncPhase::Copying(copy),
                Some(Ok(_)) => SyncPhase::Ended(Ok(SyncMode::Copy)),
                Some(Err(failure)) => SyncPhase::Ended(Err(SyncError::CopyFailed(failure))),
            },
        )
    }
}

/// Whether a sync starts out making a link.
pub open spec fn links(mode: SyncMode, platform: Platform) -> bool {
    mode == SyncMode::Symlink && platform != Platform::Other
}

impl Protocol for SyncRun<PathView, CopyView> {
    type Request = SyncRequest<Seq<Seq<u8>>>;

    type Outcome = Result<SyncMode, SyncError>;

    type World = SyncWorld;

    open spec fn pending(self) -> Option<SyncRequest<Seq<Seq<u8>>>> {
        match self.phase {
            SyncPhase::Checking(check) => match check.pending() {
                Some(request) => Some(SyncRequest::Check(request)),
                None => None,
            },
            SyncPhase::Muting => Some(SyncRequest::Mute),
            SyncPhase::Guarding(guard) => match guard.pending() {
                Some(request) => Some(SyncRequest::Guard(request)),
                None => None,
            },
            SyncPhase::CreatingParent => Some(SyncRequest::CreateParent),
            SyncPhase::GuardingAgain(guard) => match guard.pending() {
                Some(request) => Some(SyncRequest::GuardAgain(request)),
                None => None,
            },
            SyncPhase::Removing(removal) => match removal.pending() {
                Some(request) => Some(SyncRequest::Remove(request)),
                None => None,
            },
            SyncPhase::Linking => Some(SyncRequest::CreateLink),
            SyncPhase::Joining => Some(SyncRequest::CreateJunction),
            SyncPhase::Copying(copy) => match copy.pending() {
                Some(request) => Some(SyncRequest::Copy(request)),
                None => None,
            },
            SyncPhase::Ended(_) => None,
        }
    }

    open spec fn outcome(self) -> Option<Result<SyncMode, SyncError>> {
        match self.phase {
            SyncPhase::Ended(result) => Some(result),
            _ => None,
        }
    }

    open spec fn next(self, reply: ReplyView) -> SyncView {
        match (self.phase, reply) {
            (SyncPhase::Checking(check), _) => self.with_check(check.next(reply)),
            (SyncPhase::Muting, Reply::Muted) => self.with_guard(guard::guard_of(self.source, self.target)),
            (SyncPhase::Guarding(guard), _) => self.with_guard(guard.next(reply)),
            (SyncPhase::CreatingParent, Reply::Outcome(Ok(_))) => self.with_guard_again(
                guard::guard_of(self.source, self.target),
            ),
            (SyncPhase::CreatingParent, Reply::Outcome(Err(failure))) => self.in_phase(
                SyncPhase::Ended(Err(SyncError::ParentNotCreated(failure))),
            ),
            (SyncPhase::GuardingAgain(guard), _) => self.with_guard_again(guard.next(reply)),
            (SyncPhase::Removing(removal), _) => self.with_removal(removal.next(reply)),
            (SyncPhase::Linking, Reply::Outcome(Ok(_))) => self.in_phase(
                SyncPhase::Ended(Ok(SyncMode::Symlink)),
            ),
            (SyncPhase::Linking, Reply::Outcome(Err(failure))) => self.in_phase(
                if self.platform == Platform::Windows {
                    SyncPhase::Joining
                } else {
                    SyncPhase::Ended(Err(SyncError::LinkNotCreated(failure)))
                },
            ),
            (SyncPhase::Joining, Reply::Outcome(Ok(_))) => self.in_phase(
                SyncPhase::Ended(Ok(SyncMode::Symlink)),
            ),
            (SyncPhase::Joining, Reply::Outcome(Err(_))) => self.in_phase(
                SyncPhase::Copying(copy::copy_of_all()),
            ),
            (SyncPhase::Copying(copy), _) => self.with_copy(copy.next(reply)),
            _ => self,
        }
    }

    open spec fn reply(world: SyncWorld, request: SyncRequest<Seq<Seq<u8>>>) -> ReplyView {
        match request {
            SyncRequest::Check(request) => current::check_reply(world.check, request),
            SyncRequest::Mute => Reply::Muted,
            SyncRequest::Guard(request) => {
                <OverlapGuard<PathView> as Protocol>::reply(world.guard, request)
            },
            SyncRequest::CreateParent => Reply::Outcome(world.parent),
            SyncRequest::GuardAgain(request) => {
                <OverlapGuard<PathView> as Protocol>::reply(world.guard_again, request)
            },
            SyncRequest::Remove(request) => {
                <RemovalRun as Protocol>::reply(world.removal, request)
            },
            SyncRequest::CreateLink => Reply::Outcome(world.link),
            SyncRequest::CreateJunction => Reply::Outcome(world.junction),
            SyncRequest::Copy(request) => <CopyView as Protocol>::reply(world.copy, request),
        }
    }

    /// A part that has ended has made way for the next.
    open spec fn valid(self) -> bool {
        match self.phase {
            SyncPhase::Checking(check) => check.outcome() is None,
            SyncPhase::Guarding(guard) => guard.outcome() is None,
            SyncPhase::GuardingAgain(guard) => guard.outcome() is None,
            SyncPhase::Removing(removal) => removal.outcome() is None,
            SyncPhase::Copying(copy) => copy.outcome() is None,
            _ => true,
        }
    }

    proof fn asks_or_has_ended(self) {
        match self.phase {
            SyncPhase::Checking(check) => {
                check.asks_or_has_ended();
            },
            _ => {},
        }
    }

    proof fn stays_valid(self, reply: ReplyView) {
    }
}

/// The phase in which a sync goes on with a check, or with what comes after it.
fn phase_with_check(mode: SyncMode, check: CurrentCheck<SkillPath>) -> (phase: SyncPhase<
    SkillPath,
    CopyRun,
>)
    ensures
        forall|run: SyncView|
            run.mode == mode ==> #[trigger] run.with_check(check@) == run.in_phase(phase@),
{
    match check.result() {
        None => SyncPhase::Checking(check),
        Some(verdict) => if verdict {
            SyncPhase::Ended(Ok(mode))
        } else {
            SyncPhase::Muting
        },
    }
}

/// The phase in which a sync goes on with the guard, or with what comes after it.
fn phase_with_guard(
    target: &SkillPath,
    platform: Platform,
    guard: OverlapGuard<SkillPath>,
) -> (phase: SyncPhase<SkillPath, CopyRun>)
    ensures
        forall|run: SyncView|
            run.platform == platform && run.target == target@ ==> #[trigger] run.with_guard(guard@)
                == run.in_phase(phase@),
{
    match guard.result() {
        None => SyncPhase::Guarding(guard),
        Some(Ok(_)) => match target.parent() {
            Some(_) => SyncPhase::CreatingParent,
            None => SyncPhase::Removing(remove_target(platform)),
        },
        Some(Err(refusal)) => SyncPhase::Ended(Err(SyncError::Refused(refusal))),
    }
}

/// The phase in which a sync goes on with the second guard, or with what comes after it.
fn phase_with_guard_again(platform: Platform, guard: OverlapGuard<SkillPath>) -> (phase: SyncPhase<
    SkillPath,
    CopyRun,
>)
    ensures
        forall|run: SyncView|
            run.platform == platform ==> #[trigger] run.with_guard_again(guard@) == run.in_phase(
                phase@,
            ),
{
    match guard.result() {
        None => SyncPhase::GuardingAgain(guard),
        Some(Ok(_)) => SyncPhase::Removing(remove_target(platform)),
        Some(Err(refusal)) => SyncPhase::Ended(Err(SyncError::Refused(refusal))),
    }
}

/// The phase in which a sync goes on with a removal, or with what comes after it.
fn phase_with_removal(mode: SyncMode, platform: Platform, removal: RemovalRun) -> (phase: SyncPhase<
    SkillPath,
    CopyRun,
>)
    ensures
        forall|run: SyncView|
            run.mode == mode && run.platform == platform ==> #[trigger] run.with_removal(removal)
                == run.in_phase(phase@),
{
    match removal.result() {
        None => SyncPhase::Removing(removal),
        Some(_) => match (mode, platform) {
            (SyncMode::Symlink, Platform::Unix) => SyncPhase::Linking,
            (SyncMode::Symlink, Platform::Windows) => SyncPhase::Linking,
            _ => SyncPhase::Copying(copy_dir_recursive()),
        },
    }
}

/// The phase in which a sync goes on with a copy, or ends with it.
fn phase_with_copy(copy: CopyRun) -> (phase: SyncPhase<SkillPath, CopyRun>)
    ensures
        forall|run: SyncView| #[trigger] run.with_copy(copy@) == run.in_phase(phase@),
{
    match copy.result() {
        None => SyncPhase::Copying(copy),
        Some(Ok(_)) => SyncPhase::Ended(Ok(SyncMode::Copy)),
        Some(Err(failure)) => SyncPhase::Ended(Err(SyncError::CopyFailed(failure))),
    }
}

impl SyncRun<SkillPath, CopyRun> {
    /// The request that waits for a reply.
    pub fn request(&self) -> (request: Option<SyncRequest<Vec<Vec<u8>>>>)
        ensures
            (match request {
                Some(request) => Some(request@),
                None => None,
            }) == self@.pending(),
    {
        match &self.phase {
            SyncPhase::Checking(check) => match check.request() {
                Some(request) => Some(SyncRequest::Check(request)),
                None => None,
            },
            SyncPhase::Muting => Some(SyncRequest::Mute),
            SyncPhase::Guarding(guard) => match guard.request() {
                Some(request) => Some(SyncRequest::Guard(request)),
                None => None,
            },
            SyncPhase::CreatingParent => Some(SyncRequest::CreateParent),
            SyncPhase::GuardingAgain(guard) => match guard.request() {
                Some(request) => Some(SyncRequest::GuardAgain(request)),
                None => None,
            },
            SyncPhase::Removing(removal) => match removal.request() {
                Some(request) => Some(SyncRequest::Remove(request)),
                None => None,
            },
            SyncPhase::Linking => Some(SyncRequest::CreateLink),
            SyncPhase::Joining => Some(SyncRequest::CreateJunction),
            SyncPhase::Copying(copy) => match copy.request() {
                Some(request) => Some(SyncRequest::Copy(request)),
                None => None,
            },
            SyncPhase::Ended(_) => None,
        }
    }

    /// The outcome, once there is one: how the target was placed in the end.
    pub fn result(&self) -> (result: Option<Result<SyncMode, SyncError>>)
        ensures
            result == self@.outcome(),
    {
        match &self.phase {
            SyncPhase::Ended(result) => Some(*result),
            _ => None,
        }
    }

    /// Takes a reply.
    pub fn advance(self, reply: FsReply) -> (run: SyncRun<SkillPath, CopyRun>)
        ensures
            run@ == self@.next(reply@),
            self@.valid() ==> run@.valid(),
    {
        proof {
            if self@.valid() {
                self@.stays_valid(reply@);
            }
        }
        let ghost before = self@;
        let SyncRun { source, target, mode, platform, phase } = self;
        let phase = match (phase, reply) {
            (SyncPhase::Checking(check), reply) => {
                let check = check.advance(reply);
                proof {
                    let _ = before.with_check(check@);
                }
                phase_with_check(mode, check)
            },
            (SyncPhase::Muting, Reply::Muted) => {
                let guard = ensure_dst_not_inside_src(source.duplicate(), target.duplicate());
                proof {
                    let _ = before.with_guard(guard@);
                }
                phase_with_guard(&target, platform, guard)
            },
            (SyncPhase::Guarding(guard), reply) => {
                let guard = guard.advance(reply);
                proof {
                    let _ = before.with_guard(guard@);
                }
                phase_with_guard(&target, platform, guard)
            },
            (SyncPhase::CreatingParent, Reply::Outcome(Ok(_))) => {
                let guard = ensure_dst_not_inside_src(source.duplicate(), target.duplicate());
                proof {
                    let _ = before.with_guard_again(guard@);
                }
                phase_with_guard_again(platform, guard)
            },
            (SyncPhase::CreatingParent, Reply::Outcome(Err(failure))) => SyncPhase::Ended(
                Err(SyncError::ParentNotCreated(failure)),
            ),
            (SyncPhase::GuardingAgain(guard), reply) => {
                let guard = guard.advance(reply);
                proof {
                    let _ = before.with_guard_again(guard@);
                }
                phase_with_guard_again(platform, guard)
            },
            (SyncPhase::Removing(removal), reply) => {
                let removal = removal.advance(reply);
                proof {
                    let _ = before.with_removal(removal);
                }
                phase_with_removal(mode, platform, removal)
            },
            (SyncPhase::Linking, Reply::Outcome(Ok(_))) => SyncPhase::Ended(Ok(SyncMode::Symlink)),
            (SyncPhase::Linking, Reply::Outcome(Err(failure))) => match platform {
                Platform::Windows => SyncPhase::Joining,
                _ => SyncPhase::Ended(Err(SyncError::LinkNotCreated(failure))),
            },
            (SyncPhase::Joining, Reply::Outcome(Ok(_))) => SyncPhase::Ended(Ok(SyncMode::Symlink)),
            (SyncPhase::Joining, Reply::Outcome(Err(_))) => SyncPhase::Copying(
                copy_dir_recursive(),
            ),
            (SyncPhase::Copying(copy), reply) => {
                let copy = copy.advance(reply);
                proof {
                    let _ = before.with_copy(copy@);
                }
                phase_with_copy(copy)
            },
            (phase, _) => phase,
        };
        SyncRun { source, target, mode, platform, phase }
    }
}

/// The requests that a sync makes, and how it ends.
#[verifier::ext_equal]
pub struct SyncTrace {
    pub requests: Seq<SyncRequest<Seq<Seq<u8>>>>,
    pub result: Result<SyncMode, SyncError>,
}

/// The trace with these requests in front.
pub open spec fn preceded(
    requests: Seq<SyncRequest<Seq<Seq<u8>>>>,
    trace: Option<SyncTrace>,
) -> Option<SyncTrace> {
    match trace {
        Some(trace) => Some(
            SyncTrace { requests: requests + trace.requests, result: trace.result },
        ),
        None => None,
    }
}

/// The trace of a sync that ends without another request.
pub open spec fn ended(result: Result<SyncMode, SyncError>) -> Option<SyncTrace> {
    Some(SyncTrace { requests: seq![], result })
}

/// A request of a check as a request of a sync.
pub open spec fn as_check_request() -> spec_fn(CheckRequest) -> SyncRequest<Seq<Seq<u8>>> {
    |request: CheckRequest| SyncRequest::Check(request)
}

/// A request of the guard as a request of a sync.
pub open spec fn as_guard_request() -> spec_fn(GuardRequest) -> SyncRequest<Seq<Seq<u8>>> {
    |request: GuardRequest| SyncRequest::Guard(request)
}

/// A request of the second guard as a request of a sync.
pub open spec fn as_guard_again_request() -> spec_fn(GuardRequest) -> SyncRequest<Seq<Seq<u8>>> {
    |request: GuardRequest| SyncRequest::GuardAgain(request)
}

/// A request of a removal as a request of a sync.
pub open spec fn as_removal_request() -> spec_fn(RemovalRequest) -> SyncRequest<Seq<Seq<u8>>> {
    |request: RemovalRequest| SyncRequest::Remove(request)
}

/// A request of a copy as a request of a sync.
pub open spec fn as_copy_request() -> spec_fn(CopyRequest<Seq<Seq<u8>>>) -> SyncRequest<Seq<Seq<u8>>> {
    |request: CopyRequest<Seq<Seq<u8>>>| SyncRequest::Copy(request)
}

/// The requests of a check as requests of a sync.
pub open spec fn check_part(requests: Seq<CheckRequest>) -> Seq<SyncRequest<Seq<Seq<u8>>>> {
    protocol::lifted(requests, as_check_request())
}

/// The requests of the guard as requests of a sync.
pub open spec fn guard_part(requests: Seq<GuardRequest>) -> Seq<SyncRequest<Seq<Seq<u8>>>> {
    protocol::lifted(requests, as_guard_request())
}

/// The requests of the second guard as requests of a sync.
pub open spec fn guard_again_part(requests: Seq<GuardRequest>) -> Seq<SyncRequest<Seq<Seq<u8>>>> {
    protocol::lifted(requests, as_guard_again_request())
}

/// The requests of a removal as requests of a sync.
pub open spec fn removal_part(requests: Seq<RemovalRequest>) -> Seq<SyncRequest<Seq<Seq<u8>>>> {
    protocol::lifted(requests, as_removal_request())
}

/// The requests of a copy as requests of a sync.
pub open spec fn copy_part(requests: Seq<CopyRequest<Seq<Seq<u8>>>>) -> Seq<
    SyncRequest<Seq<Seq<u8>>>,
> {
    protocol::lifted(requests, as_copy_request())
}

/// Copying the source to the target.
pub open spec fn copying(world: SyncWorld, depth: nat) -> Option<SyncTrace> {
    match copy::copy_dir(world.copy, seq![], depth) {
        None => None,
        Some(trace) => preceded(
            copy_part(trace.requests),
            ended(
                match trace.result {
                    Ok(_) => Ok(SyncMode::Copy),
                    Err(failure) => Err(SyncError::CopyFailed(failure)),
                },
            ),
        ),
    }
}

/// Placing the skill at a target that is free: a link where links are wanted and the
/// platform has them, and else a copy. Where links may be refused, a junction is tried
/// in their place, and then a copy.
pub open spec fn placing(
    mode: SyncMode,
    platform: Platform,
    world: SyncWorld,
    depth: nat,
) -> Option<SyncTrace> {
    if !links(mode, platform) {
        copying(world, depth)
    } else {
        preceded(
            seq![SyncRequest::CreateLink],
            match world.link {
                Ok(_) => ended(Ok(SyncMode::Symlink)),
                Err(failure) => if platform == Platform::Windows {
                    preceded(
                        seq![SyncRequest::CreateJunction],
                        match world.junction {
                            Ok(_) => ended(Ok(SyncMode::Symlink)),
                            Err(_) => copying(world, depth),
                        },
                    )
                } else {
                    ended(Err(SyncError::LinkNotCreated(failure)))
                },
            },
        )
    }
}

/// Replacing what stands at the target. Whether the removal succeeds does not matter.
pub open spec fn replacing(
    mode: SyncMode,
    platform: Platform,
    world: SyncWorld,
    depth: nat,
) -> Option<SyncTrace> {
    preceded(
        removal_part(removal::removal_requests(platform, world.removal)),
        placing(mode, platform, world, depth),
    )
}

/// Making the parent directory, and replacing what stands at the target if source and
/// target still do not overlap.
pub open spec fn preparing(
    source: PathView,
    target: PathView,
    mode: SyncMode,
    platform: Platform,
    world: SyncWorld,
    depth: nat,
) -> Option<SyncTrace> {
    preceded(
        seq![SyncRequest::CreateParent],
        match world.parent {
            Err(failure) => ended(Err(SyncError::ParentNotCreated(failure))),
            Ok(_) => preceded(
                guard_again_part(guard::guard_requests(source, target, world.guard_again)),
                match guard::guard_verdict(source, target, world.guard_again) {
                    Err(refusal) => ended(Err(SyncError::Refused(refusal))),
                    Ok(_) => replacing(mode, platform, world, depth),
                },
            ),
        },
    )
}

/// What a sync amounts to, directories of the source being nested no deeper than
/// `depth`: nothing where the target is current; and else the watcher is told, and where
/// source and target do not overlap, the parent directory is made and the target replaced.
pub open spec fn syncing(
    source: PathView,
    target: PathView,
    mode: SyncMode,
    platform: Platform,
    world: SyncWorld,
    depth: nat,
) -> Option<SyncTrace> {
    preceded(
        check_part(
            current::check_requests(source, target, mode, None, None, world.check),
        ),
        if current::target_current(source, target, mode, None, None, world.check) {
            ended(Ok(mode))
        } else {
            preceded(
                seq![SyncRequest::Mute] + guard_part(
                    guard::guard_requests(source, target, world.guard),
                ),
                match guard::guard_verdict(source, target, world.guard) {
                    Err(refusal) => ended(Err(SyncError::Refused(refusal))),
                    Ok(_) => if target.parent() is None {
                        replacing(mode, platform, world, depth)
                    } else {
                        preparing(source, target, mode, platform, world, depth)
                    },
                },
            )
        },
    )
}

/// The first state of a sync.
pub open spec fn sync_of(
    source: PathView,
    target: PathView,
    mode: SyncMode,
    platform: Platform,
) -> SyncView {
    SyncRun { source, target, mode, platform, phase: SyncPhase::Muting }.with_check(
        current::current_check(source, target, mode, None, None),
    )
}

/// The sync that is in the middle of a check.
spec fn in_check(base: SyncView) -> spec_fn(CurrentCheck<PathView>) -> SyncView {
    |state: CurrentCheck<PathView>| base.with_check(state)
}

proof fn lemma_carries_check(base: SyncView, world: SyncWorld)
    ensures
        protocol::carries(world.check, in_check(base), as_check_request(), world),
{
    assert forall|state: CurrentCheck<PathView>|
        #![trigger in_check(base)(state)]
        match state.pending() {
            Some(request) => {
                let lifted = as_check_request()(request);
                let here = in_check(base)(state);
                &&& here.pending() == Some(lifted)
                &&& here.next(<SyncView as Protocol>::reply(world, lifted)) == in_check(base)(
                    state.next(<CurrentCheck<PathView> as Protocol>::reply(world.check, request)),
                )
            },
            None => true,
        } by {
        state.asks_or_has_ended();
    }
}

/// The sync that is in the middle of the guard.
spec fn in_guard(base: SyncView) -> spec_fn(OverlapGuard<PathView>) -> SyncView {
    |state: OverlapGuard<PathView>| base.with_guard(state)
}

proof fn lemma_carries_guard(base: SyncView, world: SyncWorld)
    ensures
        protocol::carries(world.guard, in_guard(base), as_guard_request(), world),
{
    assert forall|state: OverlapGuard<PathView>|
        #![trigger in_guard(base)(state)]
        match state.pending() {
            Some(request) => {
                let lifted = as_guard_request()(request);
                let here = in_guard(base)(state);
                &&& here.pending() == Some(lifted)
                &&& here.next(<SyncView as Protocol>::reply(world, lifted)) == in_guard(base)(
                    state.next(<OverlapGuard<PathView> as Protocol>::reply(world.guard, request)),
                )
            },
            None => true,
        } by {
        state.asks_or_has_ended();
    }
}

/// The sync that is in the middle of the second guard.
spec fn in_guard_again(base: SyncView) -> spec_fn(OverlapGuard<PathView>) -> SyncView {
    |state: OverlapGuard<PathView>| base.with_guard_again(state)
}

proof fn lemma_carries_guard_again(base: SyncView, world: SyncWorld)
    ensures
        protocol::carries(world.guard_again, in_guard_again(base), as_guard_again_request(), world),
{
    assert forall|state: OverlapGuard<PathView>|
        #![trigger in_guard_again(base)(state)]
        match state.pending() {
            Some(request) => {
                let lifted = as_guard_again_request()(request);
                let here = in_guard_again(base)(state);
                &&& here.pending() == Some(lifted)
                &&& here.next(<SyncView as Protocol>::reply(world, lifted)) == in_guard_again(base)(
                    state.next(<OverlapGuard<PathView> as Protocol>::reply(world.guard_again, request)),
                )
            },
            None => true,
        } by {
        state.asks_or_has_ended();
    }
}

/// The sync that is in the middle of a removal.
spec fn in_removal(base: SyncView) -> spec_fn(RemovalRun) -> SyncView {
    |state: RemovalRun| base.with_removal(state)
}

proof fn lemma_carries_removal(base: SyncView, world: SyncWorld)
    ensures
        protocol::carries(world.removal, in_removal(base), as_removal_request(), world),
{
    assert forall|state: RemovalRun|
        #![trigger in_removal(base)(state)]
        match state.pending() {
            Some(request) => {
                let lifted = as_removal_request()(request);
                let here = in_removal(base)(state);
                &&& here.pending() == Some(lifted)
                &&& here.next(<SyncView as Protocol>::reply(world, lifted)) == in_removal(base)(
                    state.next(<RemovalRun as Protocol>::reply(world.removal, request)),
                )
            },
            None => true,
        } by {
        state.asks_or_has_ended();
    }
}

/// The sync that is in the middle of a copy.
spec fn in_copy(base: SyncView) -> spec_fn(CopyView) -> SyncView {
    |state: CopyView| base.with_copy(state)
}

proof fn lemma_carries_copy(base: SyncView, world: SyncWorld)
    ensures
        protocol::carries(world.copy, in_copy(base), as_copy_request(), world),
{
    assert forall|state: CopyView|
        #![trigger in_copy(base)(state)]
        match state.pending() {
            Some(request) => {
                let lifted = as_copy_request()(request);
                let here = in_copy(base)(state);
                &&& here.pending() == Some(lifted)
                &&& here.next(<SyncView as Protocol>::reply(world, lifted)) == in_copy(base)(
                    state.next(<CopyView as Protocol>::reply(world.copy, request)),
                )
            },
            None => true,
        } by {
        state.asks_or_has_ended();
    }
}

proof fn lemma_ended(run: SyncView, world: SyncWorld, result: Result<SyncMode, SyncError>)
    requires
        run.phase == SyncPhase::<PathView, CopyView>::Ended(result),
    ensures
        protocol::ends(run, world, ended(result)->0.requests, result),
{
    protocol::lemma_ends_now(run, world, result);
    assert(ended(result)->0.requests =~= Seq::<SyncRequest<Seq<Seq<u8>>>>::empty());
}

proof fn lemma_copying_ends(run: SyncView, world: SyncWorld, depth: nat)
    requires
        run.phase == SyncPhase::<PathView, CopyView>::Copying(copy::copy_of_all()),
        copying(world, depth) is Some,
    ensures
        protocol::ends(
            run,
            world,
            copying(world, depth)->0.requests,
            copying(world, depth)->0.result,
        ),
{
    let trace = copy::copy_dir(world.copy, seq![], depth)->0;
    copy::lemma_copy_ends(world.copy, depth);
    lemma_copy_part_ends(run, world, trace.requests, trace.result);
    assert(copy_part(trace.requests) =~= copying(world, depth)->0.requests);
}

/// How a sync ends with a copy.
spec fn copied_to(result: Result<(), Failure>) -> Result<SyncMode, SyncError> {
    match result {
        Ok(_) => Ok(SyncMode::Copy),
        Err(failure) => Err(SyncError::CopyFailed(failure)),
    }
}

proof fn lemma_copy_part_ends(
    run: SyncView,
    world: SyncWorld,
    requests: Seq<CopyRequest<Seq<Seq<u8>>>>,
    result: Result<(), Failure>,
)
    requires
        run.phase == SyncPhase::<PathView, CopyView>::Copying(copy::copy_of_all()),
        protocol::ends(copy::copy_of_all(), world.copy, requests, result),
    ensures
        protocol::ends(run, world, copy_part(requests), copied_to(result)),
{
    let start = copy::copy_of_all();
    let later = ended(copied_to(result))->0;
    lemma_carries_copy(run, world);
    assert forall|state: CopyView| state.outcome() == Some(result) implies protocol::ends(
        #[trigger] in_copy(run)(state),
        world,
        later.requests,
        later.result,
    ) by {
        lemma_ended(run.with_copy(state), world, later.result);
    }
    protocol::lemma_part_then_rest(
        start,
        world.copy,
        requests,
        result,
        in_copy(run),
        as_copy_request(),
        world,
        later.requests,
        later.result,
    );
    assert(run.with_copy(start) == run);
    assert(copy_part(requests) + later.requests =~= copy_part(requests));
}

proof fn lemma_placing_ends(run: SyncView, world: SyncWorld, depth: nat)
    requires
        run.phase == (if links(run.mode, run.platform) {
            SyncPhase::<PathView, CopyView>::Linking
        } else {
            SyncPhase::<PathView, CopyView>::Copying(copy::copy_of_all())
        }),
        placing(run.mode, run.platform, world, depth) is Some,
    ensures
        protocol::ends(
            run,
            world,
            placing(run.mode, run.platform, world, depth)->0.requests,
            placing(run.mode, run.platform, world, depth)->0.result,
        ),
{
    if !links(run.mode, run.platform) {
        lemma_copying_ends(run, world, depth);
    } else {
        let link = SyncRequest::<Seq<Seq<u8>>>::CreateLink;
        let junction = SyncRequest::<Seq<Seq<u8>>>::CreateJunction;
        let linked = run.next(Reply::Outcome(world.link));
        if world.link is Err && run.platform == Platform::Windows {
            let joined = linked.next(Reply::Outcome(world.junction));
            let last = match world.junction {
                Ok(_) => ended(Ok(SyncMode::Symlink))->0,
                Err(_) => copying(world, depth)->0,
            };
            match world.junction {
                Ok(_) => {
                    lemma_ended(joined, world, Ok(SyncMode::Symlink));
                },
                Err(_) => {
                    lemma_copying_ends(joined, world, depth);
                },
            }
            protocol::lemma_ends_step(linked, world, junction, last.requests, last.result);
            let tail = seq![junction] + last.requests;
            protocol::lemma_ends_step(run, world, link, tail, last.result);
        } else {
            let result = match world.link {
                Ok(_) => Ok(SyncMode::Symlink),
                Err(failure) => Err(SyncError::LinkNotCreated(failure)),
            };
            lemma_ended(linked, world, result);
            protocol::lemma_ends_step(run, world, link, ended(result)->0.requests, result);
        }
    }
}

proof fn lemma_replacing_ends(run: SyncView, world: SyncWorld, depth: nat)
    requires
        run.phase == SyncPhase::<PathView, CopyView>::Removing(
            RemovalRun { platform: run.platform, phase: RemovalPhase::Inspecting },
        ),
        replacing(run.mode, run.platform, world, depth) is Some,
    ensures
        protocol::ends(
            run,
            world,
            replacing(run.mode, run.platform, world, depth)->0.requests,
            replacing(run.mode, run.platform, world, depth)->0.result,
        ),
{
    let removal = RemovalRun { platform: run.platform, phase: RemovalPhase::Inspecting };
    let removing = removal::removal_requests(run.platform, world.removal);
    let removed = removal::removal_outcome(run.platform, world.removal);
    let placed = placing(run.mode, run.platform, world, depth)->0;
    removal::lemma_removal_ends(removal, world.removal);
    lemma_carries_removal(run, world);
    assert forall|state: RemovalRun| state.outcome() == Some(removed) implies protocol::ends(
        #[trigger] in_removal(run)(state),
        world,
        placed.requests,
        placed.result,
    ) by {
        lemma_placing_ends(run.with_removal(state), world, depth);
    }
    protocol::lemma_part_then_rest(
        removal,
        world.removal,
        removing,
        removed,
        in_removal(run),
        as_removal_request(),
        world,
        placed.requests,
        placed.result,
    );
    assert(run.with_removal(removal) == run);
}

proof fn lemma_preparing_ends(run: SyncView, world: SyncWorld, depth: nat)
    requires
        run.source.depth() <= usize::MAX,
        run.target.depth() <= usize::MAX,
        run.phase == SyncPhase::<PathView, CopyView>::CreatingParent,
        preparing(run.source, run.target, run.mode, run.platform, world, depth) is Some,
    ensures
        protocol::ends(
            run,
            world,
            preparing(run.source, run.target, run.mode, run.platform, world, depth)->0.requests,
            preparing(run.source, run.target, run.mode, run.platform, world, depth)->0.result,
        ),
{
    let create = SyncRequest::<Seq<Seq<u8>>>::CreateParent;
    let created = run.next(Reply::Outcome(world.parent));
    let later = match world.parent {
        Err(failure) => {
            let result = Err(SyncError::ParentNotCreated(failure));
            lemma_ended(created, world, result);
            ended(result)->0
        },
        Ok(_) => {
            let verdict = guard::guard_verdict(run.source, run.target, world.guard_again);
            let requests = guard::guard_requests(run.source, run.target, world.guard_again);
            let rest = match verdict {
                Err(refusal) => ended(Err(SyncError::Refused(refusal)))->0,
                Ok(_) => replacing(run.mode, run.platform, world, depth)->0,
            };
            guard::lemma_guard_ends(run.source, run.target, world.guard_again);
            lemma_carries_guard_again(run, world);
            assert forall|state: OverlapGuard<PathView>|
                state.outcome() == Some(verdict) implies protocol::ends(
                #[trigger] in_guard_again(run)(state),
                world,
                rest.requests,
                rest.result,
            ) by {
                let passed = run.with_guard_again(state);
                match verdict {
                    Err(_) => {
                        lemma_ended(passed, world, rest.result);
                    },
                    Ok(_) => {
                        lemma_replacing_ends(passed, world, depth);
                    },
                }
            }
            protocol::lemma_part_then_rest(
                guard::guard_of(run.source, run.target),
                world.guard_again,
                requests,
                verdict,
                in_guard_again(run),
                as_guard_again_request(),
                world,
                rest.requests,
                rest.result,
            );
            preceded(guard_again_part(requests), Some(rest))->0
        },
    };
    protocol::lemma_ends_step(run, world, create, later.requests, later.result);
}

/// A sync that is not in need of looking further asks the guard, and goes on.
proof fn lemma_guarding_ends(run: SyncView, world: SyncWorld, rest: SyncTrace, depth: nat)
    requires
        run.source.depth() <= usize::MAX,
        run.target.depth() <= usize::MAX,
        match guard::guard_verdict(run.source, run.target, world.guard) {
            Err(refusal) => rest == ended(Err(SyncError::Refused(refusal)))->0,
            Ok(_) => if run.target.parent() is None {
                replacing(run.mode, run.platform, world, depth) == Some(rest)
            } else {
                preparing(run.source, run.target, run.mode, run.platform, world, depth) == Some(
                    rest,
                )
            },
        },
    ensures
        protocol::ends(
            run.with_guard(guard::guard_of(run.source, run.target)),
            world,
            guard_part(guard::guard_requests(run.source, run.target, world.guard)) + rest.requests,
            rest.result,
        ),
{
    let verdict = guard::guard_verdict(run.source, run.target, world.guard);
    guard::lemma_guard_ends(run.source, run.target, world.guard);
    lemma_carries_guard(run, world);
    assert forall|state: OverlapGuard<PathView>|
        state.outcome() == Some(verdict) implies protocol::ends(
        #[trigger] in_guard(run)(state),
        world,
        rest.requests,
        rest.result,
    ) by {
        let passed = run.with_guard(state);
        match verdict {
            Err(_) => {
                lemma_ended(passed, world, rest.result);
            },
            Ok(_) => {
                if run.target.parent() is None {
                    lemma_replacing_ends(passed, world, depth);
                } else {
                    lemma_preparing_ends(passed, world, depth);
                }
            },
        }
    }
    protocol::lemma_part_then_rest(
        guard::guard_of(run.source, run.target),
        world.guard,
        guard::guard_requests(run.source, run.target, world.guard),
        verdict,
        in_guard(run),
        as_guard_request(),
        world,
        rest.requests,
        rest.result,
    );
}

/// A sync does what `syncing` says.
pub proof fn lemma_sync_ends(
    source: PathView,
    target: PathView,
    mode: SyncMode,
    platform: Platform,
    world: SyncWorld,
    depth: nat,
)
    requires
        source.depth() <= usize::MAX,
        target.depth() <= usize::MAX,
        syncing(source, target, mode, platform, world, depth) is Some,
    ensures
        protocol::ends(
            sync_of(source, target, mode, platform),
            world,
            syncing(source, target, mode, platform, world, depth)->0.requests,
            syncing(source, target, mode, platform, world, depth)->0.result,
        ),
{
    let base = SyncRun { source, target, mode, platform, phase: SyncPhase::Muting };
    let start = current::current_check(source, target, mode, None, None);
    let verdict = current::target_current(source, target, mode, None, None, world.check);
    let requests = current::check_requests(source, target, mode, None, None, world.check);
    let mute = SyncRequest::<Seq<Seq<u8>>>::Mute;
    let asking = guard_part(guard::guard_requests(source, target, world.guard));
    let rest = match guard::guard_verdict(source, target, world.guard) {
        Err(refusal) => ended(Err(SyncError::Refused(refusal)))->0,
        Ok(_) => if target.parent() is None {
            replacing(mode, platform, world, depth)->0
        } else {
            preparing(source, target, mode, platform, world, depth)->0
        },
    };
    let later = if verdict {
        ended(Ok(mode))->0
    } else {
        preceded(seq![mute] + asking, Some(rest))->0
    };
    current::lemma_current_check_ends(source, target, mode, None, None, world.check);
    lemma_carries_check(base, world);
    assert forall|state: CurrentCheck<PathView>|
        state.outcome() == Some(verdict) implies protocol::ends(
        #[trigger] in_check(base)(state),
        world,
        later.requests,
        later.result,
    ) by {
        let checked = base.with_check(state);
        if verdict {
            lemma_ended(checked, world, Ok(mode));
        } else {
            lemma_guarding_ends(checked, world, rest, depth);
            let guarded = asking + rest.requests;
            protocol::lemma_ends_step(checked, world, mute, guarded, rest.result);
            assert(seq![mute] + guarded =~= later.requests);
        }
    }
    protocol::lemma_part_then_rest(
        start,
        world.check,
        requests,
        verdict,
        in_check(base),
        as_check_request(),
        world,
        later.requests,
        later.result,
    );
}

/// Starts bringing the target into step with the source.
///
/// A target that is current already is left alone. Otherwise whatever stands there is
/// replaced by a link to the source or a copy of it. Nothing is written before it is
/// certain that neither of the two lies in the other, and that is checked once more when
/// the target's parent directory is there. The outcome says which of the two it became.
pub fn sync_skill(
    source: SkillPath,
    target: SkillPath,
    mode: SyncMode,
    platform: Platform,
) -> (run: SyncRun<SkillPath, CopyRun>)
    ensures
        run@ == sync_of(source@, target@, mode, platform),
        run@.valid(),
        forall|world: SyncWorld, depth: nat|
            (#[trigger] syncing(source@, target@, mode, platform, world, depth)) matches Some(
                trace,
            ) ==> protocol::ends(run@, world, trace.requests, trace.result),
{
    let check = is_target_current(source.duplicate(), target.duplicate(), mode, None, None);
    let ghost base: SyncView = SyncRun {
        source: source@,
        target: target@,
        mode,
        platform,
        phase: SyncPhase::Muting,
    };
    proof {
        let _ = base.with_check(check@);
    }
    let phase = phase_with_check(mode, check);
    let run = SyncRun { source, target, mode, platform, phase };
    assert(run@ == base.with_check(check@));
    proof {
        path::lemma_depth_is_bounded(source@);
        path::lemma_depth_is_bounded(target@);
        assert(source@.parts.len() == source.parts.len());
        assert(target@.parts.len() == target.parts.len());
        assert forall|world: SyncWorld, depth: nat|
            (#[trigger] syncing(source@, target@, mode, platform, world, depth)) matches Some(
                trace,
            ) implies protocol::ends(
            run@,
            world,
            syncing(source@, target@, mode, platform, world, depth)->0.requests,
            syncing(source@, target@, mode, platform, world, depth)->0.result,
        ) by {
            lemma_sync_ends(source@, target@, mode, platform, world, depth);
        }
    }
    run
}

/// The requests of a sync at a target that is free, and how it ends, by how the copy goes.
spec fn placed_by(
    mode: SyncMode,
    platform: Platform,
    world: SyncWorld,
    copying: SyncTrace,
) -> SyncTrace {
    let link = SyncRequest::<Seq<Seq<u8>>>::CreateLink;
    let junction = SyncRequest::<Seq<Seq<u8>>>::CreateJunction;
    if !links(mode, platform) {
        copying
    } else {
        match world.link {
            Ok(_) => SyncTrace { requests: seq![link], result: Ok(SyncMode::Symlink) },
            Err(failure) => if platform != Platform::Windows {
                SyncTrace { requests: seq![link], result: Err(SyncError::LinkNotCreated(failure)) }
            } else {
                match world.junction {
                    Ok(_) => SyncTrace {
                        requests: seq![link, junction],
                        result: Ok(SyncMode::Symlink),
                    },
                    Err(_) => SyncTrace {
                        requests: seq![link, junction] + copying.requests,
                        result: copying.result,
                    },
                }
            },
        }
    }
}

proof fn lemma_placing_by_copy(
    run: SyncView,
    world: SyncWorld,
    requests: Seq<CopyRequest<Seq<Seq<u8>>>>,
    result: Result<(), Failure>,
)
    requires
        run.phase == (if links(run.mode, run.platform) {
            SyncPhase::<PathView, CopyView>::Linking
        } else {
            SyncPhase::<PathView, CopyView>::Copying(copy::copy_of_all())
        }),
        !links(run.mode, run.platform) || (run.platform == Platform::Windows && world.link is Err
            && world.junction is Err) ==> protocol::ends(
            copy::copy_of_all(),
            world.copy,
            requests,
            result,
        ),
    ensures
        ({
            let copying = SyncTrace { requests: copy_part(requests), result: copied_to(result) };
            let placed = placed_by(run.mode, run.platform, world, copying);
            protocol::ends(run, world, placed.requests, placed.result)
        }),
{
    let copying = SyncTrace { requests: copy_part(requests), result: copied_to(result) };
    let placed = placed_by(run.mode, run.platform, world, copying);
    let link = SyncRequest::<Seq<Seq<u8>>>::CreateLink;
    let junction = SyncRequest::<Seq<Seq<u8>>>::CreateJunction;
    let none = Seq::<SyncRequest<Seq<Seq<u8>>>>::empty();
    if !links(run.mode, run.platform) {
        lemma_copy_part_ends(run, world, requests, result);
    } else {
        let linked = run.next(Reply::Outcome(world.link));
        if world.link is Err && run.platform == Platform::Windows {
            let joined = linked.next(Reply::Outcome(world.junction));
            let last = match world.junction {
                Ok(_) => {
                    protocol::lemma_ends_now(joined, world, placed.result);
                    none
                },
                Err(_) => {
                    lemma_copy_part_ends(joined, world, requests, result);
                    copying.requests
                },
            };
            protocol::lemma_ends_step(linked, world, junction, last, placed.result);
            protocol::lemma_ends_step(run, world, link, seq![junction] + last, placed.result);
            assert(seq![link] + (seq![junction] + last) =~= placed.requests);
        } else {
            protocol::lemma_ends_now(linked, world, placed.result);
            protocol::lemma_ends_step(run, world, link, none, placed.result);
            assert(seq![link] + none =~= placed.requests);
        }
    }
}

proof fn lemma_replacing_by_copy(
    run: SyncView,
    world: SyncWorld,
    removing: Seq<RemovalRequest>,
    removed: Result<(), Failure>,
    requests: Seq<CopyRequest<Seq<Seq<u8>>>>,
    result: Result<(), Failure>,
)
    requires
        run.phase == SyncPhase::<PathView, CopyView>::Removing(
            RemovalRun { platform: run.platform, phase: RemovalPhase::Inspecting },
        ),
        protocol::ends(
            RemovalRun { platform: run.platform, phase: RemovalPhase::Inspecting },
            world.removal,
            removing,
            removed,
        ),
        !links(run.mode, run.platform) || (run.platform == Platform::Windows && world.link is Err
            && world.junction is Err) ==> protocol::ends(
            copy::copy_of_all(),
            world.copy,
            requests,
            result,
        ),
    ensures
        ({
            let copying = SyncTrace { requests: copy_part(requests), result: copied_to(result) };
            let placed = placed_by(run.mode, run.platform, world, copying);
            protocol::ends(
                run,
                world,
                removal_part(removing) + placed.requests,
                placed.result,
            )
        }),
{
    let copying = SyncTrace { requests: copy_part(requests), result: copied_to(result) };
    let placed = placed_by(run.mode, run.platform, world, copying);
    let removal = RemovalRun { platform: run.platform, phase: RemovalPhase::Inspecting };
    lemma_carries_removal(run, world);
    assert forall|state: RemovalRun| state.outcome() == Some(removed) implies protocol::ends(
        #[trigger] in_removal(run)(state),
        world,
        placed.requests,
        placed.result,
    ) by {
        lemma_placing_by_copy(run.with_removal(state), world, requests, result);
    }
    protocol::lemma_part_then_rest(
        removal,
        world.removal,
        removing,
        removed,
        in_removal(run),
        as_removal_request(),
        world,
        placed.requests,
        placed.result,
    );
    assert(run.with_removal(removal) == run);
}

/// A sync is made of its parts. It asks what the check asks, and a target that is current is
/// left at that. Otherwise the watcher is told, and the guard asked. If the guard lets the
/// two pass, the target's parent directory is made, where it has one, and the guard asked
/// once more. Then whatever stands at the target is removed, however that goes. A link is
/// made where links are wanted and to be had; on Windows a junction stands in for a link that
/// is refused, and a copy for that; and where there are no links, or none are wanted, a copy
/// is made. The sync ends with what fails, or with how the target was placed.
pub proof fn law_sync_is_made_of_its_parts(
    source: PathView,
    target: PathView,
    mode: SyncMode,
    platform: Platform,
    world: SyncWorld,
    checking: Seq<CheckRequest>,
    is_current: bool,
    guarding: Seq<GuardRequest>,
    verdict: Result<(), Refusal>,
    guarding_again: Seq<GuardRequest>,
    verdict_again: Result<(), Refusal>,
    removing: Seq<RemovalRequest>,
    removed: Result<(), Failure>,
    copying: Seq<CopyRequest<Seq<Seq<u8>>>>,
    copied: Result<(), Failure>,
)
    requires
        protocol::ends(
            current::current_check(source, target, mode, None, None),
            world.check,
            checking,
            is_current,
        ),
        protocol::ends(guard::guard_of(source, target), world.guard, guarding, verdict),
        protocol::ends(
            guard::guard_of(source, target),
            world.guard_again,
            guarding_again,
            verdict_again,
        ),
        protocol::ends(
            RemovalRun { platform, phase: RemovalPhase::Inspecting },
            world.removal,
            removing,
            removed,
        ),
        !is_current && verdict is Ok && (mode == SyncMode::Copy || platform == Platform::Other || (
        platform == Platform::Windows && world.link is Err && world.junction is Err))
            ==> protocol::ends(copy::copy_of_all(), world.copy, copying, copied),
    ensures
        ({
            let checks = checking.map_values(
                |request: CheckRequest| SyncRequest::<Seq<Seq<u8>>>::Check(request),
            );
            let guards = guarding.map_values(
                |request: GuardRequest| SyncRequest::<Seq<Seq<u8>>>::Guard(request),
            );
            let guards_again = guarding_again.map_values(
                |request: GuardRequest| SyncRequest::<Seq<Seq<u8>>>::GuardAgain(request),
            );
            let removes = removing.map_values(
                |request: RemovalRequest| SyncRequest::<Seq<Seq<u8>>>::Remove(request),
            );
            let copies = copying.map_values(
                |request: CopyRequest<Seq<Seq<u8>>>| SyncRequest::Copy(request),
            );
            let mute = seq![SyncRequest::<Seq<Seq<u8>>>::Mute];
            let parent = seq![SyncRequest::<Seq<Seq<u8>>>::CreateParent];
            let link = seq![SyncRequest::<Seq<Seq<u8>>>::CreateLink];
            let junction = seq![SyncRequest::<Seq<Seq<u8>>>::CreateJunction];
            let copy_result: Result<SyncMode, SyncError> = match copied {
                Ok(_) => Ok(SyncMode::Copy),
                Err(failure) => Err(SyncError::CopyFailed(failure)),
            };
            let (places, placed): (
                Seq<SyncRequest<Seq<Seq<u8>>>>,
                Result<SyncMode, SyncError>,
            ) = match (mode, platform, world.link, world.junction) {
                (SyncMode::Copy, _, _, _) => (copies, copy_result),
                (SyncMode::Symlink, Platform::Other, _, _) => (copies, copy_result),
                (SyncMode::Symlink, _, Ok(_), _) => (link, Ok(SyncMode::Symlink)),
                (SyncMode::Symlink, Platform::Unix, Err(failure), _) => (
                    link,
                    Err(SyncError::LinkNotCreated(failure)),
                ),
                (SyncMode::Symlink, Platform::Windows, Err(_), Ok(_)) => (
                    link + junction,
                    Ok(SyncMode::Symlink),
                ),
                (SyncMode::Symlink, Platform::Windows, Err(_), Err(_)) => (
                    link + junction + copies,
                    copy_result,
                ),
            };
            let start = sync_of(source, target, mode, platform);
            let has_parent = target.parts.len() > 0 && !(target.parts.last() is RootDir) && !(
            target.parts.last() is Prefix) && !(target.parts.last() is Verbatim);
            if is_current {
                protocol::ends(start, world, checks, Ok(mode))
            } else if verdict is Err {
                protocol::ends(
                    start,
                    world,
                    checks + mute + guards,
                    Err(SyncError::Refused(verdict->Err_0)),
                )
            } else if !has_parent {
                protocol::ends(start, world, checks + mute + guards + removes + places, placed)
            } else if world.parent is Err {
                protocol::ends(
                    start,
                    world,
                    checks + mute + guards + parent,
                    Err(SyncError::ParentNotCreated(world.parent->Err_0)),
                )
            } else if verdict_again is Err {
                protocol::ends(
                    start,
                    world,
                    checks + mute + guards + parent + guards_again,
                    Err(SyncError::Refused(verdict_again->Err_0)),
                )
            } else {
                protocol::ends(
                    start,
                    world,
                    checks + mute + guards + parent + guards_again + removes + places,
                    placed,
                )
            }
        }),
{
    let mute = SyncRequest::<Seq<Seq<u8>>>::Mute;
    let create = SyncRequest::<Seq<Seq<u8>>>::CreateParent;
    let copy_trace = SyncTrace { requests: copy_part(copying), result: copied_to(copied) };
    let placed = placed_by(mode, platform, world, copy_trace);
    lemma_check_then_guard(
        source,
        target,
        mode,
        platform,
        world,
        checking,
        is_current,
        guarding,
        verdict,
        guarding_again,
        verdict_again,
        removing,
        removed,
        copying,
        copied,
    );
    lemma_parts_one_by_one(checking, guarding, guarding_again, removing, copying);
    lemma_placed_one_by_one(mode, platform, world, copy_trace);
    lemma_in_one_row(
        check_part(checking),
        seq![mute],
        guard_part(guarding),
        seq![create],
        guard_again_part(guarding_again),
        removal_part(removing),
        placed.requests,
    );
}

/// The requests of the parts are taken over one by one.
proof fn lemma_parts_one_by_one(
    checking: Seq<CheckRequest>,
    guarding: Seq<GuardRequest>,
    guarding_again: Seq<GuardRequest>,
    removing: Seq<RemovalRequest>,
    copying: Seq<CopyRequest<Seq<Seq<u8>>>>,
)
    ensures
        check_part(checking) == checking.map_values(
            |request: CheckRequest| SyncRequest::<Seq<Seq<u8>>>::Check(request),
        ),
        guard_part(guarding) == guarding.map_values(
            |request: GuardRequest| SyncRequest::<Seq<Seq<u8>>>::Guard(request),
        ),
        guard_again_part(guarding_again) == guarding_again.map_values(
            |request: GuardRequest| SyncRequest::<Seq<Seq<u8>>>::GuardAgain(request),
        ),
        removal_part(removing) == removing.map_values(
            |request: RemovalRequest| SyncRequest::<Seq<Seq<u8>>>::Remove(request),
        ),
        copy_part(copying) == copying.map_values(
            |request: CopyRequest<Seq<Seq<u8>>>| SyncRequest::Copy(request),
        ),
{
}

/// Placing the target, case by case.
proof fn lemma_placed_one_by_one(
    mode: SyncMode,
    platform: Platform,
    world: SyncWorld,
    copying: SyncTrace,
)
    ensures
        ({
            let link = seq![SyncRequest::<Seq<Seq<u8>>>::CreateLink];
            let junction = seq![SyncRequest::<Seq<Seq<u8>>>::CreateJunction];
            let placed = placed_by(mode, platform, world, copying);
            let (requests, result): (
                Seq<SyncRequest<Seq<Seq<u8>>>>,
                Result<SyncMode, SyncError>,
            ) = match (mode, platform, world.link, world.junction) {
                (SyncMode::Copy, _, _, _) => (copying.requests, copying.result),
                (SyncMode::Symlink, Platform::Other, _, _) => (copying.requests, copying.result),
                (SyncMode::Symlink, _, Ok(_), _) => (link, Ok(SyncMode::Symlink)),
                (SyncMode::Symlink, Platform::Unix, Err(failure), _) => (
                    link,
                    Err(SyncError::LinkNotCreated(failure)),
                ),
                (SyncMode::Symlink, Platform::Windows, Err(_), Ok(_)) => (
                    link + junction,
                    Ok(SyncMode::Symlink),
                ),
                (SyncMode::Symlink, Platform::Windows, Err(_), Err(_)) => (
                    link + junction + copying.requests,
                    copying.result,
                ),
            };
            placed.requests == requests && placed.result == result
        }),
{
    let link = SyncRequest::<Seq<Seq<u8>>>::CreateLink;
    let junction = SyncRequest::<Seq<Seq<u8>>>::CreateJunction;
    assert(seq![link] + seq![junction] =~= seq![link, junction]);
}

/// Requests in a row are the same however they are grouped.
proof fn lemma_in_one_row<A>(
    a: Seq<A>,
    b: Seq<A>,
    c: Seq<A>,
    d: Seq<A>,
    e: Seq<A>,
    f: Seq<A>,
    g: Seq<A>,
)
    ensures
        a + (b + (c + seq![])) == a + b + c,
        a + (b + (c + d)) == a + b + c + d,
        a + (b + (c + (f + g))) == a + b + c + f + g,
        a + (b + (c + (d + e))) == a + b + c + d + e,
        a + (b + (c + (d + (e + (f + g))))) == a + b + c + d + e + f + g,
{
    assert(a + (b + (c + seq![])) =~= a + b + c);
    assert(a + (b + (c + d)) =~= a + b + c + d);
    assert(a + (b + (c + (f + g))) =~= a + b + c + f + g);
    assert(a + (b + (c + (d + e))) =~= a + b + c + d + e);
    assert(a + (b + (c + (d + (e + (f + g))))) =~= a + b + c + d + e + f + g);
}

/// What comes after the guard, by what replacing the target comes to.
spec fn passing_by(
    target: PathView,
    world: SyncWorld,
    verdict: Result<(), Refusal>,
    guarding_again: Seq<GuardRequest>,
    verdict_again: Result<(), Refusal>,
    replacing: SyncTrace,
) -> SyncTrace {
    let create = SyncRequest::<Seq<Seq<u8>>>::CreateParent;
    match verdict {
        Err(refusal) => SyncTrace { requests: seq![], result: Err(SyncError::Refused(refusal)) },
        Ok(_) => if target.parent() is None {
            replacing
        } else {
            match world.parent {
                Err(failure) => SyncTrace {
                    requests: seq![create],
                    result: Err(SyncError::ParentNotCreated(failure)),
                },
                Ok(_) => {
                    let again = again_by(guarding_again, verdict_again, replacing);
                    SyncTrace { requests: seq![create] + again.requests, result: again.result }
                },
            }
        },
    }
}

/// What the second guard and what follows it come to, by what replacing the target comes to.
spec fn again_by(
    guarding_again: Seq<GuardRequest>,
    verdict_again: Result<(), Refusal>,
    replacing: SyncTrace,
) -> SyncTrace {
    match verdict_again {
        Err(refusal) => SyncTrace {
            requests: guard_again_part(guarding_again),
            result: Err(SyncError::Refused(refusal)),
        },
        Ok(_) => SyncTrace {
            requests: guard_again_part(guarding_again) + replacing.requests,
            result: replacing.result,
        },
    }
}

proof fn lemma_check_then_guard(
    source: PathView,
    target: PathView,
    mode: SyncMode,
    platform: Platform,
    world: SyncWorld,
    checking: Seq<CheckRequest>,
    is_current: bool,
    guarding: Seq<GuardRequest>,
    verdict: Result<(), Refusal>,
    guarding_again: Seq<GuardRequest>,
    verdict_again: Result<(), Refusal>,
    removing: Seq<RemovalRequest>,
    removed: Result<(), Failure>,
    copying: Seq<CopyRequest<Seq<Seq<u8>>>>,
    copied: Result<(), Failure>,
)
    requires
        protocol::ends(
            current::current_check(source, target, mode, None, None),
            world.check,
            checking,
            is_current,
        ),
        protocol::ends(guard::guard_of(source, target), world.guard, guarding, verdict),
        protocol::ends(
            guard::guard_of(source, target),
            world.guard_again,
            guarding_again,
            verdict_again,
        ),
        protocol::ends(
            RemovalRun { platform, phase: RemovalPhase::Inspecting },
            world.removal,
            removing,
            removed,
        ),
        !is_current && verdict is Ok && (!links(mode, platform) || (platform == Platform::Windows
            && world.link is Err && world.junction is Err)) ==> protocol::ends(
            copy::copy_of_all(),
            world.copy,
            copying,
            copied,
        ),
    ensures
        is_current ==> protocol::ends(
            sync_of(source, target, mode, platform),
            world,
            check_part(checking),
            Ok(mode),
        ),
        !is_current ==> ({
            let copies = SyncTrace { requests: copy_part(copying), result: copied_to(copied) };
            let placed = placed_by(mode, platform, world, copies);
            let replacing = SyncTrace {
                requests: removal_part(removing) + placed.requests,
                result: placed.result,
            };
            let passing = passing_by(
                target,
                world,
                verdict,
                guarding_again,
                verdict_again,
                replacing,
            );
            protocol::ends(
                sync_of(source, target, mode, platform),
                world,
                check_part(checking) + (seq![SyncRequest::Mute] + (guard_part(guarding)
                    + passing.requests)),
                passing.result,
            )
        }),
{
    let mute = SyncRequest::<Seq<Seq<u8>>>::Mute;
    let none = Seq::<SyncRequest<Seq<Seq<u8>>>>::empty();
    let copies = SyncTrace { requests: copy_part(copying), result: copied_to(copied) };
    let placed = placed_by(mode, platform, world, copies);
    let replacing = SyncTrace {
        requests: removal_part(removing) + placed.requests,
        result: placed.result,
    };
    let passing = passing_by(target, world, verdict, guarding_again, verdict_again, replacing);
    let later = if is_current {
        SyncTrace { requests: none, result: Ok(mode) }
    } else {
        SyncTrace {
            requests: seq![mute] + (guard_part(guarding) + passing.requests),
            result: passing.result,
        }
    };
    let base = SyncRun { source, target, mode, platform, phase: SyncPhase::Muting };
    lemma_carries_check(base, world);
    assert forall|state: CurrentCheck<PathView>|
        state.outcome() == Some(is_current) implies protocol::ends(
        #[trigger] in_check(base)(state),
        world,
        later.requests,
        later.result,
    ) by {
        let checked = base.with_check(state);
        if is_current {
            protocol::lemma_ends_now(checked, world, later.result);
        } else {
            lemma_guard_then_rest(
                checked,
                world,
                guarding,
                verdict,
                guarding_again,
                verdict_again,
                removing,
                removed,
                copying,
                copied,
                passing,
            );
            protocol::lemma_ends_step(
                checked,
                world,
                mute,
                guard_part(guarding) + passing.requests,
                passing.result,
            );
        }
    }
    protocol::lemma_part_then_rest(
        current::current_check(source, target, mode, None, None),
        world.check,
        checking,
        is_current,
        in_check(base),
        as_check_request(),
        world,
        later.requests,
        later.result,
    );
    if is_current {
        assert(check_part(checking) + none =~= check_part(checking));
    }
}

proof fn lemma_guard_then_rest(
    run: SyncView,
    world: SyncWorld,
    guarding: Seq<GuardRequest>,
    verdict: Result<(), Refusal>,
    guarding_again: Seq<GuardRequest>,
    verdict_again: Result<(), Refusal>,
    removing: Seq<RemovalRequest>,
    removed: Result<(), Failure>,
    copying: Seq<CopyRequest<Seq<Seq<u8>>>>,
    copied: Result<(), Failure>,
    passing: SyncTrace,
)
    requires
        protocol::ends(guard::guard_of(run.source, run.target), world.guard, guarding, verdict),
        protocol::ends(
            guard::guard_of(run.source, run.target),
            world.guard_again,
            guarding_again,
            verdict_again,
        ),
        protocol::ends(
            RemovalRun { platform: run.platform, phase: RemovalPhase::Inspecting },
            world.removal,
            removing,
            removed,
        ),
        verdict is Ok && (!links(run.mode, run.platform) || (run.platform == Platform::Windows
            && world.link is Err && world.junction is Err)) ==> protocol::ends(
            copy::copy_of_all(),
            world.copy,
            copying,
            copied,
        ),
        ({
            let copies = SyncTrace { requests: copy_part(copying), result: copied_to(copied) };
            let placed = placed_by(run.mode, run.platform, world, copies);
            let replacing = SyncTrace {
                requests: removal_part(removing) + placed.requests,
                result: placed.result,
            };
            passing == passing_by(
                run.target,
                world,
                verdict,
                guarding_again,
                verdict_again,
                replacing,
            )
        }),
    ensures
        protocol::ends(
            run.with_guard(guard::guard_of(run.source, run.target)),
            world,
            guard_part(guarding) + passing.requests,
            passing.result,
        ),
{
    let create = SyncRequest::<Seq<Seq<u8>>>::CreateParent;
    let none = Seq::<SyncRequest<Seq<Seq<u8>>>>::empty();
    let copies = SyncTrace { requests: copy_part(copying), result: copied_to(copied) };
    let placed = placed_by(run.mode, run.platform, world, copies);
    let replacing = SyncTrace {
        requests: removal_part(removing) + placed.requests,
        result: placed.result,
    };
    let again = again_by(guarding_again, verdict_again, replacing);
    lemma_carries_guard(run, world);
    assert forall|state: OverlapGuard<PathView>|
        state.outcome() == Some(verdict) implies protocol::ends(
        #[trigger] in_guard(run)(state),
        world,
        passing.requests,
        passing.result,
    ) by {
        let passed = run.with_guard(state);
        if verdict is Err {
            protocol::lemma_ends_now(passed, world, passing.result);
        } else if run.target.parent() is None {
            lemma_replacing_by_copy(passed, world, removing, removed, copying, copied);
        } else {
            let created = passed.next(Reply::Outcome(world.parent));
            if world.parent is Err {
                protocol::lemma_ends_now(created, world, passing.result);
                protocol::lemma_ends_step(passed, world, create, none, passing.result);
                assert(seq![create] + none =~= passing.requests);
            } else {
                lemma_guarding_again(
                    passed,
                    world,
                    guarding_again,
                    verdict_again,
                    removing,
                    removed,
                    copying,
                    copied,
                    again,
                );
                protocol::lemma_ends_step(passed, world, create, again.requests, again.result);
            }
        }
    }
    protocol::lemma_part_then_rest(
        guard::guard_of(run.source, run.target),
        world.guard,
        guarding,
        verdict,
        in_guard(run),
        as_guard_request(),
        world,
        passing.requests,
        passing.result,
    );
}

proof fn lemma_guarding_again(
    run: SyncView,
    world: SyncWorld,
    guarding_again: Seq<GuardRequest>,
    verdict_again: Result<(), Refusal>,
    removing: Seq<RemovalRequest>,
    removed: Result<(), Failure>,
    copying: Seq<CopyRequest<Seq<Seq<u8>>>>,
    copied: Result<(), Failure>,
    again: SyncTrace,
)
    requires
        protocol::ends(
            guard::guard_of(run.source, run.target),
            world.guard_again,
            guarding_again,
            verdict_again,
        ),
        protocol::ends(
            RemovalRun { platform: run.platform, phase: RemovalPhase::Inspecting },
            world.removal,
            removing,
            removed,
        ),
        !links(run.mode, run.platform) || (run.platform == Platform::Windows && world.link is Err
            && world.junction is Err) ==> protocol::ends(
            copy::copy_of_all(),
            world.copy,
            copying,
            copied,
        ),
        ({
            let copies = SyncTrace { requests: copy_part(copying), result: copied_to(copied) };
            let placed = placed_by(run.mode, run.platform, world, copies);
            let replacing = SyncTrace {
                requests: removal_part(removing) + placed.requests,
                result: placed.result,
            };
            again == again_by(guarding_again, verdict_again, replacing)
        }),
    ensures
        protocol::ends(
            run.with_guard_again(guard::guard_of(run.source, run.target)),
            world,
            again.requests,
            again.result,
        ),
{
    let copies = SyncTrace { requests: copy_part(copying), result: copied_to(copied) };
    let placed = placed_by(run.mode, run.platform, world, copies);
    let rest = match verdict_again {
        Err(_) => Seq::<SyncRequest<Seq<Seq<u8>>>>::empty(),
        Ok(_) => removal_part(removing) + placed.requests,
    };
    lemma_carries_guard_again(run, world);
    assert forall|state: OverlapGuard<PathView>|
        state.outcome() == Some(verdict_again) implies protocol::ends(
        #[trigger] in_guard_again(run)(state),
        world,
        rest,
        again.result,
    ) by {
        let passed = run.with_guard_again(state);
        match verdict_again {
            Err(_) => {
                protocol::lemma_ends_now(passed, world, again.result);
            },
            Ok(_) => {
                lemma_replacing_by_copy(passed, world, removing, removed, copying, copied);
            },
        }
    }
    protocol::lemma_part_then_rest(
        guard::guard_of(run.source, run.target),
        world.guard_again,
        guarding_again,
        verdict_again,
        in_guard_again(run),
        as_guard_again_request(),
        world,
        rest,
        again.result,
    );
    assert(guard_again_part(guarding_again) + rest =~= again.requests);
}

/// A sync is told what the file system has to tell, each part what there is to tell to it.
pub proof fn law_sync_is_told_the_truth(
    world: SyncWorld,
    check: CheckRequest,
    guard: GuardRequest,
    removal: RemovalRequest,
    copy: CopyRequest<Seq<Seq<u8>>>,
)
    ensures
        SyncView::reply(world, SyncRequest::Check(check)) == CurrentCheck::<PathView>::reply(
            world.check,
            check,
        ),
        SyncView::reply(world, SyncRequest::Mute) == Reply::<
            PathView,
            Seq<Listed<Seq<u8>>>,
        >::Muted,
        SyncView::reply(world, SyncRequest::Guard(guard)) == OverlapGuard::<PathView>::reply(
            world.guard,
            guard,
        ),
        SyncView::reply(world, SyncRequest::CreateParent) == Reply::<
            PathView,
            Seq<Listed<Seq<u8>>>,
        >::Outcome(world.parent),
        SyncView::reply(world, SyncRequest::GuardAgain(guard)) == OverlapGuard::<PathView>::reply(
            world.guard_again,
            guard,
        ),
        SyncView::reply(world, SyncRequest::Remove(removal)) == RemovalRun::reply(
            world.removal,
            removal,
        ),
        SyncView::reply(world, SyncRequest::CreateLink) == Reply::<
            PathView,
            Seq<Listed<Seq<u8>>>,
        >::Outcome(world.link),
        SyncView::reply(world, SyncRequest::CreateJunction) == Reply::<
            PathView,
            Seq<Listed<Seq<u8>>>,
        >::Outcome(world.junction),
        SyncView::reply(world, SyncRequest::Copy(copy)) == CopyView::reply(world.copy, copy),
{
}

/// A reply of a kind that was not asked for leaves a sync where it is.
pub proof fn law_stray_replies_do_not_move_a_sync(run: SyncView, reply: ReplyView)
    requires
        run.valid(),
        match run.pending() {
            Some(SyncRequest::Check(CheckRequest::Inspect)) => !(reply is Kind),
            Some(SyncRequest::Check(_)) => !(reply is Path),
            Some(SyncRequest::Mute) => !(reply is Muted),
            Some(SyncRequest::Guard(_)) => !(reply is Path),
            Some(SyncRequest::GuardAgain(_)) => !(reply is Path),
            Some(SyncRequest::Remove(RemovalRequest::Inspect)) => !(reply is Kind),
            Some(SyncRequest::Remove(RemovalRequest::Mute)) => !(reply is Muted),
            Some(SyncRequest::Copy(CopyRequest::List(_))) => !(reply is Listing),
            Some(_) => !(reply is Outcome),
            None => true,
        },
    ensures
        run.next(reply) == run,
{
}

/// Contracts see the requests of a sync as they are.
pub proof fn law_sync_requests_are_seen_as_they_are(request: SyncRequest<Vec<Vec<u8>>>)
    ensures
        match request {
            SyncRequest::Check(check) => request@ == SyncRequest::<Seq<Seq<u8>>>::Check(check),
            SyncRequest::Mute => request@ == SyncRequest::<Seq<Seq<u8>>>::Mute,
            SyncRequest::Guard(guard) => request@ == SyncRequest::<Seq<Seq<u8>>>::Guard(guard),
            SyncRequest::CreateParent => request@ == SyncRequest::<Seq<Seq<u8>>>::CreateParent,
            SyncRequest::GuardAgain(guard) => request@ == SyncRequest::<Seq<Seq<u8>>>::GuardAgain(
                guard,
            ),
            SyncRequest::Remove(removal) => request@ == SyncRequest::<Seq<Seq<u8>>>::Remove(
                removal,
            ),
            SyncRequest::CreateLink => request@ == SyncRequest::<Seq<Seq<u8>>>::CreateLink,
            SyncRequest::CreateJunction => request@ == SyncRequest::<Seq<Seq<u8>>>::CreateJunction,
            SyncRequest::Copy(copy) => request@ == SyncRequest::Copy(copy@),
        },
{
}

} // verus!
