//! Refusing to sync between places that overlap.

#[allow(unused_imports)]
use crate::path;
use crate::path::{PathPart, PathView, SkillPath};
#[allow(unused_imports)]
use crate::protocol;
use crate::protocol::{Failure, FsReply, Listed, Protocol, Reply, ReplyView};
use vstd::prelude::*;

verus! {

/// What the guard asks of the file system. It only ever looks.
#[derive(Debug, Clone, Copy, PartialEq, Eq, Structural)]
pub enum GuardRequest {
    /// Resolve the source to a canonical path.
    ResolveSource,
    /// Resolve the directory that is `up` steps above the source to a canonical path: the
    /// source's parent, where `up` is one, then the parent of that. The empty path stands
    /// for the current directory.
    ResolveSourceAncestor { up: usize },
    /// Resolve the target to a canonical path.
    ResolveTarget,
    /// Resolve the directory that is `up` steps above the target in the same way.
    ResolveTargetAncestor { up: usize },
}

/// Why the guard refuses.
#[derive(Debug, Clone, Copy, PartialEq, Eq, Structural)]
pub enum Refusal {
    /// The source does not exist or cannot be reached.
    SourceNotAccessible(Failure),
    /// The target is the source or lies in it: a copy would walk into itself.
    TargetInsideSource,
    /// The source lies in the target: removing the target would delete it.
    SourceInsideTarget,
}

/// Where a path is, as far as it can be told. `P` is how paths are held.
#[derive(Debug, PartialEq, Eq)]
pub struct Whereabouts<P> {
    /// The place at which it stands or will stand. A link there is not followed: it is the
    /// link that is replaced or lost.
    pub place: Option<P>,
    /// The place to which it leads, links being followed.
    pub resolved: Option<P>,
}

/// How far the guard has come. `P` is how paths are held.
#[derive(Debug, PartialEq, Eq)]
pub enum GuardPhase<P> {
    ResolvingSource,
    /// Looking for a directory above the source that resolves.
    ClimbingFromSource { resolved: P, up: usize },
    ResolvingTarget { source: Whereabouts<P> },
    /// Looking for a directory above the target that resolves; `target` is what the target
    /// itself resolves to, if it does.
    ClimbingFromTarget { source: Whereabouts<P>, target: Option<P>, up: usize },
    Ended(Result<(), Refusal>),
}

/// The guard at work.
#[derive(Debug, PartialEq, Eq)]
pub struct OverlapGuard<P> {
    pub source: P,
    pub target: P,
    pub phase: GuardPhase<P>,
}

/// A path that may be missing, as contracts speak of it.
pub open spec fn place_view(place: Option<SkillPath>) -> Option<PathView> {
    match place {
        Some(place) => Some(place@),
        None => None,
    }
}

impl View for Whereabouts<SkillPath> {
    type V = Whereabouts<PathView>;

    open spec fn view(&self) -> Whereabouts<PathView> {
        Whereabouts { place: place_view(self.place), resolved: place_view(self.resolved) }
    }
}

impl View for GuardPhase<SkillPath> {
    type V = GuardPhase<PathView>;

    open spec fn view(&self) -> GuardPhase<PathView> {
        match self {
            GuardPhase::ResolvingSource => GuardPhase::ResolvingSource,
            GuardPhase::ClimbingFromSource { resolved, up } => GuardPhase::ClimbingFromSource {
                resolved: resolved@,
                up: *up,
            },
            GuardPhase::ResolvingTarget { source } => GuardPhase::ResolvingTarget {
                source: source@,
            },
            GuardPhase::ClimbingFromTarget { source, target: resolved, up } => {
                GuardPhase::ClimbingFromTarget {
                    source: source@,
                    target: place_view(*resolved),
                    up: *up,
                }
            },
            GuardPhase::Ended(verdict) => GuardPhase::Ended(*verdict),
        }
    }
}

impl View for OverlapGuard<SkillPath> {
    type V = OverlapGuard<PathView>;

    open spec fn view(&self) -> OverlapGuard<PathView> {
        OverlapGuard { source: self.source@, target: self.target@, phase: self.phase@ }
    }
}

/// What the file system tells of a path.
pub struct PathWorld {
    /// What the path resolves to, links being followed.
    pub resolved: Result<PathView, Failure>,
    /// What the directories above it resolve to, by how many steps up they are.
    pub ancestors: spec_fn(usize) -> Result<PathView, Failure>,
}

/// What the file system would reply to the guard.
pub struct GuardWorld {
    pub source: PathWorld,
    pub target: PathWorld,
}

/// Two places that may not be synced with each other. The same place twice counts as a
/// target inside its source.
pub open spec fn overlap(source: PathView, target: PathView) -> Result<(), Refusal> {
    if target.is_within(source) {
        Err(Refusal::TargetInsideSource)
    } else if source.is_within(target) {
        Err(Refusal::SourceInsideTarget)
    } else {
        Ok(())
    }
}

/// The place of a path, the directory `up` steps above it being at `base`.
///
/// Where names lead on from there, this is where the path stands or will stand. A `..` is
/// taken to lead back over the component before it, which is so of a directory that is not
/// there yet, but need not be so where a link stands.
pub open spec fn place_above(path: PathView, base: PathView, up: nat) -> Option<PathView> {
    if up <= path.depth() {
        Some(base.followed(path.last_parts(up)))
    } else {
        None
    }
}

/// The place of a path, judged by the first directory that resolves among those at least
/// `up` steps above it.
pub open spec fn place_from(path: PathView, world: PathWorld, up: nat) -> Option<PathView>
    decreases path.depth() + 1 - up,
{
    if up > path.depth() {
        None
    } else {
        match (world.ancestors)(up as usize) {
            Ok(base) => place_above(path, base, up),
            Err(_) => place_from(path, world, up + 1),
        }
    }
}

/// The place at which a path stands or will stand, links there not being followed.
pub open spec fn entry_place(path: PathView, world: PathWorld) -> Option<PathView> {
    place_from(path, world, 1)
}

/// The path, if there is one.
pub open spec fn if_resolved(path: Result<PathView, Failure>) -> Option<PathView> {
    match path {
        Ok(path) => Some(path),
        Err(_) => None,
    }
}

/// Where a path is, as far as it can be told.
pub open spec fn whereabouts(path: PathView, world: PathWorld) -> Whereabouts<PathView> {
    Whereabouts { place: entry_place(path, world), resolved: if_resolved(world.resolved) }
}

/// What is said of two places, where both can be told.
pub open spec fn between(source: Option<PathView>, target: Option<PathView>) -> Result<
    (),
    Refusal,
> {
    if source is Some && target is Some {
        overlap(source->0, target->0)
    } else {
        Ok(())
    }
}

/// What is said of a source and a target: neither the place at which one stands nor the
/// place to which it leads may overlap with either of the other's.
pub open spec fn judged(source: Whereabouts<PathView>, target: Whereabouts<PathView>) -> Result<
    (),
    Refusal,
> {
    if between(source.resolved, target.place) is Err {
        between(source.resolved, target.place)
    } else if between(source.resolved, target.resolved) is Err {
        between(source.resolved, target.resolved)
    } else if between(source.place, target.place) is Err {
        between(source.place, target.place)
    } else {
        between(source.place, target.resolved)
    }
}

/// What the guard says: the source has to resolve, and source and target may not overlap.
pub open spec fn guard_verdict(source: PathView, target: PathView, world: GuardWorld) -> Result<
    (),
    Refusal,
> {
    match world.source.resolved {
        Err(failure) => Err(Refusal::SourceNotAccessible(failure)),
        Ok(_) => judged(whereabouts(source, world.source), whereabouts(target, world.target)),
    }
}

/// The request for a directory above one of the two.
pub open spec fn ancestor_request(of_source: bool, up: usize) -> GuardRequest {
    if of_source {
        GuardRequest::ResolveSourceAncestor { up }
    } else {
        GuardRequest::ResolveTargetAncestor { up }
    }
}

/// The requests for directories above a path, from `up` steps on, until one resolves.
pub open spec fn climbing_requests(
    of_source: bool,
    path: PathView,
    world: PathWorld,
    up: nat,
) -> Seq<GuardRequest>
    decreases path.depth() + 1 - up,
{
    if up > path.depth() {
        seq![]
    } else {
        seq![ancestor_request(of_source, up as usize)] + (
        if (world.ancestors)(up as usize) is Ok {
            seq![]
        } else {
            climbing_requests(of_source, path, world, up + 1)
        })
    }
}

/// The requests that the guard makes.
pub open spec fn guard_requests(source: PathView, target: PathView, world: GuardWorld) -> Seq<
    GuardRequest,
> {
    if world.source.resolved is Err {
        seq![GuardRequest::ResolveSource]
    } else {
        seq![GuardRequest::ResolveSource] + climbing_requests(true, source, world.source, 1) + seq![
            GuardRequest::ResolveTarget,
        ] + climbing_requests(false, target, world.target, 1)
    }
}

impl OverlapGuard<PathView> {
    /// This guard in another phase.
    pub open spec fn in_phase(self, phase: GuardPhase<PathView>) -> OverlapGuard<PathView> {
        OverlapGuard { phase, ..self }
    }

    /// Goes on with the directory `up` steps above the source, or with the target where
    /// there is none.
    pub open spec fn above_source(self, resolved: PathView, up: nat) -> OverlapGuard<PathView> {
        self.in_phase(
            if up <= self.source.depth() {
                GuardPhase::ClimbingFromSource { resolved, up: up as usize }
            } else {
                GuardPhase::ResolvingTarget {
                    source: Whereabouts { place: None, resolved: Some(resolved) },
                }
            },
        )
    }

    /// Goes on with the directory `up` steps above the target, or ends where there is none.
    pub open spec fn above_target(
        self,
        source: Whereabouts<PathView>,
        resolved: Option<PathView>,
        up: nat,
    ) -> OverlapGuard<PathView> {
        self.in_phase(
            if up <= self.target.depth() {
                GuardPhase::ClimbingFromTarget { source, target: resolved, up: up as usize }
            } else {
                GuardPhase::Ended(judged(source, Whereabouts { place: None, resolved }))
            },
        )
    }
}

impl Protocol for OverlapGuard<PathView> {
    type Request = GuardRequest;

    type Outcome = Result<(), Refusal>;

    type World = GuardWorld;

    open spec fn pending(self) -> Option<GuardRequest> {
        match self.phase {
            GuardPhase::ResolvingSource => Some(GuardRequest::ResolveSource),
            GuardPhase::ClimbingFromSource { resolved, up } => Some(
                GuardRequest::ResolveSourceAncestor { up },
            ),
            GuardPhase::ResolvingTarget { source } => Some(GuardRequest::ResolveTarget),
            GuardPhase::ClimbingFromTarget { source, target: resolved, up } => Some(
                GuardRequest::ResolveTargetAncestor { up },
            ),
            GuardPhase::Ended(_) => None,
        }
    }

    open spec fn outcome(self) -> Option<Result<(), Refusal>> {
        match self.phase {
            GuardPhase::Ended(verdict) => Some(verdict),
            _ => None,
        }
    }

    open spec fn next(self, reply: ReplyView) -> OverlapGuard<PathView> {
        match (self.phase, reply) {
            (GuardPhase::ResolvingSource, Reply::Path(Ok(resolved))) => self.above_source(
                resolved,
                1,
            ),
            (GuardPhase::ResolvingSource, Reply::Path(Err(failure))) => self.in_phase(
                GuardPhase::Ended(Err(Refusal::SourceNotAccessible(failure))),
            ),
            (GuardPhase::ClimbingFromSource { resolved, up }, Reply::Path(Ok(base))) => {
                self.in_phase(
                    GuardPhase::ResolvingTarget {
                        source: Whereabouts {
                            place: place_above(self.source, base, up as nat),
                            resolved: Some(resolved),
                        },
                    },
                )
            },
            (GuardPhase::ClimbingFromSource { resolved, up }, Reply::Path(Err(_))) => {
                self.above_source(resolved, up as nat + 1)
            },
            (GuardPhase::ResolvingTarget { source }, Reply::Path(place)) => self.above_target(
                source,
                if_resolved(place),
                1,
            ),
            (GuardPhase::ClimbingFromTarget { source, target: resolved, up }, Reply::Path(Ok(base))) => {
                self.in_phase(
                    GuardPhase::Ended(
                        judged(
                            source,
                            Whereabouts {
                                place: place_above(self.target, base, up as nat),
                                resolved,
                            },
                        ),
                    ),
                )
            },
            (GuardPhase::ClimbingFromTarget { source, target: resolved, up }, Reply::Path(Err(_))) => {
                self.above_target(source, resolved, up as nat + 1)
            },
            _ => self,
        }
    }

    open spec fn reply(world: GuardWorld, request: GuardRequest) -> ReplyView {
        match request {
            GuardRequest::ResolveSource => Reply::Path(world.source.resolved),
            GuardRequest::ResolveSourceAncestor { up } => Reply::Path(
                (world.source.ancestors)(up),
            ),
            GuardRequest::ResolveTarget => Reply::Path(world.target.resolved),
            GuardRequest::ResolveTargetAncestor { up } => Reply::Path(
                (world.target.ancestors)(up),
            ),
        }
    }

    open spec fn valid(self) -> bool {
        true
    }

    proof fn asks_or_has_ended(self) {
    }

    proof fn stays_valid(self, reply: ReplyView) {
    }
}

/// Whether two places may be synced with each other.
pub fn check_overlap(source: &SkillPath, target: &SkillPath) -> (verdict: Result<(), Refusal>)
    ensures
        verdict == overlap(source@, target@),
        verdict == Err::<(), Refusal>(Refusal::TargetInsideSource)
            <==> source@.parts.is_prefix_of(target@.parts),
        verdict == Err::<(), Refusal>(Refusal::SourceInsideTarget)
            <==> target@.parts.is_prefix_of(source@.parts) && !source@.parts.is_prefix_of(
            target@.parts,
        ),
        verdict is Ok <==> !source@.parts.is_prefix_of(target@.parts)
            && !target@.parts.is_prefix_of(source@.parts),
{
    if target.is_within(source) {
        Err(Refusal::TargetInsideSource)
    } else if source.is_within(target) {
        Err(Refusal::SourceInsideTarget)
    } else {
        Ok(())
    }
}

/// Whether two places may be synced with each other, where both can be told.
fn check_between(source: &Option<SkillPath>, target: &Option<SkillPath>) -> (verdict: Result<
    (),
    Refusal,
>)
    ensures
        verdict == between(place_view(*source), place_view(*target)),
{
    match (source, target) {
        (Some(source), Some(target)) => check_overlap(source, target),
        _ => Ok(()),
    }
}

/// Whether a source and a target may be synced with each other.
fn judge(source: &Whereabouts<SkillPath>, target: &Whereabouts<SkillPath>) -> (verdict: Result<
    (),
    Refusal,
>)
    ensures
        verdict == judged(source@, target@),
{
    let entry = check_between(&source.resolved, &target.place);
    if entry.is_err() {
        return entry;
    }
    let led_to = check_between(&source.resolved, &target.resolved);
    if led_to.is_err() {
        return led_to;
    }
    let entries = check_between(&source.place, &target.place);
    if entries.is_err() {
        return entries;
    }
    check_between(&source.place, &target.resolved)
}

/// The place of a path, the directory `up` steps above it being at `base`.
fn find_place(path: &SkillPath, base: SkillPath, up: usize) -> (place: Option<SkillPath>)
    ensures
        place_view(place) == place_above(path@, base@, up as nat),
{
    proof {
        path::lemma_depth_is_bounded(path@);
    }
    if up <= path.depth() {
        Some(base.followed(path, up))
    } else {
        None
    }
}

impl OverlapGuard<SkillPath> {
    /// The request that waits for a reply.
    pub fn request(&self) -> (request: Option<GuardRequest>)
        ensures
            request == self@.pending(),
    {
        match &self.phase {
            GuardPhase::ResolvingSource => Some(GuardRequest::ResolveSource),
            GuardPhase::ClimbingFromSource { up, .. } => Some(
                GuardRequest::ResolveSourceAncestor { up: *up },
            ),
            GuardPhase::ResolvingTarget { .. } => Some(GuardRequest::ResolveTarget),
            GuardPhase::ClimbingFromTarget { up, .. } => Some(
                GuardRequest::ResolveTargetAncestor { up: *up },
            ),
            GuardPhase::Ended(_) => None,
        }
    }

    /// The verdict, once there is one.
    pub fn result(&self) -> (result: Option<Result<(), Refusal>>)
        ensures
            result == self@.outcome(),
    {
        match &self.phase {
            GuardPhase::Ended(verdict) => Some(*verdict),
            _ => None,
        }
    }

    /// Takes a reply.
    pub fn advance(self, reply: FsReply) -> (guard: OverlapGuard<SkillPath>)
        ensures
            guard@ == self@.next(reply@),
    {
        let OverlapGuard { source: from, target, phase } = self;
        let phase = match (phase, reply) {
            (GuardPhase::ResolvingSource, Reply::Path(Ok(resolved))) => {
                if from.depth() > 0 {
                    GuardPhase::ClimbingFromSource { resolved, up: 1 }
                } else {
                    GuardPhase::ResolvingTarget {
                        source: Whereabouts { place: None, resolved: Some(resolved) },
                    }
                }
            },
            (GuardPhase::ResolvingSource, Reply::Path(Err(failure))) => GuardPhase::Ended(
                Err(Refusal::SourceNotAccessible(failure)),
            ),
            (GuardPhase::ClimbingFromSource { resolved, up }, Reply::Path(Ok(base))) => {
                let place = find_place(&from, base, up);
                GuardPhase::ResolvingTarget {
                    source: Whereabouts { place, resolved: Some(resolved) },
                }
            },
            (GuardPhase::ClimbingFromSource { resolved, up }, Reply::Path(Err(_))) => {
                if up < from.depth() {
                    GuardPhase::ClimbingFromSource { resolved, up: up + 1 }
                } else {
                    GuardPhase::ResolvingTarget {
                        source: Whereabouts { place: None, resolved: Some(resolved) },
                    }
                }
            },
            (GuardPhase::ResolvingTarget { source }, Reply::Path(place)) => {
                let resolved = match place {
                    Ok(place) => Some(place),
                    Err(_) => None,
                };
                if target.depth() > 0 {
                    GuardPhase::ClimbingFromTarget { source, target: resolved, up: 1 }
                } else {
                    GuardPhase::Ended(judge(&source, &Whereabouts { place: None, resolved }))
                }
            },
            (GuardPhase::ClimbingFromTarget { source, target: resolved, up }, Reply::Path(Ok(base))) => {
                let place = find_place(&target, base, up);
                GuardPhase::Ended(judge(&source, &Whereabouts { place, resolved }))
            },
            (GuardPhase::ClimbingFromTarget { source, target: resolved, up }, Reply::Path(Err(_))) => {
                if up < target.depth() {
                    GuardPhase::ClimbingFromTarget { source, target: resolved, up: up + 1 }
                } else {
                    GuardPhase::Ended(judge(&source, &Whereabouts { place: None, resolved }))
                }
            },
            (phase, _) => phase,
        };
        OverlapGuard { source: from, target, phase }
    }
}

/// The first state of the guard.
pub open spec fn guard_of(source: PathView, target: PathView) -> OverlapGuard<PathView> {
    OverlapGuard { source, target, phase: GuardPhase::ResolvingSource }
}

/// Starts the guard that refuses to sync when source and target overlap in either
/// direction.
///
/// The source has to resolve: whoever asks is about to read from it. Both are judged by the
/// place at which they stand and, where that is a link, by the place to which they lead. A
/// target that is not there yet is judged by the nearest directory above it that is. Links
/// further up on the way to either of them are followed and not judged by themselves.
pub fn ensure_dst_not_inside_src(source: SkillPath, target: SkillPath) -> (guard: OverlapGuard<
    SkillPath,
>)
    ensures
        guard@ == guard_of(source@, target@),
        forall|world: GuardWorld| #[trigger]
            protocol::ends(
                guard@,
                world,
                guard_requests(source@, target@, world),
                guard_verdict(source@, target@, world),
            ),
{
    let guard = OverlapGuard { source, target, phase: GuardPhase::ResolvingSource };
    proof {
        path::lemma_depth_is_bounded(source@);
        path::lemma_depth_is_bounded(target@);
        assert(source@.parts.len() == source.parts.len());
        assert(target@.parts.len() == target.parts.len());
        assert forall|world: GuardWorld| #[trigger]
            protocol::ends(
                guard@,
                world,
                guard_requests(source@, target@, world),
                guard_verdict(source@, target@, world),
            ) by {
            lemma_guard_ends(source@, target@, world);
        }
    }
    guard
}

/// A guard that looks for a directory from `up` steps above the target on makes these
/// requests and ends with this verdict.
proof fn lemma_climbing_from_target_ends(
    guard: OverlapGuard<PathView>,
    source: Whereabouts<PathView>,
    resolved: Option<PathView>,
    world: GuardWorld,
    up: nat,
)
    requires
        guard.target.depth() <= usize::MAX,
    ensures
        protocol::ends(
            guard.above_target(source, resolved, up),
            world,
            climbing_requests(false, guard.target, world.target, up),
            judged(
                source,
                Whereabouts { place: place_from(guard.target, world.target, up), resolved },
            ),
        ),
    decreases guard.target.depth() + 1 - up,
{
    let here = guard.above_target(source, resolved, up);
    let none = Seq::<GuardRequest>::empty();
    let requests = climbing_requests(false, guard.target, world.target, up);
    let place = place_from(guard.target, world.target, up);
    let verdict = judged(source, Whereabouts { place, resolved });
    if up > guard.target.depth() {
        protocol::lemma_ends_now(here, world, verdict);
        assert(requests =~= none);
    } else {
        let request = ancestor_request(false, up as usize);
        let reply = (world.target.ancestors)(up as usize);
        let rest = match reply {
            Ok(_) => {
                protocol::lemma_ends_now(here.next(Reply::Path(reply)), world, verdict);
                none
            },
            Err(_) => {
                lemma_climbing_from_target_ends(here, source, resolved, world, up + 1);
                climbing_requests(false, guard.target, world.target, up + 1)
            },
        };
        protocol::lemma_ends_step(here, world, request, rest, verdict);
        assert(seq![request] + rest =~= requests);
    }
}

/// A guard that has found the source goes on with the target and ends with this verdict.
proof fn lemma_resolving_target_ends(
    guard: OverlapGuard<PathView>,
    source: Whereabouts<PathView>,
    world: GuardWorld,
)
    requires
        guard.target.depth() <= usize::MAX,
        guard.phase == (GuardPhase::ResolvingTarget { source }),
    ensures
        protocol::ends(
            guard,
            world,
            seq![GuardRequest::ResolveTarget] + climbing_requests(
                false,
                guard.target,
                world.target,
                1,
            ),
            judged(source, whereabouts(guard.target, world.target)),
        ),
{
    lemma_climbing_from_target_ends(guard, source, if_resolved(world.target.resolved), world, 1);
    protocol::lemma_ends_step(
        guard,
        world,
        GuardRequest::ResolveTarget,
        climbing_requests(false, guard.target, world.target, 1),
        judged(source, whereabouts(guard.target, world.target)),
    );
}

/// A guard that looks for a directory from `up` steps above the source on makes these
/// requests, goes on with the target, and ends with this verdict.
proof fn lemma_climbing_from_source_ends(
    guard: OverlapGuard<PathView>,
    resolved: PathView,
    world: GuardWorld,
    up: nat,
)
    requires
        guard.source.depth() <= usize::MAX,
        guard.target.depth() <= usize::MAX,
    ensures
        protocol::ends(
            guard.above_source(resolved, up),
            world,
            climbing_requests(true, guard.source, world.source, up) + (seq![
                GuardRequest::ResolveTarget,
            ] + climbing_requests(false, guard.target, world.target, 1)),
            judged(
                Whereabouts {
                    place: place_from(guard.source, world.source, up),
                    resolved: Some(resolved),
                },
                whereabouts(guard.target, world.target),
            ),
        ),
    decreases guard.source.depth() + 1 - up,
{
    let here = guard.above_source(resolved, up);
    let last = seq![GuardRequest::ResolveTarget] + climbing_requests(
        false,
        guard.target,
        world.target,
        1,
    );
    let requests = climbing_requests(true, guard.source, world.source, up);
    let source = Whereabouts {
        place: place_from(guard.source, world.source, up),
        resolved: Some(resolved),
    };
    let verdict = judged(source, whereabouts(guard.target, world.target));
    if up > guard.source.depth() {
        lemma_resolving_target_ends(here, source, world);
        assert(requests + last =~= last);
    } else {
        let request = ancestor_request(true, up as usize);
        let reply = (world.source.ancestors)(up as usize);
        let rest = match reply {
            Ok(_) => {
                lemma_resolving_target_ends(here.next(Reply::Path(reply)), source, world);
                last
            },
            Err(_) => {
                lemma_climbing_from_source_ends(here, resolved, world, up + 1);
                climbing_requests(true, guard.source, world.source, up + 1) + last
            },
        };
        protocol::lemma_ends_step(here, world, request, rest, verdict);
        assert(seq![request] + rest =~= requests + last);
    }
}

/// The guard makes these requests and ends with this verdict.
pub proof fn lemma_guard_ends(source: PathView, target: PathView, world: GuardWorld)
    requires
        source.depth() <= usize::MAX,
        target.depth() <= usize::MAX,
    ensures
        protocol::ends(
            guard_of(source, target),
            world,
            guard_requests(source, target, world),
            guard_verdict(source, target, world),
        ),
{
    let guard = guard_of(source, target);
    let none = Seq::<GuardRequest>::empty();
    let requests = guard_requests(source, target, world);
    let verdict = guard_verdict(source, target, world);
    let request = GuardRequest::ResolveSource;
    match world.source.resolved {
        Err(_) => {
            let replied = guard.next(Reply::Path(world.source.resolved));
            protocol::lemma_ends_now(replied, world, verdict);
            protocol::lemma_ends_step(guard, world, request, none, verdict);
            assert(seq![request] + none =~= requests);
        },
        Ok(resolved) => {
            lemma_climbing_from_source_ends(guard, resolved, world, 1);
            let rest = climbing_requests(true, source, world.source, 1) + (seq![
                GuardRequest::ResolveTarget,
            ] + climbing_requests(false, target, world.target, 1));
            protocol::lemma_ends_step(guard, world, request, rest, verdict);
            assert(seq![request] + rest =~= requests);
        },
    }
}

/// Whether two places can be told and overlap.
pub open spec fn clash(a: Option<PathView>, b: Option<PathView>) -> bool {
    between(a, b) is Err
}

/// The guard lets a source and a target pass exactly where the source resolves, and neither
/// the place at which it stands nor the place to which it leads overlaps with either of the
/// target's, as far as these places can be told.
pub proof fn law_guard_passes_exactly_apart(source: PathView, target: PathView, world: GuardWorld)
    ensures
        guard_verdict(source, target, world) is Ok <==> {
            let a = whereabouts(source, world.source);
            let b = whereabouts(target, world.target);
            &&& world.source.resolved is Ok
            &&& !clash(a.resolved, b.place)
            &&& !clash(a.resolved, b.resolved)
            &&& !clash(a.place, b.place)
            &&& !clash(a.place, b.resolved)
        },
{
}

/// Which of two paths that resolve is the source makes no difference to whether the guard
/// lets them pass.
pub proof fn law_guard_does_not_depend_on_the_direction(
    a: PathView,
    b: PathView,
    world: GuardWorld,
)
    requires
        world.source.resolved is Ok,
        world.target.resolved is Ok,
    ensures
        guard_verdict(a, b, world) is Ok <==> guard_verdict(
            b,
            a,
            GuardWorld { source: world.target, target: world.source },
        ) is Ok,
{
}

/// A path is refused as its own target.
pub proof fn law_path_to_itself_is_refused(path: PathView, world: PathWorld)
    ensures
        guard_verdict(path, path, GuardWorld { source: world, target: world }) is Err,
{
    if world.resolved is Ok {
        law_same_place_is_refused(world.resolved->Ok_0);
    }
}

/// Whether two places overlap does not depend on which is the source.
pub proof fn law_overlap_is_symmetric(a: PathView, b: PathView)
    ensures
        overlap(a, b) is Ok <==> overlap(b, a) is Ok,
{
}

/// The same place twice is refused, as a target inside its source.
pub proof fn law_same_place_is_refused(place: PathView)
    ensures
        overlap(place, place) == Err::<(), Refusal>(Refusal::TargetInsideSource),
{
    assert(place.parts =~= place.parts.subrange(0, place.parts.len() as int));
}

/// Whatever lies below a source, at any depth, is refused as its target, and a source
/// below a target is refused too.
pub proof fn law_nested_places_are_refused(
    outer: PathView,
    inner: PathView,
    below: Seq<PathPart<Seq<u8>>>,
)
    requires
        inner.parts == outer.parts + below,
        below.len() > 0,
    ensures
        overlap(outer, inner) == Err::<(), Refusal>(Refusal::TargetInsideSource),
        overlap(inner, outer) == Err::<(), Refusal>(Refusal::SourceInsideTarget),
{
    assert(outer.parts =~= inner.parts.subrange(0, outer.parts.len() as int));
}

/// Two entries of one directory with different names do not overlap, even where one
/// name starts with the other.
pub proof fn law_siblings_are_apart(parent: PathView, a: Seq<u8>, b: Seq<u8>)
    requires
        a != b,
    ensures
        overlap(parent.child(a), parent.child(b)) is Ok,
{
    let x = parent.child(a).parts;
    let y = parent.child(b).parts;
    assert(x.last() != y.last());
    assert(x.subrange(0, x.len() as int) =~= x);
    assert(y.subrange(0, y.len() as int) =~= y);
}

/// Whether components are names, all of them.
pub open spec fn all_names(parts: Seq<PathPart<Seq<u8>>>) -> bool {
    forall|i: int| 0 <= i < parts.len() ==> #[trigger] parts[i] is Normal
}

/// Names lead down and nowhere else.
pub proof fn lemma_names_lead_down(base: PathView, parts: Seq<PathPart<Seq<u8>>>)
    requires
        all_names(parts),
    ensures
        base.followed(parts) == (PathView {
            absolute: base.absolute,
            parts: base.parts + parts,
        }),
    decreases parts.len(),
{
    if parts.len() == 0 {
        assert(base.parts + parts =~= base.parts);
    } else {
        let front = parts.drop_last();
        assert forall|i: int| 0 <= i < front.len() implies #[trigger] front[i] is Normal by {
            assert(parts[i] is Normal);
        }
        assert(parts[parts.len() - 1] is Normal);
        lemma_names_lead_down(base, front);
        assert(base.parts + parts =~= (base.parts + front).push(parts.last()));
    }
}

/// A path below a place that lies in another lies in it too.
pub proof fn lemma_below_is_within(outer: PathView, base: PathView, below: Seq<PathPart<Seq<u8>>>)
    requires
        base.is_within(outer),
    ensures
        (PathView { absolute: base.absolute, parts: base.parts + below }).is_within(outer),
{
    let whole = base.parts + below;
    assert(outer.parts =~= whole.subrange(0, outer.parts.len() as int)) by {
        assert(outer.parts =~= base.parts.subrange(0, outer.parts.len() as int));
        assert forall|i: int| 0 <= i < outer.parts.len() implies outer.parts[i] == whole[i] by {
            assert(outer.parts[i] == base.parts.subrange(0, outer.parts.len() as int)[i]);
        }
    }
}

/// The first of the directories above a path that resolves is the one to judge by.
pub proof fn lemma_place_by_nearest(path: PathView, world: PathWorld, from: nat, up: nat)
    requires
        from <= up <= path.depth(),
        (world.ancestors)(up as usize) is Ok,
        forall|lower: nat|
            from <= lower < up ==> (#[trigger] (world.ancestors)(lower as usize)) is Err,
    ensures
        place_from(path, world, from) == place_above(
            path,
            (world.ancestors)(up as usize)->Ok_0,
            up,
        ),
    decreases up - from,
{
    if from < up {
        assert((world.ancestors)(from as usize) is Err);
        lemma_place_by_nearest(path, world, from + 1, up);
    }
}

/// The directory `up` steps above a path is the nearest that is there, and names lead on from
/// it.
pub open spec fn nearest(path: PathView, world: PathWorld, up: nat) -> bool {
    &&& 1 <= up <= path.depth()
    &&& (world.ancestors)(up as usize) is Ok
    &&& forall|lower: nat|
        1 <= lower < up ==> (#[trigger] (world.ancestors)(lower as usize)) is Err
    &&& all_names(path.last_parts(up))
}

/// Where names lead on from the nearest directory, the path is below it under these names.
pub proof fn lemma_place_is_below_nearest(path: PathView, world: PathWorld, up: nat)
    requires
        nearest(path, world, up),
    ensures
        ({
            let base = (world.ancestors)(up as usize)->Ok_0;
            entry_place(path, world) == Some(
                PathView {
                    absolute: base.absolute,
                    parts: base.parts + path.last_parts(up),
                },
            )
        }),
{
    lemma_place_by_nearest(path, world, 1, up);
    lemma_names_lead_down((world.ancestors)(up as usize)->Ok_0, path.last_parts(up));
}

/// A target in the source is refused, however many of the directories above it are still
/// missing: the nearest one that is there, `up` steps above, lies in the source. What the
/// target resolves to, being a link perhaps, does not matter.
pub proof fn law_target_in_source_is_refused(
    source: PathView,
    target: PathView,
    world: GuardWorld,
    up: nat,
)
    requires
        world.source.resolved is Ok,
        nearest(target, world.target, up),
        (world.target.ancestors)(up as usize)->Ok_0.is_within(world.source.resolved->Ok_0),
    ensures
        guard_verdict(source, target, world) == Err::<(), Refusal>(Refusal::TargetInsideSource),
{
    lemma_place_is_below_nearest(target, world.target, up);
    lemma_below_is_within(
        world.source.resolved->Ok_0,
        (world.target.ancestors)(up as usize)->Ok_0,
        target.last_parts(up),
    );
}

/// A source in the target is refused: the nearest directory above it lies in the target, or
/// in the place to which the target leads. What the source resolves to, being a link perhaps,
/// does not matter: removing the target would take the link away.
pub proof fn law_source_in_target_is_refused(
    source: PathView,
    target: PathView,
    world: GuardWorld,
    up: nat,
    outer: PathView,
)
    requires
        nearest(source, world.source, up),
        entry_place(target, world.target) == Some(outer) || world.target.resolved == Ok::<
            PathView,
            Failure,
        >(outer),
        (world.source.ancestors)(up as usize)->Ok_0.is_within(outer),
    ensures
        guard_verdict(source, target, world) is Err,
{
    lemma_place_is_below_nearest(source, world.source, up);
    lemma_below_is_within(
        outer,
        (world.source.ancestors)(up as usize)->Ok_0,
        source.last_parts(up),
    );
}

proof fn lemma_climbs_to_nearest(
    of_source: bool,
    path: PathView,
    world: PathWorld,
    from: nat,
    up: nat,
)
    requires
        1 <= from <= up <= path.depth(),
        (world.ancestors)(up as usize) is Ok,
        forall|lower: nat|
            from <= lower < up ==> (#[trigger] (world.ancestors)(lower as usize)) is Err,
    ensures
        climbing_requests(of_source, path, world, from) == Seq::new(
            (up - from + 1) as nat,
            |i: int| ancestor_request(of_source, (from + i) as usize),
        ),
    decreases up - from,
{
    let wanted = Seq::new(
        (up - from + 1) as nat,
        |i: int| ancestor_request(of_source, (from + i) as usize),
    );
    if from < up {
        assert((world.ancestors)(from as usize) is Err);
        lemma_climbs_to_nearest(of_source, path, world, from + 1, up);
    }
    assert(climbing_requests(of_source, path, world, from) =~= wanted);
}

/// A source that does not resolve is refused with the reason why, and nothing more is asked.
pub proof fn law_missing_source_is_refused(
    source: PathView,
    target: PathView,
    world: GuardWorld,
    failure: Failure,
    requests: Seq<GuardRequest>,
    verdict: Result<(), Refusal>,
)
    requires
        source.parts.len() <= usize::MAX,
        target.parts.len() <= usize::MAX,
        protocol::ends(guard_of(source, target), world, requests, verdict),
        world.source.resolved == Err::<PathView, Failure>(failure),
    ensures
        verdict == Err::<(), Refusal>(Refusal::SourceNotAccessible(failure)),
        requests == seq![GuardRequest::ResolveSource],
{
    lemma_settled(source, target, world, requests, verdict);
}

proof fn lemma_settled(
    source: PathView,
    target: PathView,
    world: GuardWorld,
    requests: Seq<GuardRequest>,
    verdict: Result<(), Refusal>,
)
    requires
        source.parts.len() <= usize::MAX,
        target.parts.len() <= usize::MAX,
        protocol::ends(guard_of(source, target), world, requests, verdict),
    ensures
        requests == guard_requests(source, target, world),
        verdict == guard_verdict(source, target, world),
{
    path::lemma_depth_is_bounded(source);
    path::lemma_depth_is_bounded(target);
    lemma_guard_ends(source, target, world);
    protocol::law_runs_end_one_way(
        guard_of(source, target),
        world,
        (requests, verdict),
        (guard_requests(source, target, world), guard_verdict(source, target, world)),
    );
}

/// The guard compares places component by component: those to which source and target
/// resolve, and those at which they stand, by the nearest directories above them that
/// resolve, `source_up` and `target_up` steps up where there are any. What the source
/// resolves to comes first, and the place at which the target stands. The first two of which
/// one is or holds the other decide, and where there are none the two pass. The directories
/// are looked for from below, and nothing else is asked.
pub proof fn law_guard_compares_places(
    source: PathView,
    target: PathView,
    world: GuardWorld,
    source_up: Option<nat>,
    target_up: Option<nat>,
    requests: Seq<GuardRequest>,
    verdict: Result<(), Refusal>,
)
    requires
        source.parts.len() <= usize::MAX,
        target.parts.len() <= usize::MAX,
        protocol::ends(guard_of(source, target), world, requests, verdict),
        world.source.resolved is Ok,
        match source_up {
            Some(up) => 1 <= up <= source.depth() && (world.source.ancestors)(up as usize) is Ok
                && forall|lower: nat|
                1 <= lower < up ==> (#[trigger] (world.source.ancestors)(lower as usize)) is Err,
            None => forall|up: nat|
                1 <= up <= source.depth() ==> (#[trigger] (world.source.ancestors)(
                    up as usize,
                )) is Err,
        },
        match target_up {
            Some(up) => 1 <= up <= target.depth() && (world.target.ancestors)(up as usize) is Ok
                && forall|lower: nat|
                1 <= lower < up ==> (#[trigger] (world.target.ancestors)(lower as usize)) is Err,
            None => forall|up: nat|
                1 <= up <= target.depth() ==> (#[trigger] (world.target.ancestors)(
                    up as usize,
                )) is Err,
        },
    ensures
        ({
            let holds = |a: Option<Seq<PathPart<Seq<u8>>>>, b: Option<Seq<PathPart<Seq<u8>>>>|
                a is Some && b is Some && a->0.is_prefix_of(b->0);
            let source_leads_to = Some(world.source.resolved->Ok_0.parts);
            let source_stands_at = match source_up {
                Some(up) => Some(
                    (world.source.ancestors)(up as usize)->Ok_0.followed(
                        source.parts.skip(source.parts.len() - up),
                    ).parts,
                ),
                None => None,
            };
            let target_leads_to = match world.target.resolved {
                Ok(place) => Some(place.parts),
                Err(_) => None,
            };
            let target_stands_at = match target_up {
                Some(up) => Some(
                    (world.target.ancestors)(up as usize)->Ok_0.followed(
                        target.parts.skip(target.parts.len() - up),
                    ).parts,
                ),
                None => None,
            };
            verdict == if holds(source_leads_to, target_stands_at) {
                Err::<(), Refusal>(Refusal::TargetInsideSource)
            } else if holds(target_stands_at, source_leads_to) {
                Err(Refusal::SourceInsideTarget)
            } else if holds(source_leads_to, target_leads_to) {
                Err(Refusal::TargetInsideSource)
            } else if holds(target_leads_to, source_leads_to) {
                Err(Refusal::SourceInsideTarget)
            } else if holds(source_stands_at, target_stands_at) {
                Err(Refusal::TargetInsideSource)
            } else if holds(target_stands_at, source_stands_at) {
                Err(Refusal::SourceInsideTarget)
            } else if holds(source_stands_at, target_leads_to) {
                Err(Refusal::TargetInsideSource)
            } else if holds(target_leads_to, source_stands_at) {
                Err(Refusal::SourceInsideTarget)
            } else {
                Ok(())
            }
        }),
        requests == seq![GuardRequest::ResolveSource] + Seq::new(
            match source_up {
                Some(up) => up,
                None => source.depth(),
            },
            |i: int| GuardRequest::ResolveSourceAncestor { up: (1 + i) as usize },
        ) + seq![GuardRequest::ResolveTarget] + Seq::new(
            match target_up {
                Some(up) => up,
                None => target.depth(),
            },
            |i: int| GuardRequest::ResolveTargetAncestor { up: (1 + i) as usize },
        ),
{
    lemma_settled(source, target, world, requests, verdict);
    lemma_place_and_requests(true, source, world.source, source_up);
    lemma_place_and_requests(false, target, world.target, target_up);
    assert(climbing_requests(true, source, world.source, 1) =~= Seq::new(
        match source_up {
            Some(up) => up,
            None => source.depth(),
        },
        |i: int| GuardRequest::ResolveSourceAncestor { up: (1 + i) as usize },
    ));
    assert(climbing_requests(false, target, world.target, 1) =~= Seq::new(
        match target_up {
            Some(up) => up,
            None => target.depth(),
        },
        |i: int| GuardRequest::ResolveTargetAncestor { up: (1 + i) as usize },
    ));
}

proof fn lemma_place_and_requests(
    of_source: bool,
    path: PathView,
    world: PathWorld,
    nearest_up: Option<nat>,
)
    requires
        match nearest_up {
            Some(up) => 1 <= up <= path.depth() && (world.ancestors)(up as usize) is Ok
                && forall|lower: nat|
                1 <= lower < up ==> (#[trigger] (world.ancestors)(lower as usize)) is Err,
            None => forall|up: nat|
                1 <= up <= path.depth() ==> (#[trigger] (world.ancestors)(up as usize)) is Err,
        },
    ensures
        place_from(path, world, 1) == match nearest_up {
            Some(up) => Some(
                (world.ancestors)(up as usize)->Ok_0.followed(
                    path.parts.skip(path.parts.len() - up),
                ),
            ),
            None => None,
        },
        climbing_requests(of_source, path, world, 1) == Seq::new(
            match nearest_up {
                Some(up) => up,
                None => path.depth(),
            },
            |i: int| ancestor_request(of_source, (1 + i) as usize),
        ),
{
    match nearest_up {
        Some(up) => {
            lemma_place_by_nearest(path, world, 1, up);
            lemma_climbs_to_nearest(of_source, path, world, 1, up);
            assert(climbing_requests(of_source, path, world, 1) =~= Seq::new(
                up,
                |i: int| ancestor_request(of_source, (1 + i) as usize),
            ));
        },
        None => {
            lemma_no_place(of_source, path, world, 1);
            assert(climbing_requests(of_source, path, world, 1) =~= Seq::new(
                path.depth(),
                |i: int| ancestor_request(of_source, (1 + i) as usize),
            ));
        },
    }
}

/// A source that resolves, and a target of which a directory above is there and only names
/// lead on from there, pass where neither of their places is or lies in the other: however
/// long the way that they share is, and whatever their names are. Otherwise they are refused.
pub proof fn law_guard_refuses_exactly_nested_places(
    source: PathView,
    target: PathView,
    world: GuardWorld,
    source_up: nat,
    target_up: nat,
    requests: Seq<GuardRequest>,
    verdict: Result<(), Refusal>,
)
    requires
        source.parts.len() <= usize::MAX,
        target.parts.len() <= usize::MAX,
        protocol::ends(guard_of(source, target), world, requests, verdict),
        1 <= source_up <= source.parts.len(),
        forall|i: int|
            source.parts.len() - source_up <= i < source.parts.len() ==> (
            #[trigger] source.parts[i]) is Normal,
        (world.source.ancestors)(source_up as usize) is Ok,
        forall|lower: nat|
            1 <= lower < source_up ==> (#[trigger] (world.source.ancestors)(lower as usize)) is Err,
        world.source.resolved is Ok,
        world.source.resolved->Ok_0.parts == (world.source.ancestors)(
            source_up as usize,
        )->Ok_0.parts + source.parts.skip(source.parts.len() - source_up),
        1 <= target_up <= target.parts.len(),
        forall|i: int|
            target.parts.len() - target_up <= i < target.parts.len() ==> (
            #[trigger] target.parts[i]) is Normal,
        (world.target.ancestors)(target_up as usize) is Ok,
        forall|lower: nat|
            1 <= lower < target_up ==> (#[trigger] (world.target.ancestors)(lower as usize)) is Err,
        world.target.resolved is Ok ==> world.target.resolved->Ok_0.parts == (
        world.target.ancestors)(target_up as usize)->Ok_0.parts + target.parts.skip(
            target.parts.len() - target_up,
        ),
    ensures
        ({
            let s = world.source.resolved->Ok_0.parts;
            let t = (world.target.ancestors)(target_up as usize)->Ok_0.parts + target.parts.skip(
                target.parts.len() - target_up,
            );
            &&& verdict is Ok <==> !s.is_prefix_of(t) && !t.is_prefix_of(s)
            &&& s.is_prefix_of(t) ==> verdict == Err::<(), Refusal>(Refusal::TargetInsideSource)
            &&& t.is_prefix_of(s) && s != t ==> verdict == Err::<(), Refusal>(
                Refusal::SourceInsideTarget,
            )
        }),
{
    lemma_at_least_as_deep(source, source_up);
    lemma_at_least_as_deep(target, target_up);
    law_guard_compares_places(
        source,
        target,
        world,
        Some(source_up),
        Some(target_up),
        requests,
        verdict,
    );
    lemma_names_lead_down(
        (world.source.ancestors)(source_up as usize)->Ok_0,
        source.parts.skip(source.parts.len() - source_up),
    );
    lemma_names_lead_down(
        (world.target.ancestors)(target_up as usize)->Ok_0,
        target.parts.skip(target.parts.len() - target_up),
    );
    let s = world.source.resolved->Ok_0.parts;
    let t = (world.target.ancestors)(target_up as usize)->Ok_0.parts + target.parts.skip(
        target.parts.len() - target_up,
    );
    if s.is_prefix_of(t) && t.is_prefix_of(s) {
        assert(s =~= t.subrange(0, s.len() as int));
        assert(t =~= s.subrange(0, t.len() as int));
        assert(s.len() == t.len());
        assert(s =~= t);
    }
}

/// A path whose last `up` components are names is at least that deep.
proof fn lemma_at_least_as_deep(path: PathView, up: nat)
    requires
        up <= path.parts.len(),
        forall|i: int|
            path.parts.len() - up <= i < path.parts.len() ==> (#[trigger] path.parts[i]) is Normal,
    ensures
        path.depth() >= up,
    decreases up,
{
    if up > 0 {
        assert(path.parts[path.parts.len() - 1] is Normal);
        lemma_at_least_as_deep(path.parent()->0, (up - 1) as nat);
    }
}

/// What a path resolves to is where it leads, whatever it is called.
pub proof fn law_resolved_path_is_taken_as_it_is(path: PathView, world: PathWorld)
    ensures
        match world.resolved {
            Ok(place) => whereabouts(path, world).resolved == Some(place),
            Err(_) => whereabouts(path, world).resolved is None,
        },
{
}

proof fn lemma_no_place(of_source: bool, path: PathView, world: PathWorld, from: nat)
    requires
        1 <= from <= path.depth() + 1,
        forall|up: nat|
            1 <= up <= path.depth() ==> (#[trigger] (world.ancestors)(up as usize)) is Err,
    ensures
        place_from(path, world, from) is None,
        climbing_requests(of_source, path, world, from) == Seq::new(
            (path.depth() + 1 - from) as nat,
            |i: int| ancestor_request(of_source, (from + i) as usize),
        ),
    decreases path.depth() + 1 - from,
{
    if from <= path.depth() {
        assert((world.ancestors)(from as usize) is Err);
        lemma_no_place(of_source, path, world, from + 1);
    }
    assert(climbing_requests(of_source, path, world, from) =~= Seq::new(
        (path.depth() + 1 - from) as nat,
        |i: int| ancestor_request(of_source, (from + i) as usize),
    ));
}

/// The guard is told what the file system has to tell.
pub proof fn law_guard_is_told_the_truth(world: GuardWorld, up: usize)
    ensures
        OverlapGuard::reply(world, GuardRequest::ResolveSource) == Reply::<
            PathView,
            Seq<Listed<Seq<u8>>>,
        >::Path(world.source.resolved),
        OverlapGuard::reply(world, GuardRequest::ResolveSourceAncestor { up }) == Reply::<
            PathView,
            Seq<Listed<Seq<u8>>>,
        >::Path((world.source.ancestors)(up)),
        OverlapGuard::reply(world, GuardRequest::ResolveTarget) == Reply::<
            PathView,
            Seq<Listed<Seq<u8>>>,
        >::Path(world.target.resolved),
        OverlapGuard::reply(world, GuardRequest::ResolveTargetAncestor { up }) == Reply::<
            PathView,
            Seq<Listed<Seq<u8>>>,
        >::Path((world.target.ancestors)(up)),
{
}

/// A reply of a kind that was not asked for leaves the guard where it is.
pub proof fn law_stray_replies_do_not_move_the_guard(
    guard: OverlapGuard<PathView>,
    reply: ReplyView,
)
    requires
        guard.pending() is Some ==> !(reply is Path),
    ensures
        guard.next(reply) == guard,
{
}

} // verus!
