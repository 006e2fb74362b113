//! Telling whether a target is already in the state that is wanted.

use crate::mode::SyncMode;
#[allow(unused_imports)]
use crate::path;
use crate::path::{PathView, SkillPath};
#[allow(unused_imports)]
use crate::protocol;
use crate::protocol::{Failure, FileKind, FsReply, Listed, Protocol, Reply, ReplyView};
use crate::text::same_text;
use vstd::prelude::*;

verus! {

/// What a check asks of the file system. It only ever looks.
#[derive(Debug, Clone, Copy, PartialEq, Eq, Structural)]
pub enum CheckRequest {
    /// Tell what stands at the target, links not followed.
    Inspect,
    /// Tell what the link at the target says.
    ReadLink,
    /// Resolve what the link says to a canonical path. Where `relative` holds, the link
    /// is followed from the target's parent directory.
    ResolveLink { relative: bool },
    /// Resolve the source to a canonical path.
    ResolveSource,
}

/// How far a check of a link has come. `P` is how paths are held.
#[derive(Debug, PartialEq, Eq)]
pub enum LinkPhase<P> {
    Inspecting,
    ReadingLink,
    ResolvingLink { relative: bool },
    /// The link is resolved, if it could be.
    ResolvingSource { link: Option<P> },
    Ended(bool),
}

/// A check under way of whether the target is a link to the source.
#[derive(Debug, PartialEq, Eq)]
pub struct LinkCheck<P> {
    pub source: P,
    pub target: P,
    pub phase: LinkPhase<P>,
}

/// A check under way of whether the target is in the state that is wanted.
#[derive(Debug, PartialEq, Eq)]
pub enum CurrentCheck<P> {
    /// The target has to be a link to the source.
    Link(LinkCheck<P>),
    /// The copy is of the right version; it has to be there still.
    Presence,
    Ended(bool),
}

impl View for LinkPhase<SkillPath> {
    type V = LinkPhase<PathView>;

    open spec fn view(&self) -> LinkPhase<PathView> {
        match self {
            LinkPhase::Inspecting => LinkPhase::Inspecting,
            LinkPhase::ReadingLink => LinkPhase::ReadingLink,
            LinkPhase::ResolvingLink { relative } => LinkPhase::ResolvingLink {
                relative: *relative,
            },
            LinkPhase::ResolvingSource { link: Some(link) } => LinkPhase::ResolvingSource {
                link: Some(link@),
            },
            LinkPhase::ResolvingSource { link: None } => LinkPhase::ResolvingSource { link: None },
            LinkPhase::Ended(verdict) => LinkPhase::Ended(*verdict),
        }
    }
}

impl View for LinkCheck<SkillPath> {
    type V = LinkCheck<PathView>;

    open spec fn view(&self) -> LinkCheck<PathView> {
        LinkCheck { source: self.source@, target: self.target@, phase: self.phase@ }
    }
}

impl View for CurrentCheck<SkillPath> {
    type V = CurrentCheck<PathView>;

    open spec fn view(&self) -> CurrentCheck<PathView> {
        match self {
            CurrentCheck::Link(check) => CurrentCheck::Link(check@),
            CurrentCheck::Presence => CurrentCheck::Presence,
            CurrentCheck::Ended(verdict) => CurrentCheck::Ended(*verdict),
        }
    }
}

/// What the file system would reply to a check.
pub struct CheckWorld {
    /// What stands at the target.
    pub kind: Result<FileKind, Failure>,
    /// What the link at the target says.
    pub link: Result<PathView, Failure>,
    /// What the link resolves to, followed from the target's parent or as it is.
    pub link_resolved: spec_fn(bool) -> Result<PathView, Failure>,
    /// What the source resolves to.
    pub source_resolved: Result<PathView, Failure>,
}

/// Where a link at `target` points: as it says, or from the directory that holds it.
pub open spec fn pointed_at(target: PathView, link: PathView) -> PathView {
    if link.absolute {
        link
    } else {
        match target.parent() {
            Some(parent) => parent.joined(link),
            None => path::empty_path().joined(link),
        }
    }
}

/// Whether both resolve, and to the same place.
pub open spec fn same_place(
    a: Result<PathView, Failure>,
    b: Result<PathView, Failure>,
) -> bool {
    a is Ok && b is Ok && a->Ok_0.same_as(b->Ok_0)
}

/// Whether the target is a link that leads to the source: by what it says, or because
/// both resolve to the same place.
pub open spec fn leads_to(source: PathView, target: PathView, world: CheckWorld) -> bool {
    &&& world.kind is Ok
    &&& world.kind->Ok_0 is Link
    &&& world.link is Ok
    &&& {
        ||| pointed_at(target, world.link->Ok_0).same_as(source)
        ||| same_place(
            (world.link_resolved)(!world.link->Ok_0.absolute),
            world.source_resolved,
        )
    }
}

/// The requests that a check of a link makes: each only once those before it leave the
/// question open.
pub open spec fn link_requests(
    source: PathView,
    target: PathView,
    world: CheckWorld,
) -> Seq<CheckRequest> {
    if !(world.kind is Ok && world.kind->Ok_0 is Link) {
        seq![CheckRequest::Inspect]
    } else if world.link is Err || pointed_at(target, world.link->Ok_0).same_as(source) {
        seq![CheckRequest::Inspect, CheckRequest::ReadLink]
    } else {
        seq![
            CheckRequest::Inspect,
            CheckRequest::ReadLink,
            CheckRequest::ResolveLink { relative: !world.link->Ok_0.absolute },
            CheckRequest::ResolveSource,
        ]
    }
}

/// Whether a copy was made from the version of the source that is there now. Both
/// versions have to be known.
pub open spec fn same_version(stored: Option<Seq<char>>, current: Option<Seq<char>>) -> bool {
    stored is Some && stored == current
}

/// Whether the target is in the state that is wanted: a link that leads to the source,
/// or a copy of the right version that is still there.
pub open spec fn target_current(
    source: PathView,
    target: PathView,
    mode: SyncMode,
    stored: Option<Seq<char>>,
    current: Option<Seq<char>>,
    world: CheckWorld,
) -> bool {
    match mode {
        SyncMode::Symlink => leads_to(source, target, world),
        SyncMode::Copy => same_version(stored, current) && world.kind is Ok,
    }
}

/// The requests that a check makes. A copy whose version is not right is not looked at.
pub open spec fn check_requests(
    source: PathView,
    target: PathView,
    mode: SyncMode,
    stored: Option<Seq<char>>,
    current: Option<Seq<char>>,
    world: CheckWorld,
) -> Seq<CheckRequest> {
    match mode {
        SyncMode::Symlink => link_requests(source, target, world),
        SyncMode::Copy => if same_version(stored, current) {
            seq![CheckRequest::Inspect]
        } else {
            seq![]
        },
    }
}

/// The reply that `world` gives to a request of a check.
pub open spec fn check_reply(world: CheckWorld, request: CheckRequest) -> ReplyView {
    match request {
        CheckRequest::Inspect => Reply::Kind(world.kind),
        CheckRequest::ReadLink => Reply::Path(world.link),
        CheckRequest::ResolveLink { relative } => Reply::Path((world.link_resolved)(relative)),
        CheckRequest::ResolveSource => Reply::Path(world.source_resolved),
    }
}

impl Protocol for LinkCheck<PathView> {
    type Request = CheckRequest;

    type Outcome = bool;

    type World = CheckWorld;

    open spec fn pending(self) -> Option<CheckRequest> {
        match self.phase {
            LinkPhase::Inspecting => Some(CheckRequest::Inspect),
            LinkPhase::ReadingLink => Some(CheckRequest::ReadLink),
            LinkPhase::ResolvingLink { relative } => Some(CheckRequest::ResolveLink { relative }),
            LinkPhase::ResolvingSource { link } => Some(CheckRequest::ResolveSource),
            LinkPhase::Ended(_) => None,
        }
    }

    open spec fn outcome(self) -> Option<bool> {
        match self.phase {
            LinkPhase::Ended(verdict) => Some(verdict),
            _ => None,
        }
    }

    open spec fn next(self, reply: ReplyView) -> LinkCheck<PathView> {
        let phase = match (self.phase, reply) {
            (LinkPhase::Inspecting, Reply::Kind(Ok(FileKind::Link { .. }))) => {
                LinkPhase::ReadingLink
            },
            (LinkPhase::Inspecting, Reply::Kind(_)) => LinkPhase::Ended(false),
            (LinkPhase::ReadingLink, Reply::Path(Ok(link))) => if pointed_at(
                self.target,
                link,
            ).same_as(self.source) {
                LinkPhase::Ended(true)
            } else {
                LinkPhase::ResolvingLink { relative: !link.absolute }
            },
            (LinkPhase::ReadingLink, Reply::Path(Err(_))) => LinkPhase::Ended(false),
            (LinkPhase::ResolvingLink { .. }, Reply::Path(resolved)) => {
                LinkPhase::ResolvingSource {
                    link: match resolved {
                        Ok(link) => Some(link),
                        Err(_) => None,
                    },
                }
            },
            (LinkPhase::ResolvingSource { link }, Reply::Path(resolved)) => LinkPhase::Ended(
                link is Some && resolved is Ok && link->0.same_as(resolved->Ok_0),
            ),
            (phase, _) => phase,
        };
        LinkCheck { source: self.source, target: self.target, phase }
    }

    open spec fn reply(world: CheckWorld, request: CheckRequest) -> ReplyView {
        check_reply(world, request)
    }

    open spec fn valid(self) -> bool {
        true
    }

    proof fn asks_or_has_ended(self) {
    }

    proof fn stays_valid(self, reply: ReplyView) {
    }
}

impl Protocol for CurrentCheck<PathView> {
    type Request = CheckRequest;

    type Outcome = bool;

    type World = CheckWorld;

    open spec fn pending(self) -> Option<CheckRequest> {
        match self {
            CurrentCheck::Link(check) => check.pending(),
            CurrentCheck::Presence => Some(CheckRequest::Inspect),
            CurrentCheck::Ended(_) => None,
        }
    }

    open spec fn outcome(self) -> Option<bool> {
        match self {
            CurrentCheck::Link(check) => check.outcome(),
            CurrentCheck::Presence => None,
            CurrentCheck::Ended(verdict) => Some(verdict),
        }
    }

    open spec fn next(self, reply: ReplyView) -> CurrentCheck<PathView> {
        match (self, reply) {
            (CurrentCheck::Link(check), _) => CurrentCheck::Link(check.next(reply)),
            (CurrentCheck::Presence, Reply::Kind(kind)) => CurrentCheck::Ended(kind is Ok),
            _ => self,
        }
    }

    open spec fn reply(world: CheckWorld, request: CheckRequest) -> ReplyView {
        check_reply(world, request)
    }

    open spec fn valid(self) -> bool {
        true
    }

    proof fn stays_valid(self, reply: ReplyView) {
    }

    proof fn asks_or_has_ended(self) {
        match self {
            CurrentCheck::Link(check) => {
                check.asks_or_has_ended();
            },
            _ => {},
        }
    }
}

impl LinkCheck<SkillPath> {
    /// The request that waits for a reply.
    pub fn request(&self) -> (request: Option<CheckRequest>)
        ensures
            request == self@.pending(),
    {
        match &self.phase {
            LinkPhase::Inspecting => Some(CheckRequest::Inspect),
            LinkPhase::ReadingLink => Some(CheckRequest::ReadLink),
            LinkPhase::ResolvingLink { relative } => Some(
                CheckRequest::ResolveLink { relative: *relative },
            ),
            LinkPhase::ResolvingSource { .. } => Some(CheckRequest::ResolveSource),
            LinkPhase::Ended(_) => None,
        }
    }

    /// The verdict, once there is one.
    pub fn result(&self) -> (result: Option<bool>)
        ensures
            result == self@.outcome(),
    {
        match &self.phase {
            LinkPhase::Ended(verdict) => Some(*verdict),
            _ => None,
        }
    }

    /// Where a link at the target points.
    fn pointed_at(&self, link: &SkillPath) -> (path: SkillPath)
        ensures
            path@ == pointed_at(self.target@, link@),
    {
        if link.absolute {
            link.duplicate()
        } else {
            match self.target.parent() {
                Some(parent) => parent.joined(link),
                None => SkillPath::empty().joined(link),
            }
        }
    }

    /// Takes a reply.
    pub fn advance(self, reply: FsReply) -> (check: LinkCheck<SkillPath>)
        ensures
            check@ == self@.next(reply@),
    {
        let phase = match (&self.phase, reply) {
            (LinkPhase::Inspecting, Reply::Kind(Ok(FileKind::Link { .. }))) => {
                LinkPhase::ReadingLink
            },
            (LinkPhase::Inspecting, Reply::Kind(_)) => LinkPhase::Ended(false),
            (LinkPhase::ReadingLink, Reply::Path(Ok(link))) => {
                if self.pointed_at(&link).same_as(&self.source) {
                    LinkPhase::Ended(true)
                } else {
                    LinkPhase::ResolvingLink { relative: !link.absolute }
                }
            },
            (LinkPhase::ReadingLink, Reply::Path(Err(_))) => LinkPhase::Ended(false),
            (LinkPhase::ResolvingLink { .. }, Reply::Path(Ok(link))) => {
                LinkPhase::ResolvingSource { link: Some(link) }
            },
            (LinkPhase::ResolvingLink { .. }, Reply::Path(Err(_))) => {
                LinkPhase::ResolvingSource { link: None }
            },
            (LinkPhase::ResolvingSource { link: Some(link) }, Reply::Path(Ok(source))) => {
                LinkPhase::Ended(link.same_as(&source))
            },
            (LinkPhase::ResolvingSource { .. }, Reply::Path(_)) => LinkPhase::Ended(false),
            _ => {
                return self;
            },
        };
        LinkCheck { source: self.source, target: self.target, phase }
    }
}

impl CurrentCheck<SkillPath> {
    /// The request that waits for a reply.
    pub fn request(&self) -> (request: Option<CheckRequest>)
        ensures
            request == self@.pending(),
    {
        match self {
            CurrentCheck::Link(check) => check.request(),
            CurrentCheck::Presence => Some(CheckRequest::Inspect),
            CurrentCheck::Ended(_) => None,
        }
    }

    /// The verdict, once there is one.
    pub fn result(&self) -> (result: Option<bool>)
        ensures
            result == self@.outcome(),
    {
        match self {
            CurrentCheck::Link(check) => check.result(),
            CurrentCheck::Presence => None,
            CurrentCheck::Ended(verdict) => Some(*verdict),
        }
    }

    /// Takes a reply.
    pub fn advance(self, reply: FsReply) -> (check: CurrentCheck<SkillPath>)
        ensures
            check@ == self@.next(reply@),
    {
        match (self, reply) {
            (CurrentCheck::Link(check), reply) => CurrentCheck::Link(check.advance(reply)),
            (CurrentCheck::Presence, Reply::Kind(kind)) => CurrentCheck::Ended(kind.is_ok()),
            (check, _) => check,
        }
    }
}

/// Starts checking whether the target is a link to the source.
pub fn symlink_points_to(target: SkillPath, source: SkillPath) -> (check: LinkCheck<SkillPath>)
    ensures
        check@ == (LinkCheck {
            source: source@,
            target: target@,
            phase: LinkPhase::<PathView>::Inspecting,
        }),
        forall|world: CheckWorld| #[trigger]
            protocol::ends(
                check@,
                world,
                link_requests(source@, target@, world),
                leads_to(source@, target@, world),
            ),
{
    let check = LinkCheck { source, target, phase: LinkPhase::Inspecting };
    proof {
        assert forall|world: CheckWorld| #[trigger]
            protocol::ends(
                check@,
                world,
                link_requests(source@, target@, world),
                leads_to(source@, target@, world),
            ) by {
            lemma_link_check_ends(check@, world);
        }
    }
    check
}

/// Starts checking whether the target is in the state that is wanted.
///
/// A link has to lead to the source. A copy has to be there still, and the version that
/// it was made from has to be the version of the source now; without knowing both
/// versions a copy is never current.
pub fn is_target_current(
    source: SkillPath,
    target: SkillPath,
    mode: SyncMode,
    last_synced_source_hash: Option<&str>,
    current_source_hash: Option<&str>,
) -> (check: CurrentCheck<SkillPath>)
    ensures
        check@ == current_check(
            source@,
            target@,
            mode,
            text_view(last_synced_source_hash),
            text_view(current_source_hash),
        ),
        forall|world: CheckWorld| #[trigger]
            protocol::ends(
                check@,
                world,
                check_requests(
                    source@,
                    target@,
                    mode,
                    text_view(last_synced_source_hash),
                    text_view(current_source_hash),
                    world,
                ),
                target_current(
                    source@,
                    target@,
                    mode,
                    text_view(last_synced_source_hash),
                    text_view(current_source_hash),
                    world,
                ),
            ),
{
    let check = match mode {
        SyncMode::Symlink => CurrentCheck::Link(symlink_points_to(target, source)),
        SyncMode::Copy => match (last_synced_source_hash, current_source_hash) {
            (Some(stored), Some(current)) => if same_text(stored, current) {
                CurrentCheck::Presence
            } else {
                CurrentCheck::Ended(false)
            },
            _ => CurrentCheck::Ended(false),
        },
    };
    proof {
        let stored = text_view(last_synced_source_hash);
        let current = text_view(current_source_hash);
        assert forall|world: CheckWorld| #[trigger]
            protocol::ends(
                check@,
                world,
                check_requests(source@, target@, mode, stored, current, world),
                target_current(source@, target@, mode, stored, current, world),
            ) by {
            lemma_current_check_ends(source@, target@, mode, stored, current, world);
        }
    }
    check
}

/// The characters of a text that may be missing.
pub open spec fn text_view(text: Option<&str>) -> Option<Seq<char>> {
    match text {
        Some(text) => Some(text@),
        None => None,
    }
}

/// The first state of a check.
pub open spec fn current_check(
    source: PathView,
    target: PathView,
    mode: SyncMode,
    stored: Option<Seq<char>>,
    current: Option<Seq<char>>,
) -> CurrentCheck<PathView> {
    match mode {
        SyncMode::Symlink => CurrentCheck::Link(
            LinkCheck { source, target, phase: LinkPhase::Inspecting },
        ),
        SyncMode::Copy => if same_version(stored, current) {
            CurrentCheck::Presence
        } else {
            CurrentCheck::Ended(false)
        },
    }
}

/// A check of a link makes these requests and ends with this verdict.
proof fn lemma_link_check_ends(check: LinkCheck<PathView>, world: CheckWorld)
    requires
        check.phase == LinkPhase::<PathView>::Inspecting,
    ensures
        protocol::ends(
            check,
            world,
            link_requests(check.source, check.target, world),
            leads_to(check.source, check.target, world),
        ),
{
    let none = Seq::<CheckRequest>::empty();
    let requests = link_requests(check.source, check.target, world);
    let verdict = leads_to(check.source, check.target, world);
    let seen = check.next(Reply::Kind(world.kind));
    if !(world.kind is Ok && world.kind->Ok_0 is Link) {
        protocol::lemma_ends_now(seen, world, verdict);
        protocol::lemma_ends_step(check, world, CheckRequest::Inspect, none, verdict);
        assert(seq![CheckRequest::Inspect] + none =~= requests);
    } else {
        let read = seen.next(Reply::Path(world.link));
        if world.link is Err || pointed_at(check.target, world.link->Ok_0).same_as(check.source) {
            protocol::lemma_ends_now(read, world, verdict);
            protocol::lemma_ends_step(seen, world, CheckRequest::ReadLink, none, verdict);
            let tail = seq![CheckRequest::ReadLink] + none;
            protocol::lemma_ends_step(check, world, CheckRequest::Inspect, tail, verdict);
            assert(seq![CheckRequest::Inspect] + tail =~= requests);
        } else {
            let relative = !world.link->Ok_0.absolute;
            let link = CheckRequest::ResolveLink { relative };
            let resolved = read.next(Reply::Path((world.link_resolved)(relative)));
            let compared = resolved.next(Reply::Path(world.source_resolved));
            protocol::lemma_ends_now(compared, world, verdict);
            protocol::lemma_ends_step(resolved, world, CheckRequest::ResolveSource, none, verdict);
            let last = seq![CheckRequest::ResolveSource] + none;
            protocol::lemma_ends_step(read, world, link, last, verdict);
            let later = seq![link] + last;
            protocol::lemma_ends_step(seen, world, CheckRequest::ReadLink, later, verdict);
            let tail = seq![CheckRequest::ReadLink] + later;
            protocol::lemma_ends_step(check, world, CheckRequest::Inspect, tail, verdict);
            assert(seq![CheckRequest::Inspect] + tail =~= requests);
        }
    }
}

/// The check that is one of a link.
spec fn of_link() -> spec_fn(LinkCheck<PathView>) -> CurrentCheck<PathView> {
    |state: LinkCheck<PathView>| CurrentCheck::Link(state)
}

/// A request of a check of a link is one of the check.
spec fn as_it_is() -> spec_fn(CheckRequest) -> CheckRequest {
    |request: CheckRequest| request
}

/// A check makes these requests and ends with this verdict.
pub proof fn lemma_current_check_ends(
    source: PathView,
    target: PathView,
    mode: SyncMode,
    stored: Option<Seq<char>>,
    current: Option<Seq<char>>,
    world: CheckWorld,
)
    ensures
        protocol::ends(
            current_check(source, target, mode, stored, current),
            world,
            check_requests(source, target, mode, stored, current, world),
            target_current(source, target, mode, stored, current, world),
        ),
{
    let check = current_check(source, target, mode, stored, current);
    let requests = check_requests(source, target, mode, stored, current, world);
    let verdict = target_current(source, target, mode, stored, current, world);
    match check {
        CurrentCheck::Link(link_check) => {
            lemma_link_check_ends(link_check, world);
            let none = Seq::<CheckRequest>::empty();
            assert(protocol::carries(world, of_link(), as_it_is(), world));
            assert forall|state: LinkCheck<PathView>|
                state.outcome() == Some(verdict) implies protocol::ends(
                #[trigger] of_link()(state),
                world,
                none,
                verdict,
            ) by {
                protocol::lemma_ends_now(CurrentCheck::Link(state), world, verdict);
            }
            protocol::lemma_part_then_rest(
                link_check,
                world,
                requests,
                verdict,
                of_link(),
                as_it_is(),
                world,
                none,
                verdict,
            );
            assert(protocol::lifted(requests, as_it_is()) + none =~= requests);
        },
        CurrentCheck::Presence => {
            let none = Seq::<CheckRequest>::empty();
            protocol::lemma_ends_now(check.next(Reply::Kind(world.kind)), world, verdict);
            protocol::lemma_ends_step(check, world, CheckRequest::Inspect, none, verdict);
            assert(seq![CheckRequest::Inspect] + none =~= requests);
        },
        CurrentCheck::Ended(_) => {
            protocol::lemma_ends_now(check, world, verdict);
            assert(requests =~= Seq::<CheckRequest>::empty());
        },
    }
}

/// A link that says where an absolute source is, is current, and the check sees so
/// without resolving anything.
pub proof fn law_link_to_absolute_source_is_current(
    source: PathView,
    target: PathView,
    stored: Option<Seq<char>>,
    current: Option<Seq<char>>,
    world: CheckWorld,
    directory: bool,
)
    requires
        source.absolute,
        world.kind == Ok::<FileKind, Failure>(FileKind::Link { directory }),
        world.link == Ok::<PathView, Failure>(source),
    ensures
        target_current(source, target, SyncMode::Symlink, stored, current, world),
        check_requests(source, target, SyncMode::Symlink, stored, current, world) == seq![
            CheckRequest::Inspect,
            CheckRequest::ReadLink,
        ],
{
}

/// Only a link can be a current link: a directory or a file at the target never is.
pub proof fn law_only_links_are_current_links(
    source: PathView,
    target: PathView,
    stored: Option<Seq<char>>,
    current: Option<Seq<char>>,
    world: CheckWorld,
)
    requires
        target_current(source, target, SyncMode::Symlink, stored, current, world),
    ensures
        world.kind is Ok,
        world.kind->Ok_0 is Link,
{
}

/// A copy is current exactly when both versions are known and equal and the target is
/// there.
pub proof fn law_copy_is_current_iff_same_version_and_there(
    source: PathView,
    target: PathView,
    stored: Option<Seq<char>>,
    current: Option<Seq<char>>,
    world: CheckWorld,
)
    ensures
        target_current(source, target, SyncMode::Copy, stored, current, world) <==> (stored is Some
            && current is Some && stored->0 == current->0 && world.kind is Ok),
{
}

/// Without both versions a copy is made anew each time, and nobody asks the file system.
pub proof fn law_unknown_version_means_copying(
    source: PathView,
    target: PathView,
    stored: Option<Seq<char>>,
    current: Option<Seq<char>>,
    world: CheckWorld,
)
    requires
        stored is None || current is None,
    ensures
        !target_current(source, target, SyncMode::Copy, stored, current, world),
        check_requests(source, target, SyncMode::Copy, stored, current, world).len() == 0,
{
}

/// A link is current exactly where it leads to the source: what it says, followed from the
/// directory that holds it, has the very components of the source; or it resolves, and to a
/// path with the very components of what the source resolves to. Nothing but a link is.
pub proof fn law_link_is_current_exactly_where_it_leads_to_the_source(
    source: PathView,
    target: PathView,
    stored: Option<Seq<char>>,
    current: Option<Seq<char>>,
    world: CheckWorld,
    requests: Seq<CheckRequest>,
    verdict: bool,
)
    requires
        protocol::ends(
            current_check(source, target, SyncMode::Symlink, stored, current),
            world,
            requests,
            verdict,
        ),
    ensures
        match (world.kind, world.link) {
            (Ok(FileKind::Link { .. }), Ok(link)) => {
                let says = if link.absolute {
                    link.parts
                } else if target.parent() is Some {
                    target.parent()->0.joined(link).parts
                } else {
                    link.parts
                };
                let resolved = (world.link_resolved)(!link.absolute);
                &&& verdict <==> says == source.parts || (resolved is Ok
                    && world.source_resolved is Ok && resolved->Ok_0.parts
                    == world.source_resolved->Ok_0.parts)
                &&& says == source.parts ==> requests == seq![
                    CheckRequest::Inspect,
                    CheckRequest::ReadLink,
                ]
                &&& says != source.parts ==> requests == seq![
                    CheckRequest::Inspect,
                    CheckRequest::ReadLink,
                    CheckRequest::ResolveLink { relative: !link.absolute },
                    CheckRequest::ResolveSource,
                ]
            },
            (Ok(FileKind::Link { .. }), Err(_)) => !verdict && requests == seq![
                CheckRequest::Inspect,
                CheckRequest::ReadLink,
            ],
            _ => !verdict && requests == seq![CheckRequest::Inspect],
        },
{
    lemma_current_check_ends(source, target, SyncMode::Symlink, stored, current, world);
    protocol::law_runs_end_one_way(
        current_check(source, target, SyncMode::Symlink, stored, current),
        world,
        (requests, verdict),
        (
            check_requests(source, target, SyncMode::Symlink, stored, current, world),
            target_current(source, target, SyncMode::Symlink, stored, current, world),
        ),
    );
}

/// The check of a link alone goes as the check of a target that has to be a link.
pub proof fn law_link_check_is_the_check_for_links(
    source: PathView,
    target: PathView,
    world: CheckWorld,
    requests: Seq<CheckRequest>,
    verdict: bool,
)
    requires
        protocol::ends(
            LinkCheck { source, target, phase: LinkPhase::<PathView>::Inspecting },
            world,
            requests,
            verdict,
        ),
    ensures
        protocol::ends(
            current_check(source, target, SyncMode::Symlink, None, None),
            world,
            requests,
            verdict,
        ),
{
    let check = LinkCheck { source, target, phase: LinkPhase::<PathView>::Inspecting };
    lemma_link_check_ends(check, world);
    lemma_current_check_ends(source, target, SyncMode::Symlink, None, None, world);
    protocol::law_runs_end_one_way(
        check,
        world,
        (requests, verdict),
        (link_requests(source, target, world), leads_to(source, target, world)),
    );
}

/// A copy is current exactly where both versions are known and the same and something stands
/// at the target; the file system is asked only once the versions agree.
pub proof fn law_copy_is_current_exactly_where_it_is_there_in_the_same_version(
    source: PathView,
    target: PathView,
    stored: Option<Seq<char>>,
    current: Option<Seq<char>>,
    world: CheckWorld,
    requests: Seq<CheckRequest>,
    verdict: bool,
)
    requires
        protocol::ends(
            current_check(source, target, SyncMode::Copy, stored, current),
            world,
            requests,
            verdict,
        ),
    ensures
        match (stored, current) {
            (Some(then), Some(now)) => if then == now {
                requests == seq![CheckRequest::Inspect] && verdict == world.kind is Ok
            } else {
                requests.len() == 0 && !verdict
            },
            _ => requests.len() == 0 && !verdict,
        },
{
    lemma_current_check_ends(source, target, SyncMode::Copy, stored, current, world);
    protocol::law_runs_end_one_way(
        current_check(source, target, SyncMode::Copy, stored, current),
        world,
        (requests, verdict),
        (
            check_requests(source, target, SyncMode::Copy, stored, current, world),
            target_current(source, target, SyncMode::Copy, stored, current, world),
        ),
    );
}

/// A check is told what the file system has to tell.
pub proof fn law_check_is_told_the_truth(world: CheckWorld, relative: bool)
    ensures
        forall|request: CheckRequest| #[trigger]
            CurrentCheck::<PathView>::reply(world, request) == LinkCheck::<PathView>::reply(
                world,
                request,
            ),
        LinkCheck::<PathView>::reply(world, CheckRequest::Inspect) == Reply::<
            PathView,
            Seq<Listed<Seq<u8>>>,
        >::Kind(world.kind),
        LinkCheck::<PathView>::reply(world, CheckRequest::ReadLink) == Reply::<
            PathView,
            Seq<Listed<Seq<u8>>>,
        >::Path(world.link),
        LinkCheck::<PathView>::reply(world, CheckRequest::ResolveLink { relative }) == Reply::<
            PathView,
            Seq<Listed<Seq<u8>>>,
        >::Path((world.link_resolved)(relative)),
        LinkCheck::<PathView>::reply(world, CheckRequest::ResolveSource) == Reply::<
            PathView,
            Seq<Listed<Seq<u8>>>,
        >::Path(world.source_resolved),
{
}

/// A reply of a kind that was not asked for leaves a check where it is.
pub proof fn law_stray_replies_do_not_move_a_check(
    check: CurrentCheck<PathView>,
    reply: ReplyView,
)
    requires
        match check.pending() {
            Some(CheckRequest::Inspect) => !(reply is Kind),
            Some(_) => !(reply is Path),
            None => true,
        },
    ensures
        check.next(reply) == check,
{
}

/// Contracts see a version that may be missing as it is.
pub proof fn law_versions_are_seen_as_they_are(text: Option<&str>)
    ensures
        text is None ==> text_view(text) is None,
        text is Some ==> text_view(text) == Some(text->0@),
{
}

} // verus!
