//! What runs and the file system say to each other, and what it means that a run ends.

use crate::path::{PathView, SkillPath};
use vstd::prelude::*;

verus! {

/// The only thing that decisions ask of a failure.
#[derive(Debug, Clone, Copy, PartialEq, Eq, Structural)]
pub enum FailureKind {
    NotFound,
    Other,
}

/// A failed request. The caller keeps the full error under the ticket that it puts
/// here, and finds it again by the ticket of the failure that a run ends with.
#[derive(Debug, Clone, Copy, PartialEq, Eq, Structural)]
pub struct Failure {
    pub kind: FailureKind,
    pub ticket: usize,
}

/// What stands at a path, links not followed.
#[derive(Debug, Clone, Copy, PartialEq, Eq, Structural)]
pub enum FileKind {
    /// A symbolic link or junction; `directory` says that it was made as a link to a
    /// directory, where the platform tells the two apart.
    Link { directory: bool },
    Directory,
    /// A regular file, or anything else that is removed like one.
    Other,
}

/// What an entry of a directory is, links not followed.
#[derive(Debug, Clone, Copy, PartialEq, Eq, Structural)]
pub enum EntryKind {
    File,
    Directory,
    Other,
}

/// One item of a directory listing. `N` is how names are held.
#[derive(Debug, PartialEq, Eq)]
pub enum Listed<N> {
    /// The entry, or its kind, could not be read.
    Failed(Failure),
    Found { name: N, kind: EntryKind },
}

impl View for Listed<Vec<u8>> {
    type V = Listed<Seq<u8>>;

    open spec fn view(&self) -> Listed<Seq<u8>> {
        match self {
            Listed::Failed(failure) => Listed::Failed(*failure),
            Listed::Found { name, kind } => Listed::Found { name: name@, kind: *kind },
        }
    }
}

/// A directory listing as contracts speak of it.
pub open spec fn listing_view(entries: Seq<Listed<Vec<u8>>>) -> Seq<Listed<Seq<u8>>> {
    Seq::new(entries.len(), |i: int| entries[i]@)
}

/// The file system's reply to a request. `P` is how paths are held, `L` how listings.
#[derive(Debug, PartialEq, Eq)]
pub enum Reply<P, L> {
    /// The watcher was told to ignore what follows.
    Muted,
    /// The answer to a yes-or-no question.
    Flag(bool),
    /// How an operation went.
    Outcome(Result<(), Failure>),
    /// What stands at a path.
    Kind(Result<FileKind, Failure>),
    /// A path that was read or resolved.
    Path(Result<P, Failure>),
    /// The entries of a directory, in the order in which they were read.
    Listing(Result<L, Failure>),
}

/// A reply in a program.
pub type FsReply = Reply<SkillPath, Vec<Listed<Vec<u8>>>>;

/// A reply as contracts speak of it.
pub type ReplyView = Reply<PathView, Seq<Listed<Seq<u8>>>>;

impl View for FsReply {
    type V = ReplyView;

    open spec fn view(&self) -> ReplyView {
        match self {
            Reply::Muted => Reply::Muted,
            Reply::Flag(flag) => Reply::Flag(*flag),
            Reply::Outcome(result) => Reply::Outcome(*result),
            Reply::Kind(result) => Reply::Kind(*result),
            Reply::Path(Ok(path)) => Reply::Path(Ok(path@)),
            Reply::Path(Err(failure)) => Reply::Path(Err(*failure)),
            Reply::Listing(Ok(entries)) => Reply::Listing(Ok(listing_view(entries@))),
            Reply::Listing(Err(failure)) => Reply::Listing(Err(*failure)),
        }
    }
}

/// A run as contracts speak of it: it has a pending request or an outcome, and a reply
/// takes it to the next state.
pub trait Protocol: Sized {
    type Request;

    type Outcome;

    /// What the file system would reply to each request.
    type World;

    /// The request that waits for a reply.
    spec fn pending(self) -> Option<Self::Request>;

    /// The outcome of a run that has ended.
    spec fn outcome(self) -> Option<Self::Outcome>;

    /// The state after a reply. A reply of a kind that was not asked for changes
    /// nothing.
    spec fn next(self, reply: ReplyView) -> Self;

    /// The reply that `world` gives to a request.
    spec fn reply(world: Self::World, request: Self::Request) -> ReplyView;

    /// The states that a run can be in.
    spec fn valid(self) -> bool;

    /// A run has ended exactly when it asks for nothing more.
    proof fn asks_or_has_ended(self)
        requires
            self.valid(),
        ensures
            self.pending() is None <==> self.outcome() is Some,
    ;

    /// Every reply leaves a run in a state that it can be in.
    proof fn stays_valid(self, reply: ReplyView)
        requires
            self.valid(),
        ensures
            self.next(reply).valid(),
    ;
}

/// The state after up to `count` replies of `world`.
pub open spec fn after<R: Protocol>(run: R, world: R::World, count: nat) -> R
    decreases count,
{
    if count == 0 {
        run
    } else {
        match run.pending() {
            None => run,
            Some(request) => after(
                run.next(R::reply(world, request)),
                world,
                (count - 1) as nat,
            ),
        }
    }
}

/// The requests that are made on the way to that state.
pub open spec fn asked<R: Protocol>(run: R, world: R::World, count: nat) -> Seq<R::Request>
    decreases count,
{
    if count == 0 {
        seq![]
    } else {
        match run.pending() {
            None => seq![],
            Some(request) => seq![request] + asked(
                run.next(R::reply(world, request)),
                world,
                (count - 1) as nat,
            ),
        }
    }
}

/// In `world`, the run makes exactly these requests, in this order, and then ends with
/// this outcome.
pub open spec fn ends<R: Protocol>(
    run: R,
    world: R::World,
    requests: Seq<R::Request>,
    outcome: R::Outcome,
) -> bool {
    exists|count: nat|
        (#[trigger] after(run, world, count)).outcome() == Some(outcome) && asked(
            run,
            world,
            count,
        ) == requests
}

/// A run that has an outcome ends without another request.
pub proof fn lemma_ends_now<R: Protocol>(run: R, world: R::World, outcome: R::Outcome)
    requires
        run.outcome() == Some(outcome),
    ensures
        ends(run, world, Seq::<R::Request>::empty(), outcome),
{
    assert(after(run, world, 0) == run);
    assert(asked(run, world, 0) =~= Seq::<R::Request>::empty());
}

/// A run ends as its next state does, with the pending request in front.
pub proof fn lemma_ends_step<R: Protocol>(
    run: R,
    world: R::World,
    request: R::Request,
    requests: Seq<R::Request>,
    outcome: R::Outcome,
)
    requires
        run.pending() == Some(request),
        ends(run.next(R::reply(world, request)), world, requests, outcome),
    ensures
        ends(run, world, seq![request] + requests, outcome),
{
    let rest = run.next(R::reply(world, request));
    let count = choose|count: nat|
        (#[trigger] after(rest, world, count)).outcome() == Some(outcome) && asked(
            rest,
            world,
            count,
        ) == requests;
    assert(after(run, world, count + 1) == after(rest, world, count));
    assert(asked(run, world, count + 1) == seq![request] + asked(rest, world, count));
}

/// A run that ends without a request has its outcome already, and one that makes requests
/// makes the first of them first, takes the reply, and ends as it then does.
pub proof fn law_runs_go_request_by_request<R: Protocol>(
    run: R,
    world: R::World,
    requests: Seq<R::Request>,
    outcome: R::Outcome,
)
    requires
        run.valid(),
        ends(run, world, requests, outcome),
    ensures
        requests.len() == 0 ==> run.outcome() == Some(outcome) && run.pending() is None,
        requests.len() > 0 ==> run.pending() == Some(requests[0]) && ends(
            run.next(R::reply(world, requests[0])),
            world,
            requests.drop_first(),
            outcome,
        ),
{
    let count = choose|count: nat|
        (#[trigger] after(run, world, count)).outcome() == Some(outcome) && asked(
            run,
            world,
            count,
        ) == requests;
    run.asks_or_has_ended();
    if count > 0 && run.pending() is Some {
        let request = run.pending()->0;
        let next = run.next(R::reply(world, request));
        let fewer = (count - 1) as nat;
        assert(after(run, world, count) == after(next, world, fewer));
        assert(requests == seq![request] + asked(next, world, fewer));
        assert(requests.drop_first() =~= asked(next, world, fewer));
        assert(after(next, world, fewer).outcome() == Some(outcome));
    }
}

/// Contracts see a listing, a reply and the paths in them as they are.
pub proof fn law_replies_are_seen_as_they_are(reply: FsReply)
    ensures
        match reply {
            Reply::Muted => reply@ == Reply::<PathView, Seq<Listed<Seq<u8>>>>::Muted,
            Reply::Flag(flag) => reply@ == Reply::<PathView, Seq<Listed<Seq<u8>>>>::Flag(flag),
            Reply::Outcome(result) => reply@ == Reply::<
                PathView,
                Seq<Listed<Seq<u8>>>,
            >::Outcome(result),
            Reply::Kind(result) => reply@ == Reply::<PathView, Seq<Listed<Seq<u8>>>>::Kind(result),
            Reply::Path(Ok(path)) => reply@ == Reply::<PathView, Seq<Listed<Seq<u8>>>>::Path(
                Ok(path@),
            ),
            Reply::Path(Err(failure)) => reply@ == Reply::<PathView, Seq<Listed<Seq<u8>>>>::Path(
                Err(failure),
            ),
            Reply::Listing(Err(failure)) => reply@ == Reply::<
                PathView,
                Seq<Listed<Seq<u8>>>,
            >::Listing(Err(failure)),
            Reply::Listing(Ok(entries)) => reply@ matches Reply::Listing(Ok(seen)) && seen.len()
                == entries@.len() && forall|i: int|
                #![trigger seen[i]]
                0 <= i < seen.len() ==> match entries@[i] {
                    Listed::Failed(failure) => seen[i] == Listed::<Seq<u8>>::Failed(failure),
                    Listed::Found { name, kind } => seen[i] == (Listed::Found {
                        name: name@,
                        kind,
                    }),
                },
        },
{
}

/// Requests of a part as requests of the whole.
pub open spec fn lifted<A, B>(requests: Seq<A>, lift: spec_fn(A) -> B) -> Seq<B> {
    Seq::new(requests.len(), |i: int| lift(requests[i]))
}

/// While a part is in a state, the run that goes through it is in the state `whole` of that:
/// it asks what the part asks, and takes the reply as the part does.
pub open spec fn carries<R: Protocol, S: Protocol>(
    part_world: R::World,
    whole: spec_fn(R) -> S,
    lift: spec_fn(R::Request) -> S::Request,
    world: S::World,
) -> bool {
    forall|state: R|
        #![trigger whole(state)]
        match state.pending() {
            Some(request) => {
                &&& whole(state).pending() == Some(lift(request))
                &&& whole(state).next(S::reply(world, lift(request))) == whole(
                    state.next(R::reply(part_world, request)),
                )
            },
            None => true,
        }
}

/// A run that goes through a part makes the requests of the part, and then goes on.
pub proof fn lemma_part_then_rest<R: Protocol, S: Protocol>(
    part: R,
    part_world: R::World,
    part_requests: Seq<R::Request>,
    part_outcome: R::Outcome,
    whole: spec_fn(R) -> S,
    lift: spec_fn(R::Request) -> S::Request,
    world: S::World,
    requests: Seq<S::Request>,
    outcome: S::Outcome,
)
    requires
        carries(part_world, whole, lift, world),
        ends(part, part_world, part_requests, part_outcome),
        forall|state: R|
            state.outcome() == Some(part_outcome) ==> ends(
                #[trigger] whole(state),
                world,
                requests,
                outcome,
            ),
    ensures
        ends(whole(part), world, lifted(part_requests, lift) + requests, outcome),
{
    let count = choose|count: nat|
        (#[trigger] after(part, part_world, count)).outcome() == Some(part_outcome) && asked(
            part,
            part_world,
            count,
        ) == part_requests;
    let last = whole(after(part, part_world, count));
    assert(ends(last, world, requests, outcome));
    lemma_steps_then_rest(part, part_world, count, whole, lift, world, requests, outcome);
}

proof fn lemma_steps_then_rest<R: Protocol, S: Protocol>(
    part: R,
    part_world: R::World,
    count: nat,
    whole: spec_fn(R) -> S,
    lift: spec_fn(R::Request) -> S::Request,
    world: S::World,
    requests: Seq<S::Request>,
    outcome: S::Outcome,
)
    requires
        carries(part_world, whole, lift, world),
        ends(whole(after(part, part_world, count)), world, requests, outcome),
    ensures
        ends(
            whole(part),
            world,
            lifted(asked(part, part_world, count), lift) + requests,
            outcome,
        ),
    decreases count,
{
    let own = lifted(asked(part, part_world, count), lift);
    if count == 0 || part.pending() is None {
        assert(own + requests =~= requests);
    } else {
        let request = part.pending()->0;
        let next = part.next(R::reply(part_world, request));
        let fewer = (count - 1) as nat;
        lemma_steps_then_rest(next, part_world, fewer, whole, lift, world, requests, outcome);
        let tail = lifted(asked(next, part_world, fewer), lift) + requests;
        let here = whole(part);
        lemma_ends_step(here, world, lift(request), tail, outcome);
        assert(seq![lift(request)] + tail =~= own + requests);
    }
}

/// A run has one end only: what it asks and how it ends is settled by what the file
/// system replies.
pub proof fn law_runs_end_one_way<R: Protocol>(
    run: R,
    world: R::World,
    first: (Seq<R::Request>, R::Outcome),
    second: (Seq<R::Request>, R::Outcome),
)
    requires
        run.valid(),
        ends(run, world, first.0, first.1),
        ends(run, world, second.0, second.1),
    ensures
        first == second,
{
    let a = choose|count: nat|
        (#[trigger] after(run, world, count)).outcome() == Some(first.1) && asked(
            run,
            world,
            count,
        ) == first.0;
    let b = choose|count: nat|
        (#[trigger] after(run, world, count)).outcome() == Some(second.1) && asked(
            run,
            world,
            count,
        ) == second.0;
    if a <= b {
        lemma_ended_stays(run, world, a, b);
    } else {
        lemma_ended_stays(run, world, b, a);
    }
}

proof fn lemma_ended_stays<R: Protocol>(run: R, world: R::World, count: nat, later: nat)
    requires
        run.valid(),
        after(run, world, count).outcome() is Some,
        count <= later,
    ensures
        after(run, world, later) == after(run, world, count),
        asked(run, world, later) == asked(run, world, count),
    decreases later,
{
    run.asks_or_has_ended();
    if later > 0 {
        match run.pending() {
            None => {},
            Some(request) => {
                run.stays_valid(R::reply(world, request));
                if count > 0 {
                    lemma_ended_stays(
                        run.next(R::reply(world, request)),
                        world,
                        (count - 1) as nat,
                        (later - 1) as nat,
                    );
                }
            },
        }
    }
}

} // verus!
