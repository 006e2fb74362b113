//! Copying a directory with everything in it but version control data.

#[allow(unused_imports)]
use crate::protocol;
use crate::protocol::{EntryKind, Failure, FsReply, Listed, Protocol, Reply, ReplyView};
use crate::text::same_bytes;
use vstd::prelude::*;

verus! {

/// What a copy asks of the file system. Each request names a place by the names that
/// lead to it, from the source directory and from the target directory alike.
#[derive(Debug, PartialEq, Eq)]
pub enum CopyRequest<R> {
    /// Make the directory in the target, and those above it that are missing.
    MakeDir(R),
    /// List the directory in the source.
    List(R),
    /// Copy the file from the source to the target.
    CopyFile(R),
}

/// Something that a copy has still to do.
#[derive(Debug, PartialEq, Eq)]
pub enum CopyTask<R> {
    Do(CopyRequest<R>),
    /// Stop: an entry could not be read, or a request failed.
    Fail(Failure),
}

/// A copy under way: what it has still to do, the next thing last.
#[derive(Debug, PartialEq, Eq)]
pub struct CopyRun {
    pub tasks: Vec<CopyTask<Vec<Vec<u8>>>>,
}

/// A copy as contracts speak of it: what it has still to do, the next thing first.
#[verifier::ext_equal]
pub struct CopyView {
    pub tasks: Seq<CopyTask<Seq<Seq<u8>>>>,
}

/// The names on the way to a place.
pub open spec fn names_view(names: Seq<Vec<u8>>) -> Seq<Seq<u8>> {
    Seq::new(names.len(), |i: int| names[i]@)
}

impl View for CopyRequest<Vec<Vec<u8>>> {
    type V = CopyRequest<Seq<Seq<u8>>>;

    open spec fn view(&self) -> CopyRequest<Seq<Seq<u8>>> {
        match self {
            CopyRequest::MakeDir(place) => CopyRequest::MakeDir(names_view(place@)),
            CopyRequest::List(place) => CopyRequest::List(names_view(place@)),
            CopyRequest::CopyFile(place) => CopyRequest::CopyFile(names_view(place@)),
        }
    }
}

impl View for CopyTask<Vec<Vec<u8>>> {
    type V = CopyTask<Seq<Seq<u8>>>;

    open spec fn view(&self) -> CopyTask<Seq<Seq<u8>>> {
        match self {
            CopyTask::Do(request) => CopyTask::Do(request@),
            CopyTask::Fail(failure) => CopyTask::Fail(*failure),
        }
    }
}

/// A stack of tasks in the order in which they will be done.
pub open spec fn stack_view(tasks: Seq<CopyTask<Vec<Vec<u8>>>>) -> Seq<
    CopyTask<Seq<Seq<u8>>>,
> {
    Seq::new(tasks.len(), |i: int| tasks[tasks.len() - 1 - i]@)
}

impl View for CopyRun {
    type V = CopyView;

    open spec fn view(&self) -> CopyView {
        CopyView { tasks: stack_view(self.tasks@) }
    }
}

/// The name of the directory that is left out of copies: `.git`.
pub open spec fn git_dir() -> Seq<u8> {
    seq![0x2eu8, 0x67u8, 0x69u8, 0x74u8]
}

/// What an entry of the source directory at `place` gives a copy to do.
pub open spec fn entry_task(place: Seq<Seq<u8>>, entry: Listed<Seq<u8>>) -> Seq<
    CopyTask<Seq<Seq<u8>>>,
> {
    match entry {
        Listed::Failed(failure) => seq![CopyTask::Fail(failure)],
        Listed::Found { name, kind } => if kind == EntryKind::Directory {
            if name == git_dir() {
                seq![]
            } else {
                seq![CopyTask::Do(CopyRequest::MakeDir(place.push(name)))]
            }
        } else {
            seq![CopyTask::Do(CopyRequest::CopyFile(place.push(name)))]
        },
    }
}

/// What the entries of the source directory at `place` give a copy to do.
pub open spec fn entry_tasks(place: Seq<Seq<u8>>, entries: Seq<Listed<Seq<u8>>>) -> Seq<
    CopyTask<Seq<Seq<u8>>>,
>
    decreases entries.len(),
{
    if entries.len() == 0 {
        seq![]
    } else {
        entry_task(place, entries[0]) + entry_tasks(place, entries.drop_first())
    }
}

/// What the file system would reply to a copy.
pub struct CopyWorld {
    /// How making each directory goes.
    pub made: spec_fn(Seq<Seq<u8>>) -> Result<(), Failure>,
    /// What each directory of the source holds.
    pub listed: spec_fn(Seq<Seq<u8>>) -> Result<Seq<Listed<Seq<u8>>>, Failure>,
    /// How copying each file goes.
    pub copied: spec_fn(Seq<Seq<u8>>) -> Result<(), Failure>,
}

impl Protocol for CopyView {
    type Request = CopyRequest<Seq<Seq<u8>>>;

    type Outcome = Result<(), Failure>;

    type World = CopyWorld;

    open spec fn pending(self) -> Option<CopyRequest<Seq<Seq<u8>>>> {
        if self.tasks.len() == 0 {
            None
        } else {
            match self.tasks[0] {
                CopyTask::Do(request) => Some(request),
                CopyTask::Fail(_) => None,
            }
        }
    }

    open spec fn outcome(self) -> Option<Result<(), Failure>> {
        if self.tasks.len() == 0 {
            Some(Ok(()))
        } else {
            match self.tasks[0] {
                CopyTask::Do(_) => None,
                CopyTask::Fail(failure) => Some(Err(failure)),
            }
        }
    }

    open spec fn next(self, reply: ReplyView) -> CopyView {
        let rest = self.tasks.drop_first();
        let tasks = match (self.pending(), reply) {
            (Some(CopyRequest::MakeDir(place)), Reply::Outcome(Ok(_))) => seq![
                CopyTask::Do(CopyRequest::List(place)),
            ] + rest,
            (Some(CopyRequest::List(place)), Reply::Listing(Ok(entries))) => entry_tasks(
                place,
                entries,
            ) + rest,
            (Some(CopyRequest::CopyFile(_)), Reply::Outcome(Ok(_))) => rest,
            (Some(CopyRequest::MakeDir(_)), Reply::Outcome(Err(failure))) => seq![
                CopyTask::Fail(failure),
            ],
            (Some(CopyRequest::List(_)), Reply::Listing(Err(failure))) => seq![
                CopyTask::Fail(failure),
            ],
            (Some(CopyRequest::CopyFile(_)), Reply::Outcome(Err(failure))) => seq![
                CopyTask::Fail(failure),
            ],
            _ => self.tasks,
        };
        CopyView { tasks }
    }

    open spec fn reply(world: CopyWorld, request: CopyRequest<Seq<Seq<u8>>>) -> ReplyView {
        match request {
            CopyRequest::MakeDir(place) => Reply::Outcome((world.made)(place)),
            CopyRequest::List(place) => Reply::Listing((world.listed)(place)),
            CopyRequest::CopyFile(place) => Reply::Outcome((world.copied)(place)),
        }
    }

    open spec fn valid(self) -> bool {
        true
    }

    proof fn asks_or_has_ended(self) {
    }

    proof fn stays_valid(self, reply: ReplyView) {
    }
}

/// Whether a request goes well.
pub open spec fn went_well(world: CopyWorld, request: CopyRequest<Seq<Seq<u8>>>) -> bool {
    match request {
        CopyRequest::MakeDir(place) => (world.made)(place) is Ok,
        CopyRequest::List(place) => (world.listed)(place) is Ok,
        CopyRequest::CopyFile(place) => (world.copied)(place) is Ok,
    }
}

/// The requests that were made, and how it went.
#[verifier::ext_equal]
pub struct CopyTrace {
    pub requests: Seq<CopyRequest<Seq<Seq<u8>>>>,
    pub result: Result<(), Failure>,
}

/// One thing after the other: the second only if the first went well.
pub open spec fn one_then(first: Option<CopyTrace>, second: Option<CopyTrace>) -> Option<
    CopyTrace,
> {
    match first {
        None => None,
        Some(CopyTrace { requests, result: Err(_) }) => first,
        Some(CopyTrace { requests, result: Ok(_) }) => match second {
            None => None,
            Some(later) => Some(
                CopyTrace { requests: requests + later.requests, result: later.result },
            ),
        },
    }
}

/// A single request and how it went.
pub open spec fn once(request: CopyRequest<Seq<Seq<u8>>>, result: Result<(), Failure>) -> Option<
    CopyTrace,
> {
    Some(CopyTrace { requests: seq![request], result })
}

/// What copying the directory at `place` amounts to, directories being nested no deeper
/// than `depth`: make it, list it, and copy its entries one by one. The first failure
/// ends it. `None` where directories are nested deeper than that.
pub open spec fn copy_dir(world: CopyWorld, place: Seq<Seq<u8>>, depth: nat) -> Option<CopyTrace>
    decreases depth, 0nat,
{
    if depth == 0 {
        None
    } else {
        one_then(
            once(CopyRequest::MakeDir(place), (world.made)(place)),
            match (world.listed)(place) {
                Err(failure) => once(CopyRequest::List(place), Err(failure)),
                Ok(entries) => one_then(
                    once(CopyRequest::List(place), Ok(())),
                    copy_entries(world, place, entries, (depth - 1) as nat),
                ),
            },
        )
    }
}

/// What copying these entries of the directory at `place` amounts to: directories are
/// copied with everything in them, except for `.git`; whatever else there is, is copied
/// as a file; and an entry that could not be read is a failure.
pub open spec fn copy_entries(
    world: CopyWorld,
    place: Seq<Seq<u8>>,
    entries: Seq<Listed<Seq<u8>>>,
    depth: nat,
) -> Option<CopyTrace>
    decreases depth, entries.len() + 1,
{
    if entries.len() == 0 {
        Some(CopyTrace { requests: seq![], result: Ok(()) })
    } else {
        let rest = copy_entries(world, place, entries.drop_first(), depth);
        match entries[0] {
            Listed::Failed(failure) => Some(CopyTrace { requests: seq![], result: Err(failure) }),
            Listed::Found { name, kind } => if kind == EntryKind::Directory {
                if name == git_dir() {
                    rest
                } else {
                    one_then(copy_dir(world, place.push(name), depth), rest)
                }
            } else {
                one_then(
                    once(
                        CopyRequest::CopyFile(place.push(name)),
                        (world.copied)(place.push(name)),
                    ),
                    rest,
                )
            },
        }
    }
}

/// A copy whose next task is to stop ends with that failure.
proof fn lemma_failed_ends(failure: Failure, rest: Seq<CopyTask<Seq<Seq<u8>>>>, world: CopyWorld)
    ensures
        protocol::ends(
            CopyView { tasks: seq![CopyTask::Fail(failure)] + rest },
            world,
            seq![],
            Err(failure),
        ),
{
    protocol::lemma_ends_now(
        CopyView { tasks: seq![CopyTask::Fail(failure)] + rest },
        world,
        Err(failure),
    );
}

/// A copy that has the directory at `place` to do, and then `rest`, does to it what
/// `copy_dir` says.
proof fn lemma_dir_is_copied(
    world: CopyWorld,
    place: Seq<Seq<u8>>,
    depth: nat,
    rest: Seq<CopyTask<Seq<Seq<u8>>>>,
    later: CopyTrace,
)
    requires
        copy_dir(world, place, depth) is Some,
        copy_dir(world, place, depth)->0.result is Ok ==> protocol::ends(
            CopyView { tasks: rest },
            world,
            later.requests,
            later.result,
        ),
    ensures
        protocol::ends(
            CopyView { tasks: seq![CopyTask::Do(CopyRequest::MakeDir(place))] + rest },
            world,
            one_then(copy_dir(world, place, depth), Some(later))->0.requests,
            one_then(copy_dir(world, place, depth), Some(later))->0.result,
        ),
    decreases depth, 0nat,
{
    let make = CopyRequest::MakeDir(place);
    let list = CopyRequest::List(place);
    let run = CopyView { tasks: seq![CopyTask::Do(make)] + rest };
    let none = Seq::<CopyTask<Seq<Seq<u8>>>>::empty();
    let whole = one_then(copy_dir(world, place, depth), Some(later))->0;
    assert(run.tasks.drop_first() =~= rest);
    let made = run.next(CopyView::reply(world, make));
    match (world.made)(place) {
        Err(failure) => {
            lemma_failed_ends(failure, none, world);
            assert(made.tasks =~= seq![CopyTask::Fail(failure)] + none);
            protocol::lemma_ends_step(run, world, make, seq![], Err(failure));
            assert(seq![make] + Seq::<CopyRequest<Seq<Seq<u8>>>>::empty() =~= whole.requests);
        },
        Ok(_) => {
            assert(made.tasks.drop_first() =~= rest);
            let listed = made.next(CopyView::reply(world, list));
            match (world.listed)(place) {
                Err(failure) => {
                    lemma_failed_ends(failure, none, world);
                    assert(listed.tasks =~= seq![CopyTask::Fail(failure)] + none);
                    protocol::lemma_ends_step(made, world, list, seq![], Err(failure));
                    let tail = seq![list] + Seq::<CopyRequest<Seq<Seq<u8>>>>::empty();
                    protocol::lemma_ends_step(run, world, make, tail, Err(failure));
                    assert(seq![make] + tail =~= whole.requests);
                },
                Ok(entries) => {
                    let below = (depth - 1) as nat;
                    let inside = copy_entries(world, place, entries, below);
                    lemma_entries_are_copied(
                        world,
                        place,
                        entries,
                        below,
                        rest,
                        later,
                    );
                    let finish = one_then(inside, Some(later))->0;
                    protocol::lemma_ends_step(made, world, list, finish.requests, finish.result);
                    let tail = seq![list] + finish.requests;
                    protocol::lemma_ends_step(run, world, make, tail, finish.result);
                    assert(seq![make] + tail =~= whole.requests);
                },
            }
        },
    }
}

/// A copy that has these entries of the directory at `place` to do, and then `rest`,
/// does to them what `copy_entries` says.
proof fn lemma_entries_are_copied(
    world: CopyWorld,
    place: Seq<Seq<u8>>,
    entries: Seq<Listed<Seq<u8>>>,
    depth: nat,
    rest: Seq<CopyTask<Seq<Seq<u8>>>>,
    later: CopyTrace,
)
    requires
        copy_entries(world, place, entries, depth) is Some,
        copy_entries(world, place, entries, depth)->0.result is Ok ==> protocol::ends(
            CopyView { tasks: rest },
            world,
            later.requests,
            later.result,
        ),
    ensures
        protocol::ends(
            CopyView { tasks: entry_tasks(place, entries) + rest },
            world,
            one_then(
                copy_entries(world, place, entries, depth),
                Some(later),
            )->0.requests,
            one_then(
                copy_entries(world, place, entries, depth),
                Some(later),
            )->0.result,
        ),
    decreases depth, entries.len() + 1,
{
    let run = CopyView { tasks: entry_tasks(place, entries) + rest };
    let whole = one_then(copy_entries(world, place, entries, depth), Some(later))->0;
    if entries.len() == 0 {
        assert(run.tasks =~= rest);
        assert(whole.requests =~= later.requests);
    } else {
        let others = entries.drop_first();
        let after = copy_entries(world, place, others, depth);
        let finish = one_then(after, Some(later))->0;
        let tasks = entry_tasks(place, others) + rest;
        assert(run.tasks =~= entry_task(place, entries[0]) + tasks);
        match entries[0] {
            Listed::Failed(failure) => {
                lemma_failed_ends(failure, tasks, world);
                assert(whole.requests =~= seq![]);
            },
            Listed::Found { name, kind } => {
                let inner = place.push(name);
                if kind == EntryKind::Directory && name == git_dir() {
                    assert(run.tasks =~= tasks);
                    lemma_entries_are_copied(world, place, others, depth, rest, later);
                } else if kind == EntryKind::Directory {
                    let inside = copy_dir(world, inner, depth);
                    if inside->0.result is Ok {
                        lemma_entries_are_copied(
                            world,
                            place,
                            others,
                            depth,
                            rest,
                            later,
                        );
                    }
                    lemma_dir_is_copied(world, inner, depth, tasks, finish);
                    assert(one_then(inside, Some(finish))->0.requests =~= whole.requests);
                } else {
                    let file = CopyRequest::CopyFile(inner);
                    assert(run.tasks.drop_first() =~= tasks);
                    match (world.copied)(inner) {
                        Err(failure) => {
                            lemma_failed_ends(failure, seq![], world);
                            assert(run.next(CopyView::reply(world, file)).tasks
                                =~= seq![CopyTask::Fail(failure)] + seq![]);
                            protocol::lemma_ends_step(run, world, file, seq![], Err(failure));
                            assert(seq![file] + Seq::<CopyRequest<Seq<Seq<u8>>>>::empty()
                                =~= whole.requests);
                        },
                        Ok(_) => {
                            lemma_entries_are_copied(
                                world,
                                place,
                                others,
                                depth,
                                rest,
                                later,
                            );
                            protocol::lemma_ends_step(run, world, file, finish.requests, finish.result);
                            assert(seq![file] + finish.requests =~= whole.requests);
                        },
                    }
                }
            },
        }
    }
}

/// A directory that was copied without a failure was made first, and every request went
/// well.
pub proof fn lemma_copied_dir_went_well(world: CopyWorld, place: Seq<Seq<u8>>, depth: nat)
    requires
        copy_dir(world, place, depth) is Some,
        copy_dir(world, place, depth)->0.result is Ok,
    ensures
        copy_dir(world, place, depth)->0.requests.len() > 0,
        copy_dir(world, place, depth)->0.requests[0] == CopyRequest::MakeDir(place),
        forall|i: int|
            0 <= i < copy_dir(world, place, depth)->0.requests.len() ==> went_well(
                world,
                #[trigger] copy_dir(world, place, depth)->0.requests[i],
            ),
    decreases depth, 0nat,
{
    let requests = copy_dir(world, place, depth)->0.requests;
    let entries = (world.listed)(place)->Ok_0;
    let below = (depth - 1) as nat;
    lemma_copied_entries_went_well(world, place, entries, below);
    let inside = copy_entries(world, place, entries, below)->0.requests;
    assert(requests =~= seq![CopyRequest::MakeDir(place), CopyRequest::List(place)] + inside);
    assert forall|i: int| 0 <= i < requests.len() implies went_well(
        world,
        #[trigger] requests[i],
    ) by {
        if i >= 2 {
            assert(requests[i] == inside[i - 2]);
        }
    }
}

/// Every request for entries that were copied without a failure went well.
proof fn lemma_copied_entries_went_well(
    world: CopyWorld,
    place: Seq<Seq<u8>>,
    entries: Seq<Listed<Seq<u8>>>,
    depth: nat,
)
    requires
        copy_entries(world, place, entries, depth) is Some,
        copy_entries(world, place, entries, depth)->0.result is Ok,
    ensures
        forall|i: int|
            0 <= i < copy_entries(world, place, entries, depth)->0.requests.len() ==> went_well(
                world,
                #[trigger] copy_entries(world, place, entries, depth)->0.requests[i],
            ),
    decreases depth, entries.len() + 1,
{
    if entries.len() > 0 {
        let requests = copy_entries(world, place, entries, depth)->0.requests;
        let others = entries.drop_first();
        let rest = copy_entries(world, place, others, depth)->0.requests;
        match entries[0] {
            Listed::Failed(_) => {},
            Listed::Found { name, kind } => {
                lemma_copied_entries_went_well(world, place, others, depth);
                let inner = place.push(name);
                let first = if kind != EntryKind::Directory {
                    seq![CopyRequest::CopyFile(inner)]
                } else if name == git_dir() {
                    seq![]
                } else {
                    lemma_copied_dir_went_well(world, inner, depth);
                    copy_dir(world, inner, depth)->0.requests
                };
                assert(requests =~= first + rest);
                assert forall|i: int| 0 <= i < requests.len() implies went_well(
                    world,
                    #[trigger] requests[i],
                ) by {
                    if i >= first.len() {
                        assert(requests[i] == rest[i - first.len()]);
                    } else {
                        assert(requests[i] == first[i]);
                    }
                }
            },
        }
    }
}

/// A copy of a place.
fn copy_place(place: &Vec<Vec<u8>>) -> (copy: Vec<Vec<u8>>)
    ensures
        names_view(copy@) == names_view(place@),
{
    let mut copy: Vec<Vec<u8>> = Vec::new();
    let mut i: usize = 0;
    while i < place.len()
        invariant
            i <= place@.len(),
            copy@.len() == i,
            forall|j: int| 0 <= j < i ==> (#[trigger] copy@[j])@ == place@[j]@,
        decreases place@.len() - i,
    {
        let name = place[i].clone();
        assert(name@ =~= place@[i as int]@);
        copy.push(name);
        i += 1;
    }
    assert(names_view(copy@) =~= names_view(place@));
    copy
}

/// The place of the entry `name` in the directory at `place`.
fn place_of(place: &Vec<Vec<u8>>, name: Vec<u8>) -> (inner: Vec<Vec<u8>>)
    ensures
        names_view(inner@) == names_view(place@).push(name@),
{
    let mut inner = copy_place(place);
    let ghost before = inner@;
    inner.push(name);
    assert(names_view(inner@) =~= names_view(before).push(name@));
    inner
}

/// Whether a name is the one that is left out of copies.
fn is_git_dir(name: &Vec<u8>) -> (is_git: bool)
    ensures
        is_git == (name@ == git_dir()),
{
    let git: [u8; 4] = [0x2e, 0x67, 0x69, 0x74];
    assert(git@ =~= git_dir());
    same_bytes(name, &git)
}

/// Puts a task on top of a stack.
proof fn lemma_stack_push(
    tasks: Seq<CopyTask<Vec<Vec<u8>>>>,
    task: CopyTask<Vec<Vec<u8>>>,
)
    ensures
        stack_view(tasks.push(task)) == seq![task@] + stack_view(tasks),
{
    assert(stack_view(tasks.push(task)) =~= seq![task@] + stack_view(tasks));
}

/// Puts what the entries of the directory at `place` give to do on top of a stack.
fn push_entries(
    tasks: &mut Vec<CopyTask<Vec<Vec<u8>>>>,
    place: &Vec<Vec<u8>>,
    entries: Vec<Listed<Vec<u8>>>,
)
    ensures
        stack_view(final(tasks)@) == entry_tasks(
            names_view(place@),
            protocol::listing_view(entries@),
        ) + stack_view(old(tasks)@),
{
    let ghost listing = protocol::listing_view(entries@);
    let ghost at = names_view(place@);
    let ghost rest = stack_view(tasks@);
    let mut entries = entries;
    assert(listing.skip(listing.len() as int) =~= Seq::<Listed<Seq<u8>>>::empty());
    assert(entry_tasks(at, listing.skip(listing.len() as int)) + rest =~= rest);
    while entries.len() > 0
        invariant
            entries@.len() <= listing.len(),
            protocol::listing_view(entries@) == listing.take(entries@.len() as int),
            at == names_view(place@),
            stack_view(tasks@) == entry_tasks(at, listing.skip(entries@.len() as int)) + rest,
        decreases entries@.len(),
    {
        let ghost count = entries@.len() as int;
        let ghost last = listing[count - 1];
        let ghost before = stack_view(tasks@);
        assert(last == listing.take(count)[count - 1]);
        assert(listing.skip(count - 1).drop_first() =~= listing.skip(count));
        let entry = entries.pop().unwrap();
        assert(entry@ == last);
        assert(protocol::listing_view(entries@) =~= listing.take(count - 1));
        match entry {
            Listed::Failed(failure) => {
                let task = CopyTask::Fail(failure);
                proof {
                    lemma_stack_push(tasks@, task);
                }
                tasks.push(task);
            },
            Listed::Found { name, kind } => match kind {
                EntryKind::Directory => {
                    if !is_git_dir(&name) {
                        let task = CopyTask::Do(CopyRequest::MakeDir(place_of(place, name)));
                        proof {
                            lemma_stack_push(tasks@, task);
                        }
                        tasks.push(task);
                    }
                },
                _ => {
                    let task = CopyTask::Do(CopyRequest::CopyFile(place_of(place, name)));
                    proof {
                        lemma_stack_push(tasks@, task);
                    }
                    tasks.push(task);
                },
            },
        }
        assert(stack_view(tasks@) =~= entry_task(at, last) + before);
        assert(stack_view(tasks@) =~= entry_tasks(at, listing.skip(count - 1)) + rest);
    }
    assert(listing.skip(0) =~= listing);
}

impl CopyRun {
    /// The request that waits for a reply.
    pub fn request(&self) -> (request: Option<CopyRequest<Vec<Vec<u8>>>>)
        ensures
            (match request {
                Some(request) => Some(request@),
                None => None,
            }) == self@.pending(),
    {
        let count: usize = self.tasks.len();
        if count == 0 {
            return None;
        }
        assert(self@.tasks[0] == self.tasks@[count - 1]@);
        match &self.tasks[count - 1] {
            CopyTask::Fail(_) => None,
            CopyTask::Do(CopyRequest::MakeDir(place)) => Some(
                CopyRequest::MakeDir(copy_place(place)),
            ),
            CopyTask::Do(CopyRequest::List(place)) => Some(CopyRequest::List(copy_place(place))),
            CopyTask::Do(CopyRequest::CopyFile(place)) => Some(
                CopyRequest::CopyFile(copy_place(place)),
            ),
        }
    }

    /// The outcome, once there is one.
    pub fn result(&self) -> (result: Option<Result<(), Failure>>)
        ensures
            result == self@.outcome(),
    {
        let count: usize = self.tasks.len();
        if count == 0 {
            return Some(Ok(()));
        }
        assert(self@.tasks[0] == self.tasks@[count - 1]@);
        match &self.tasks[count - 1] {
            CopyTask::Do(_) => None,
            CopyTask::Fail(failure) => Some(Err(*failure)),
        }
    }

    /// A copy that stops with a failure.
    fn stopped(failure: Failure) -> (run: CopyRun)
        ensures
            run@.tasks == seq![CopyTask::<Seq<Seq<u8>>>::Fail(failure)],
    {
        let run = CopyRun { tasks: vec![CopyTask::Fail(failure)] };
        assert(run@.tasks =~= seq![CopyTask::<Seq<Seq<u8>>>::Fail(failure)]);
        run
    }

    /// Takes a reply.
    pub fn advance(self, reply: FsReply) -> (run: CopyRun)
        ensures
            run@ == self@.next(reply@),
    {
        let mut tasks = self.tasks;
        let ghost whole = tasks@;
        match tasks.pop() {
            None => CopyRun { tasks },
            Some(task) => {
                assert(stack_view(whole)[0] == task@);
                assert(stack_view(whole).drop_first() =~= stack_view(tasks@));
                assert(stack_view(whole) =~= seq![task@] + stack_view(tasks@));
                match (task, reply) {
                    (CopyTask::Do(CopyRequest::MakeDir(place)), Reply::Outcome(result)) => {
                        match result {
                            Ok(_) => {
                                let list = CopyTask::Do(CopyRequest::List(place));
                                proof {
                                    lemma_stack_push(tasks@, list);
                                }
                                tasks.push(list);
                                CopyRun { tasks }
                            },
                            Err(failure) => CopyRun::stopped(failure),
                        }
                    },
                    (CopyTask::Do(CopyRequest::List(place)), Reply::Listing(result)) => {
                        match result {
                            Ok(entries) => {
                                push_entries(&mut tasks, &place, entries);
                                CopyRun { tasks }
                            },
                            Err(failure) => CopyRun::stopped(failure),
                        }
                    },
                    (CopyTask::Do(CopyRequest::CopyFile(_)), Reply::Outcome(result)) => {
                        match result {
                            Ok(_) => CopyRun { tasks },
                            Err(failure) => CopyRun::stopped(failure),
                        }
                    },
                    (task, _) => {
                        proof {
                            lemma_stack_push(tasks@, task);
                        }
                        tasks.push(task);
                        CopyRun { tasks }
                    },
                }
            },
        }
    }
}

/// The first state of a copy.
pub open spec fn copy_of_all() -> CopyView {
    CopyView { tasks: seq![CopyTask::Do(CopyRequest::MakeDir(seq![]))] }
}

/// Starts copying the source directory to the target directory.
pub fn copy_dir_recursive() -> (run: CopyRun)
    ensures
        run@ == copy_of_all(),
        forall|world: CopyWorld, depth: nat|
            (#[trigger] copy_dir(world, seq![], depth)) matches Some(trace) ==> protocol::ends(
                run@,
                world,
                trace.requests,
                trace.result,
            ),
{
    let place: Vec<Vec<u8>> = Vec::new();
    let run = CopyRun { tasks: vec![CopyTask::Do(CopyRequest::MakeDir(place))] };
    assert(names_view(place@) =~= seq![]);
    assert(run@.tasks =~= copy_of_all().tasks);
    proof {
        assert forall|world: CopyWorld, depth: nat|
            (#[trigger] copy_dir(world, seq![], depth)) matches Some(trace) implies protocol::ends(
            run@,
            world,
            copy_dir(world, seq![], depth)->0.requests,
            copy_dir(world, seq![], depth)->0.result,
        ) by {
            lemma_copy_ends(world, depth);
        }
    }
    run
}

/// A copy does what `copy_dir` says of the whole directory.
pub proof fn lemma_copy_ends(world: CopyWorld, depth: nat)
    requires
        copy_dir(world, seq![], depth) is Some,
    ensures
        protocol::ends(
            copy_of_all(),
            world,
            copy_dir(world, seq![], depth)->0.requests,
            copy_dir(world, seq![], depth)->0.result,
        ),
{
    let rest = Seq::<CopyTask<Seq<Seq<u8>>>>::empty();
    let later = CopyTrace { requests: seq![], result: Ok(()) };
    protocol::lemma_ends_now(CopyView { tasks: rest }, world, Ok(()));
    lemma_dir_is_copied(world, seq![], depth, rest, later);
    let trace = copy_dir(world, seq![], depth)->0;
    let finish = one_then(Some(trace), Some(later))->0;
    assert(finish.requests =~= trace.requests);
    match trace.result {
        Ok(done) => {
            assert(done == ());
        },
        Err(_) => {},
    }
    assert(finish.result == trace.result);
    assert(seq![CopyTask::Do(CopyRequest::MakeDir(seq![]))] + rest =~= copy_of_all().tasks);
}

} // verus!
