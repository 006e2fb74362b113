//! What can be relied on when a directory is copied.

#[allow(unused_imports)]
use crate::copy;
use crate::copy::{CopyRequest, CopyTask, CopyView, CopyWorld};
use crate::path::PathView;
#[allow(unused_imports)]
use crate::protocol;
use crate::protocol::{EntryKind, Failure, Listed, Protocol, Reply, ReplyView};
use vstd::prelude::*;

verus! {

/// The place that a request is about, seen from a directory further up.
spec fn lowered_request(
    way: Seq<Seq<u8>>,
    request: CopyRequest<Seq<Seq<u8>>>,
) -> CopyRequest<Seq<Seq<u8>>> {
    match request {
        CopyRequest::MakeDir(place) => CopyRequest::MakeDir(way + place),
        CopyRequest::List(place) => CopyRequest::List(way + place),
        CopyRequest::CopyFile(place) => CopyRequest::CopyFile(way + place),
    }
}

spec fn lowered_task(way: Seq<Seq<u8>>, task: CopyTask<Seq<Seq<u8>>>) -> CopyTask<Seq<Seq<u8>>> {
    match task {
        CopyTask::Do(request) => CopyTask::Do(lowered_request(way, request)),
        CopyTask::Fail(failure) => CopyTask::Fail(failure),
    }
}

spec fn lowered_tasks(way: Seq<Seq<u8>>, tasks: Seq<CopyTask<Seq<Seq<u8>>>>) -> Seq<
    CopyTask<Seq<Seq<u8>>>,
> {
    Seq::new(tasks.len(), |i: int| lowered_task(way, tasks[i]))
}

spec fn lowered_requests(way: Seq<Seq<u8>>, requests: Seq<CopyRequest<Seq<Seq<u8>>>>) -> Seq<
    CopyRequest<Seq<Seq<u8>>>,
> {
    Seq::new(requests.len(), |i: int| lowered_request(way, requests[i]))
}

spec fn place_of_request(request: CopyRequest<Seq<Seq<u8>>>) -> Seq<Seq<u8>> {
    match request {
        CopyRequest::MakeDir(place) => place,
        CopyRequest::List(place) => place,
        CopyRequest::CopyFile(place) => place,
    }
}

/// Every task is about a place at least `least` steps down.
spec fn at_least(least: nat, tasks: Seq<CopyTask<Seq<Seq<u8>>>>) -> bool {
    forall|i: int|
        0 <= i < tasks.len() ==> match #[trigger] tasks[i] {
            CopyTask::Do(request) => place_of_request(request).len() >= least,
            CopyTask::Fail(_) => true,
        }
}

proof fn lemma_entry_tasks_are_below(
    way: Seq<Seq<u8>>,
    place: Seq<Seq<u8>>,
    entries: Seq<Listed<Seq<u8>>>,
    least: nat,
)
    requires
        place.len() + 1 >= least,
    ensures
        at_least(least, copy::entry_tasks(place, entries)),
        copy::entry_tasks(way + place, entries) == lowered_tasks(
            way,
            copy::entry_tasks(place, entries),
        ),
    decreases entries.len(),
{
    let below = copy::entry_tasks(place, entries);
    if entries.len() > 0 {
        let rest = entries.drop_first();
        lemma_entry_tasks_are_below(way, place, rest, least);
        let first = copy::entry_task(place, entries[0]);
        match entries[0] {
            Listed::Failed(_) => {},
            Listed::Found { name, kind } => {
                assert((way + place).push(name) =~= way + place.push(name));
            },
        }
        assert(below == first + copy::entry_tasks(place, rest));
        assert forall|i: int| 0 <= i < below.len() implies match #[trigger] below[i] {
            CopyTask::Do(request) => place_of_request(request).len() >= least,
            CopyTask::Fail(_) => true,
        } by {
            if i >= first.len() {
                assert(below[i] == copy::entry_tasks(place, rest)[i - first.len()]);
            }
        }
        assert(copy::entry_task(way + place, entries[0]) =~= lowered_tasks(way, first));
    }
    assert(copy::entry_tasks(way + place, entries) =~= lowered_tasks(way, below));
}

/// A copy of what lies below `way` goes as a copy that starts there.
proof fn lemma_copy_goes_the_same_below(
    way: Seq<Seq<u8>>,
    least: nat,
    tasks: Seq<CopyTask<Seq<Seq<u8>>>>,
    below: CopyWorld,
    world: CopyWorld,
    requests: Seq<CopyRequest<Seq<Seq<u8>>>>,
    result: Result<(), Failure>,
)
    requires
        at_least(least, tasks),
        forall|place: Seq<Seq<u8>>|
            place.len() >= least ==> (#[trigger] (below.made)(place)) == (world.made)(way + place),
        forall|place: Seq<Seq<u8>>|
            place.len() >= least ==> (#[trigger] (below.listed)(place)) == (world.listed)(
                way + place,
            ),
        forall|place: Seq<Seq<u8>>|
            place.len() >= least ==> (#[trigger] (below.copied)(place)) == (world.copied)(
                way + place,
            ),
        protocol::ends(CopyView { tasks }, below, requests, result),
    ensures
        protocol::ends(
            CopyView { tasks: lowered_tasks(way, tasks) },
            world,
            lowered_requests(way, requests),
            result,
        ),
    decreases requests.len(),
{
    let run = CopyView { tasks };
    let here = CopyView { tasks: lowered_tasks(way, tasks) };
    protocol::law_runs_go_request_by_request(run, below, requests, result);
    if requests.len() == 0 {
        protocol::lemma_ends_now(here, world, result);
        assert(lowered_requests(way, requests) =~= Seq::<CopyRequest<Seq<Seq<u8>>>>::empty());
    } else {
        let request = requests[0];
        let reply = CopyView::reply(below, request);
        let next = run.next(reply);
        let rest = tasks.drop_first();
        let lowered = lowered_request(way, request);
        assert(tasks[0] == CopyTask::Do(request));
        assert(place_of_request(request).len() >= least);
        assert(reply == CopyView::reply(world, lowered)) by {
            match request {
                CopyRequest::MakeDir(place) => {
                    assert((below.made)(place) == (world.made)(way + place));
                },
                CopyRequest::List(place) => {
                    assert((below.listed)(place) == (world.listed)(way + place));
                },
                CopyRequest::CopyFile(place) => {
                    assert((below.copied)(place) == (world.copied)(way + place));
                },
            }
        }
        assert(at_least(least, rest)) by {
            assert forall|i: int| 0 <= i < rest.len() implies match #[trigger] rest[i] {
                CopyTask::Do(request) => place_of_request(request).len() >= least,
                CopyTask::Fail(_) => true,
            } by {
                assert(rest[i] == tasks[i + 1]);
            }
        }
        assert(here.tasks.drop_first() =~= lowered_tasks(way, rest));
        match (request, reply) {
            (CopyRequest::List(place), Reply::Listing(Ok(entries))) => {
                lemma_entry_tasks_are_below(way, place, entries, least);
            },
            _ => {},
        }
        let after = here.next(reply);
        assert(after.tasks =~= lowered_tasks(way, next.tasks));
        assert(at_least(least, next.tasks));
        lemma_copy_goes_the_same_below(
            way,
            least,
            next.tasks,
            below,
            world,
            requests.drop_first(),
            result,
        );
        let later = lowered_requests(way, requests.drop_first());
        protocol::lemma_ends_step(here, world, lowered, later, result);
        assert(seq![lowered] + later =~= lowered_requests(way, requests));
    }
}

/// A copy does its tasks one after the other, and stops at the first failure.
proof fn lemma_tasks_follow_each_other(
    first: Seq<CopyTask<Seq<Seq<u8>>>>,
    second: Seq<CopyTask<Seq<Seq<u8>>>>,
    world: CopyWorld,
    requests: Seq<CopyRequest<Seq<Seq<u8>>>>,
    result: Result<(), Failure>,
    later_requests: Seq<CopyRequest<Seq<Seq<u8>>>>,
    later_result: Result<(), Failure>,
)
    requires
        protocol::ends(CopyView { tasks: first }, world, requests, result),
        result is Ok ==> protocol::ends(
            CopyView { tasks: second },
            world,
            later_requests,
            later_result,
        ),
    ensures
        result is Ok ==> protocol::ends(
            CopyView { tasks: first + second },
            world,
            requests + later_requests,
            later_result,
        ),
        result is Err ==> protocol::ends(
            CopyView { tasks: first + second },
            world,
            requests,
            result,
        ),
    decreases requests.len(),
{
    let run = CopyView { tasks: first };
    let here = CopyView { tasks: first + second };
    protocol::law_runs_go_request_by_request(run, world, requests, result);
    if requests.len() == 0 {
        if first.len() == 0 {
            assert(first + second =~= second);
            assert(requests + later_requests =~= later_requests);
        } else {
            assert(here.tasks[0] == first[0]);
            protocol::lemma_ends_now(here, world, result);
            assert(requests =~= Seq::<CopyRequest<Seq<Seq<u8>>>>::empty());
        }
    } else {
        let request = requests[0];
        let reply = CopyView::reply(world, request);
        let next = run.next(reply);
        let after = here.next(reply);
        let rest = requests.drop_first();
        assert(here.tasks[0] == first[0]);
        assert(here.tasks.drop_first() =~= first.drop_first() + second);
        assert(seq![request] + rest =~= requests);
        assert(seq![request] + (rest + later_requests) =~= requests + later_requests);
        let failed = match reply {
            Reply::Outcome(Err(_)) => true,
            Reply::Listing(Err(_)) => true,
            _ => false,
        };
        if failed {
            assert(after == next);
            let none = Seq::<CopyRequest<Seq<Seq<u8>>>>::empty();
            let why = next.outcome()->0;
            protocol::lemma_ends_now(next, world, why);
            protocol::law_runs_end_one_way(next, world, (rest, result), (none, why));
            protocol::lemma_ends_step(here, world, request, rest, result);
        } else {
            assert(after.tasks =~= next.tasks + second);
            lemma_tasks_follow_each_other(
                next.tasks,
                second,
                world,
                rest,
                result,
                later_requests,
                later_result,
            );
            if result is Ok {
                protocol::lemma_ends_step(
                    here,
                    world,
                    request,
                    rest + later_requests,
                    later_result,
                );
            } else {
                protocol::lemma_ends_step(here, world, request, rest, result);
            }
        }
    }
}

/// A copy makes the target directory first and then lists the source, and ends with the
/// first of the two that fails. A directory without entries is copied with that.
pub proof fn law_copy_makes_and_lists_first(world: CopyWorld)
    ensures
        ({
            let top = Seq::<Seq<u8>>::empty();
            match ((world.made)(top), (world.listed)(top)) {
                (Err(failure), _) => protocol::ends(
                    copy::copy_of_all(),
                    world,
                    seq![CopyRequest::MakeDir(top)],
                    Err(failure),
                ),
                (Ok(_), Err(failure)) => protocol::ends(
                    copy::copy_of_all(),
                    world,
                    seq![CopyRequest::MakeDir(top), CopyRequest::List(top)],
                    Err(failure),
                ),
                (Ok(_), Ok(entries)) => entries.len() == 0 ==> protocol::ends(
                    copy::copy_of_all(),
                    world,
                    seq![CopyRequest::MakeDir(top), CopyRequest::List(top)],
                    Ok(()),
                ),
            }
        }),
{
    let top = Seq::<Seq<u8>>::empty();
    let make = CopyRequest::MakeDir(top);
    let list = CopyRequest::List(top);
    let none = Seq::<CopyRequest<Seq<Seq<u8>>>>::empty();
    let run = copy::copy_of_all();
    assert(run.tasks[0] == CopyTask::Do(make));
    let made = run.next(CopyView::reply(world, make));
    let listed = made.next(CopyView::reply(world, list));
    match ((world.made)(top), (world.listed)(top)) {
        (Err(failure), _) => {
            protocol::lemma_ends_now(made, world, Err(failure));
            protocol::lemma_ends_step(run, world, make, none, Err(failure));
            assert(seq![make] + none =~= seq![make]);
        },
        (Ok(_), Err(failure)) => {
            protocol::lemma_ends_now(listed, world, Err(failure));
            protocol::lemma_ends_step(made, world, list, none, Err(failure));
            protocol::lemma_ends_step(run, world, make, seq![list] + none, Err(failure));
            assert(seq![make] + (seq![list] + none) =~= seq![make, list]);
        },
        (Ok(_), Ok(entries)) => {
            if entries.len() == 0 {
                assert(listed.tasks =~= Seq::<CopyTask<Seq<Seq<u8>>>>::empty());
                protocol::lemma_ends_now(listed, world, Ok(()));
                protocol::lemma_ends_step(made, world, list, none, Ok(()));
                protocol::lemma_ends_step(run, world, make, seq![list] + none, Ok(()));
                assert(seq![make] + (seq![list] + none) =~= seq![make, list]);
            }
        },
    }
}

/// A copy that has made and listed its directory has the entries to do.
proof fn lemma_after_listing(
    world: CopyWorld,
    requests: Seq<CopyRequest<Seq<Seq<u8>>>>,
    result: Result<(), Failure>,
)
    requires
        (world.made)(Seq::empty()) is Ok,
        (world.listed)(Seq::empty()) is Ok,
        protocol::ends(copy::copy_of_all(), world, requests, result),
    ensures
        requests.len() >= 2,
        protocol::ends(
            CopyView {
                tasks: copy::entry_tasks(Seq::empty(), (world.listed)(Seq::empty())->Ok_0),
            },
            world,
            requests.skip(2),
            result,
        ),
{
    let top = Seq::<Seq<u8>>::empty();
    let make = CopyRequest::MakeDir(top);
    let list = CopyRequest::List(top);
    let run = copy::copy_of_all();
    assert(run.tasks[0] == CopyTask::Do(make));
    let made = run.next(CopyView::reply(world, make));
    let listed = made.next(CopyView::reply(world, list));
    protocol::law_runs_go_request_by_request(run, world, requests, result);
    protocol::law_runs_go_request_by_request(made, world, requests.drop_first(), result);
    assert(requests.drop_first().drop_first() =~= requests.skip(2));
    assert(listed.tasks =~= copy::entry_tasks(top, (world.listed)(top)->Ok_0));
}

/// The entries that a copy has to do follow making and listing the directory.
proof fn lemma_before_listing(
    world: CopyWorld,
    requests: Seq<CopyRequest<Seq<Seq<u8>>>>,
    result: Result<(), Failure>,
)
    requires
        (world.made)(Seq::empty()) is Ok,
        (world.listed)(Seq::empty()) is Ok,
        protocol::ends(
            CopyView {
                tasks: copy::entry_tasks(Seq::empty(), (world.listed)(Seq::empty())->Ok_0),
            },
            world,
            requests,
            result,
        ),
    ensures
        protocol::ends(
            copy::copy_of_all(),
            world,
            seq![CopyRequest::MakeDir(Seq::empty()), CopyRequest::List(Seq::empty())] + requests,
            result,
        ),
{
    let top = Seq::<Seq<u8>>::empty();
    let make = CopyRequest::MakeDir(top);
    let list = CopyRequest::List(top);
    let run = copy::copy_of_all();
    assert(run.tasks[0] == CopyTask::Do(make));
    let made = run.next(CopyView::reply(world, make));
    let listed = made.next(CopyView::reply(world, list));
    assert(listed.tasks =~= copy::entry_tasks(top, (world.listed)(top)->Ok_0));
    protocol::lemma_ends_step(made, world, list, requests, result);
    protocol::lemma_ends_step(run, world, make, seq![list] + requests, result);
    assert(seq![make] + (seq![list] + requests) =~= seq![make, list] + requests);
}

/// A directory is copied entry by entry, in the order in which the entries were read. An
/// entry that cannot be read ends the copy. A directory by the name `.git` makes no
/// difference at all. Any other directory is copied as it would be by itself, one step
/// further down, and whatever is no directory is copied as a file. If that goes well the
/// copy does with the other entries what it does without this one; and else it ends with
/// the reason.
pub proof fn law_copy_goes_entry_by_entry(
    world: CopyWorld,
    later_requests: Seq<CopyRequest<Seq<Seq<u8>>>>,
    later_result: Result<(), Failure>,
    inner_requests: Seq<CopyRequest<Seq<Seq<u8>>>>,
    inner_result: Result<(), Failure>,
)
    requires
        (world.made)(Seq::empty()) is Ok,
        (world.listed)(Seq::empty()) is Ok,
        (world.listed)(Seq::empty())->Ok_0.len() > 0,
        ({
            let entries = (world.listed)(Seq::empty())->Ok_0;
            let others = CopyWorld {
                made: world.made,
                listed: |place: Seq<Seq<u8>>|
                    if place.len() == 0 {
                        Ok(entries.drop_first())
                    } else {
                        (world.listed)(place)
                    },
                copied: world.copied,
            };
            match entries[0] {
                Listed::Failed(_) => true,
                Listed::Found { name, kind } => {
                    let inside = CopyWorld {
                        made: |place: Seq<Seq<u8>>| (world.made)(seq![name] + place),
                        listed: |place: Seq<Seq<u8>>| (world.listed)(seq![name] + place),
                        copied: |place: Seq<Seq<u8>>| (world.copied)(seq![name] + place),
                    };
                    let left_out = kind == EntryKind::Directory && name == seq![
                        0x2eu8,
                        0x67u8,
                        0x69u8,
                        0x74u8,
                    ];
                    &&& kind == EntryKind::Directory && !left_out ==> protocol::ends(
                        copy::copy_of_all(),
                        inside,
                        inner_requests,
                        inner_result,
                    )
                    &&& left_out || (kind == EntryKind::Directory && inner_result is Ok) || (kind
                        != EntryKind::Directory && (world.copied)(seq![name]) is Ok)
                        ==> protocol::ends(
                        copy::copy_of_all(),
                        others,
                        later_requests,
                        later_result,
                    )
                },
            }
        }),
    ensures
        ({
            let top = Seq::<Seq<u8>>::empty();
            let begin = seq![CopyRequest::MakeDir(top), CopyRequest::List(top)];
            match (world.listed)(top)->Ok_0[0] {
                Listed::Failed(failure) => protocol::ends(
                    copy::copy_of_all(),
                    world,
                    begin,
                    Err(failure),
                ),
                Listed::Found { name, kind } => {
                    if kind != EntryKind::Directory {
                        let file = begin + seq![CopyRequest::CopyFile(seq![name])];
                        match (world.copied)(seq![name]) {
                            Ok(_) => protocol::ends(
                                copy::copy_of_all(),
                                world,
                                file + later_requests.skip(2),
                                later_result,
                            ),
                            Err(failure) => protocol::ends(
                                copy::copy_of_all(),
                                world,
                                file,
                                Err(failure),
                            ),
                        }
                    } else if name == seq![0x2eu8, 0x67u8, 0x69u8, 0x74u8] {
                        protocol::ends(copy::copy_of_all(), world, later_requests, later_result)
                    } else {
                        let within = inner_requests.map_values(
                            |request: CopyRequest<Seq<Seq<u8>>>|
                                match request {
                                    CopyRequest::MakeDir(place) => CopyRequest::MakeDir(
                                        seq![name] + place,
                                    ),
                                    CopyRequest::List(place) => CopyRequest::List(
                                        seq![name] + place,
                                    ),
                                    CopyRequest::CopyFile(place) => CopyRequest::CopyFile(
                                        seq![name] + place,
                                    ),
                                },
                        );
                        match inner_result {
                            Ok(_) => protocol::ends(
                                copy::copy_of_all(),
                                world,
                                begin + within + later_requests.skip(2),
                                later_result,
                            ),
                            Err(failure) => protocol::ends(
                                copy::copy_of_all(),
                                world,
                                begin + within,
                                Err(failure),
                            ),
                        }
                    }
                },
            }
        }),
{
    let top = Seq::<Seq<u8>>::empty();
    let begin = seq![CopyRequest::MakeDir(top), CopyRequest::List(top)];
    let entries = (world.listed)(top)->Ok_0;
    let rest = entries.drop_first();
    let first = copy::entry_task(top, entries[0]);
    let second = copy::entry_tasks(top, rest);
    let none = Seq::<CopyRequest<Seq<Seq<u8>>>>::empty();
    let others = CopyWorld {
        made: world.made,
        listed: |place: Seq<Seq<u8>>|
            if place.len() == 0 {
                Ok(rest)
            } else {
                (world.listed)(place)
            },
        copied: world.copied,
    };
    assert(copy::entry_tasks(top, entries) == first + second);
    match entries[0] {
        Listed::Failed(failure) => {
            let run = CopyView { tasks: first + second };
            assert(run.tasks[0] == first[0]);
            protocol::lemma_ends_now(run, world, Err(failure));
            lemma_before_listing(world, none, Err(failure));
            assert(begin + none =~= begin);
        },
        Listed::Found { name, kind } => {
            let left_out = kind == EntryKind::Directory && name == copy::git_dir();
            let goes_on = left_out || (kind == EntryKind::Directory && inner_result is Ok) || (kind
                != EntryKind::Directory && (world.copied)(seq![name]) is Ok);
            let tail = later_requests.skip(2);
            if goes_on {
                lemma_after_listing(others, later_requests, later_result);
                lemma_entry_tasks_are_below(top, top, rest, 1);
                assert forall|place: Seq<Seq<u8>>| place.len() >= 1 implies (
                #[trigger] (others.listed)(place)) == (world.listed)(top + place) by {
                    assert(top + place =~= place);
                }
                assert forall|place: Seq<Seq<u8>>| place.len() >= 1 implies (
                #[trigger] (others.made)(place)) == (world.made)(top + place) by {
                    assert(top + place =~= place);
                }
                assert forall|place: Seq<Seq<u8>>| place.len() >= 1 implies (
                #[trigger] (others.copied)(place)) == (world.copied)(top + place) by {
                    assert(top + place =~= place);
                }
                lemma_copy_goes_the_same_below(
                    top,
                    1,
                    second,
                    others,
                    world,
                    tail,
                    later_result,
                );
                assert(top + top =~= top);
                assert(lowered_tasks(top, second) == second);
                assert forall|i: int| 0 <= i < tail.len() implies lowered_request(
                    top,
                    #[trigger] tail[i],
                ) == tail[i] by {
                    let place = place_of_request(tail[i]);
                    assert(top + place =~= place);
                }
                assert(lowered_requests(top, tail) =~= tail);
                assert(protocol::ends(CopyView { tasks: second }, world, tail, later_result));
            }
            assert(top.push(name) =~= seq![name]);
            if kind != EntryKind::Directory {
                let file = CopyRequest::CopyFile(seq![name]);
                let run = CopyView { tasks: first };
                assert(run.tasks =~= seq![CopyTask::Do(file)]);
                let copied = run.next(CopyView::reply(world, file));
                let outcome = (world.copied)(seq![name]);
                match outcome {
                    Ok(done) => {
                        assert(done == ());
                        assert(copied.tasks =~= Seq::<CopyTask<Seq<Seq<u8>>>>::empty());
                    },
                    Err(_) => {},
                }
                protocol::lemma_ends_now(copied, world, outcome);
                protocol::lemma_ends_step(run, world, file, none, outcome);
                assert(seq![file] + none =~= seq![file]);
                lemma_tasks_follow_each_other(
                    first,
                    second,
                    world,
                    seq![file],
                    outcome,
                    tail,
                    later_result,
                );
                if outcome is Ok {
                    lemma_before_listing(world, seq![file] + tail, later_result);
                    assert(begin + (seq![file] + tail) =~= begin + seq![file] + tail);
                } else {
                    lemma_before_listing(world, seq![file], outcome);
                }
            } else if left_out {
                assert(first + second =~= second);
                lemma_before_listing(world, tail, later_result);
                lemma_start_of_copy(others, later_requests, later_result);
                assert(begin + tail =~= later_requests);
            } else {
                let inside = CopyWorld {
                    made: |place: Seq<Seq<u8>>| (world.made)(seq![name] + place),
                    listed: |place: Seq<Seq<u8>>| (world.listed)(seq![name] + place),
                    copied: |place: Seq<Seq<u8>>| (world.copied)(seq![name] + place),
                };
                let way = seq![name];
                let start = copy::copy_of_all().tasks;
                assert(at_least(0, start));
                lemma_copy_goes_the_same_below(
                    way,
                    0,
                    start,
                    inside,
                    world,
                    inner_requests,
                    inner_result,
                );
                assert(way + top =~= way);
                assert(lowered_tasks(way, start) =~= first);
                let within = lowered_requests(way, inner_requests);
                lemma_tasks_follow_each_other(
                    first,
                    second,
                    world,
                    within,
                    inner_result,
                    tail,
                    later_result,
                );
                assert(within =~= inner_requests.map_values(
                    |request: CopyRequest<Seq<Seq<u8>>>|
                        match request {
                            CopyRequest::MakeDir(place) => CopyRequest::MakeDir(seq![name] + place),
                            CopyRequest::List(place) => CopyRequest::List(seq![name] + place),
                            CopyRequest::CopyFile(place) => CopyRequest::CopyFile(
                                seq![name] + place,
                            ),
                        },
                ));
                if inner_result is Ok {
                    lemma_before_listing(world, within + tail, later_result);
                    assert(begin + (within + tail) =~= begin + within + tail);
                } else {
                    lemma_before_listing(world, within, inner_result);
                }
            }
        },
    }
}

proof fn lemma_start_of_copy(
    world: CopyWorld,
    requests: Seq<CopyRequest<Seq<Seq<u8>>>>,
    result: Result<(), Failure>,
)
    requires
        (world.made)(Seq::empty()) is Ok,
        (world.listed)(Seq::empty()) is Ok,
        protocol::ends(copy::copy_of_all(), world, requests, result),
    ensures
        requests == seq![
            CopyRequest::<Seq<Seq<u8>>>::MakeDir(Seq::empty()),
            CopyRequest::List(Seq::empty()),
        ] + requests.skip(2),
{
    lemma_after_listing(world, requests, result);
    lemma_before_listing(world, requests.skip(2), result);
    protocol::law_runs_end_one_way(
        copy::copy_of_all(),
        world,
        (requests, result),
        (
            seq![
                CopyRequest::<Seq<Seq<u8>>>::MakeDir(Seq::empty()),
                CopyRequest::List(Seq::empty()),
            ] + requests.skip(2),
            result,
        ),
    );
}

/// A copy comes to an end wherever directories are nested no deeper than some number of
/// steps.
pub proof fn law_copy_of_bounded_nesting_ends(world: CopyWorld, limit: nat)
    requires
        forall|place: Seq<Seq<u8>>, i: int|
            place.len() >= limit && (world.listed)(place) is Ok && 0 <= i < (world.listed)(
                place,
            )->Ok_0.len() ==> !((#[trigger] (world.listed)(place)->Ok_0[i]) matches Listed::Found {
                name,
                kind: EntryKind::Directory,
            }),
    ensures
        exists|requests: Seq<CopyRequest<Seq<Seq<u8>>>>, result: Result<(), Failure>| #[trigger]
            protocol::ends(copy::copy_of_all(), world, requests, result),
{
    lemma_bounded_dir_is_copied(world, Seq::empty(), limit, limit + 1);
    copy::lemma_copy_ends(world, limit + 1);
}

proof fn lemma_bounded_dir_is_copied(
    world: CopyWorld,
    place: Seq<Seq<u8>>,
    limit: nat,
    depth: nat,
)
    requires
        depth >= 1,
        place.len() + depth >= limit + 1,
        forall|place: Seq<Seq<u8>>, i: int|
            place.len() >= limit && (world.listed)(place) is Ok && 0 <= i < (world.listed)(
                place,
            )->Ok_0.len() ==> !((#[trigger] (world.listed)(place)->Ok_0[i]) matches Listed::Found {
                name,
                kind: EntryKind::Directory,
            }),
    ensures
        copy::copy_dir(world, place, depth) is Some,
    decreases depth, 0nat,
{
    if (world.listed)(place) is Ok {
        let entries = (world.listed)(place)->Ok_0;
        lemma_bounded_entries_are_copied(world, place, entries, limit, (depth - 1) as nat);
    }
}

proof fn lemma_bounded_entries_are_copied(
    world: CopyWorld,
    place: Seq<Seq<u8>>,
    entries: Seq<Listed<Seq<u8>>>,
    limit: nat,
    depth: nat,
)
    requires
        place.len() + depth >= limit,
        place.len() >= limit ==> forall|i: int|
            0 <= i < entries.len() ==> !((#[trigger] entries[i]) matches Listed::Found {
                name,
                kind: EntryKind::Directory,
            }),
        forall|place: Seq<Seq<u8>>, i: int|
            place.len() >= limit && (world.listed)(place) is Ok && 0 <= i < (world.listed)(
                place,
            )->Ok_0.len() ==> !((#[trigger] (world.listed)(place)->Ok_0[i]) matches Listed::Found {
                name,
                kind: EntryKind::Directory,
            }),
    ensures
        copy::copy_entries(world, place, entries, depth) is Some,
    decreases depth, entries.len() + 1,
{
    if entries.len() > 0 {
        let rest = entries.drop_first();
        assert forall|i: int| place.len() >= limit && 0 <= i < rest.len() implies !((
        #[trigger] rest[i]) matches Listed::Found { name, kind: EntryKind::Directory }) by {
            assert(rest[i] == entries[i + 1]);
        }
        lemma_bounded_entries_are_copied(world, place, rest, limit, depth);
        match entries[0] {
            Listed::Failed(_) => {},
            Listed::Found { name, kind } => {
                if kind == EntryKind::Directory {
                    assert(entries[0] is Found);
                    lemma_bounded_dir_is_copied(world, place.push(name), limit, depth);
                }
            },
        }
    }
}

/// A copy is told what the file system has to tell.
pub proof fn law_copy_is_told_the_truth(world: CopyWorld, place: Seq<Seq<u8>>)
    ensures
        CopyView::reply(world, CopyRequest::MakeDir(place)) == Reply::<
            PathView,
            Seq<Listed<Seq<u8>>>,
        >::Outcome((world.made)(place)),
        CopyView::reply(world, CopyRequest::List(place)) == Reply::<
            PathView,
            Seq<Listed<Seq<u8>>>,
        >::Listing((world.listed)(place)),
        CopyView::reply(world, CopyRequest::CopyFile(place)) == Reply::<
            PathView,
            Seq<Listed<Seq<u8>>>,
        >::Outcome((world.copied)(place)),
{
}

/// A reply of a kind that was not asked for leaves a copy where it is.
pub proof fn law_stray_replies_do_not_move_a_copy(run: CopyView, reply: ReplyView)
    requires
        match run.pending() {
            Some(CopyRequest::List(_)) => !(reply is Listing),
            Some(_) => !(reply is Outcome),
            None => true,
        },
    ensures
        run.next(reply) == run,
{
}

/// Contracts see the requests of a copy, and the places that they name, as they are.
pub proof fn law_copy_requests_are_seen_as_they_are(
    request: CopyRequest<Vec<Vec<u8>>>,
    place: Vec<Vec<u8>>,
)
    ensures
        copy::names_view(place@).len() == place@.len(),
        forall|i: int|
            0 <= i < place@.len() ==> #[trigger] copy::names_view(place@)[i] == place@[i]@,
        request == CopyRequest::MakeDir(place) ==> request@ == CopyRequest::MakeDir(
            copy::names_view(place@),
        ),
        request == CopyRequest::List(place) ==> request@ == CopyRequest::List(
            copy::names_view(place@),
        ),
        request == CopyRequest::CopyFile(place) ==> request@ == CopyRequest::CopyFile(
            copy::names_view(place@),
        ),
{
}

} // verus!
