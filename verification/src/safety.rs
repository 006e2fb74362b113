//! What can be relied on of every sync: what it asks for, in which order, and what it
//! reports.

#[allow(unused_imports)]
use crate::copy;
use crate::copy::CopyRequest;
#[allow(unused_imports)]
use crate::current;
use crate::current::CheckRequest;
#[allow(unused_imports)]
use crate::guard;
use crate::guard::GuardWorld;
use crate::mode::{Platform, SyncMode};
#[allow(unused_imports)]
use crate::path;
use crate::path::{PathPart, PathView};
#[allow(unused_imports)]
use crate::protocol;
use crate::protocol::{Failure, FileKind};
#[allow(unused_imports)]
use crate::removal;
use crate::removal::{Removal, RemovalRequest, RemovalWorld};
#[allow(unused_imports)]
use crate::sync;
use crate::sync::{SyncError, SyncRequest, SyncTrace, SyncWorld};
#[allow(unused_imports)]
use crate::tree;
use crate::tree::Child;
use vstd::prelude::*;

verus! {

/// Whether a request, carried out, changes what stands at the target.
pub open spec fn touches_target(request: SyncRequest<Seq<Seq<u8>>>) -> bool {
    match request {
        SyncRequest::Remove(RemovalRequest::Remove(_)) => true,
        SyncRequest::CreateLink => true,
        SyncRequest::CreateJunction => true,
        SyncRequest::Copy(CopyRequest::MakeDir(_)) => true,
        SyncRequest::Copy(CopyRequest::CopyFile(_)) => true,
        _ => false,
    }
}

/// Whether a request, carried out, changes anything on disk.
pub open spec fn writes(request: SyncRequest<Seq<Seq<u8>>>) -> bool {
    request == SyncRequest::<Seq<Seq<u8>>>::CreateParent || touches_target(request)
}

/// The requests by which a sync checks whether the target is current.
pub open spec fn looking(
    source: PathView,
    target: PathView,
    mode: SyncMode,
    world: SyncWorld,
) -> Seq<SyncRequest<Seq<Seq<u8>>>> {
    sync::check_part(current::check_requests(source, target, mode, None, None, world.check))
}

/// The requests of a sync up to and with those of the first guard.
pub open spec fn up_to_guard(
    source: PathView,
    target: PathView,
    mode: SyncMode,
    world: SyncWorld,
) -> Seq<SyncRequest<Seq<Seq<u8>>>> {
    looking(source, target, mode, world) + seq![SyncRequest::Mute] + sync::guard_part(
        guard::guard_requests(source, target, world.guard),
    )
}

/// Making the parent directory and asking the guard again, where the target has a parent.
pub open spec fn parent_part(source: PathView, target: PathView, world: SyncWorld) -> Seq<
    SyncRequest<Seq<Seq<u8>>>,
> {
    if target.parent() is None {
        seq![]
    } else {
        seq![SyncRequest::CreateParent] + sync::guard_again_part(
            guard::guard_requests(source, target, world.guard_again),
        )
    }
}

/// What the guard was replied when it was last asked before the target is touched.
pub open spec fn last_look(target: PathView, world: SyncWorld) -> GuardWorld {
    if target.parent() is None {
        world.guard
    } else {
        world.guard_again
    }
}

/// Whether a sync comes as far as replacing what stands at the target: the target is not
/// current, the guard lets source and target pass each time it is asked, and the parent
/// directory can be made.
pub open spec fn replaces(
    source: PathView,
    target: PathView,
    mode: SyncMode,
    world: SyncWorld,
) -> bool {
    &&& !current::target_current(source, target, mode, None, None, world.check)
    &&& guard::guard_verdict(source, target, world.guard) is Ok
    &&& target.parent() is Some ==> world.parent is Ok && guard::guard_verdict(
        source,
        target,
        world.guard_again,
    ) is Ok
}

proof fn lemma_up_to_guard_writes_nothing(
    source: PathView,
    target: PathView,
    mode: SyncMode,
    world: SyncWorld,
)
    ensures
        forall|i: int|
            0 <= i < up_to_guard(source, target, mode, world).len() ==> !writes(
                #[trigger] up_to_guard(source, target, mode, world)[i],
            ),
{
}

/// What a sync amounts to that replaces what stands at the target.
pub proof fn lemma_replacing_sync(
    source: PathView,
    target: PathView,
    mode: SyncMode,
    platform: Platform,
    world: SyncWorld,
    depth: nat,
)
    requires
        sync::syncing(source, target, mode, platform, world, depth) is Some,
        replaces(source, target, mode, world),
    ensures
        sync::placing(mode, platform, world, depth) is Some,
        ({
            let trace = sync::syncing(source, target, mode, platform, world, depth)->0;
            let placed = sync::placing(mode, platform, world, depth)->0;
            &&& trace.requests == up_to_guard(source, target, mode, world) + parent_part(
                source,
                target,
                world,
            ) + sync::removal_part(removal::removal_requests(platform, world.removal))
                + placed.requests
            &&& trace.result == placed.result
        }),
{
    let trace = sync::syncing(source, target, mode, platform, world, depth)->0;
    let placed = sync::placing(mode, platform, world, depth)->0;
    assert(trace.requests =~= up_to_guard(source, target, mode, world) + parent_part(source, target, world)
        + sync::removal_part(removal::removal_requests(platform, world.removal)) + placed.requests);
}

/// What a sync amounts to that does not: it looks, and at most makes the parent directory
/// and looks again.
pub proof fn lemma_other_sync(
    source: PathView,
    target: PathView,
    mode: SyncMode,
    platform: Platform,
    world: SyncWorld,
    depth: nat,
)
    requires
        !replaces(source, target, mode, world),
    ensures
        sync::syncing(source, target, mode, platform, world, depth) == Some(
            if current::target_current(source, target, mode, None, None, world.check) {
                SyncTrace { requests: looking(source, target, mode, world), result: Ok(mode) }
            } else if guard::guard_verdict(source, target, world.guard) is Err {
                SyncTrace {
                    requests: up_to_guard(source, target, mode, world),
                    result: Err(
                        SyncError::Refused(guard::guard_verdict(source, target, world.guard)->Err_0),
                    ),
                }
            } else if world.parent is Err {
                SyncTrace {
                    requests: up_to_guard(source, target, mode, world).push(
                        SyncRequest::CreateParent,
                    ),
                    result: Err(SyncError::ParentNotCreated(world.parent->Err_0)),
                }
            } else {
                SyncTrace {
                    requests: up_to_guard(source, target, mode, world) + parent_part(source, target, world),
                    result: Err(
                        SyncError::Refused(guard::guard_verdict(source, target, world.guard_again)->Err_0),
                    ),
                }
            },
        ),
{
    let trace = sync::syncing(source, target, mode, platform, world, depth)->0;
    let head = up_to_guard(source, target, mode, world);
    if current::target_current(source, target, mode, None, None, world.check) {
        assert(trace.requests =~= looking(source, target, mode, world));
    } else if guard::guard_verdict(source, target, world.guard) is Err {
        assert(trace.requests =~= head);
    } else if world.parent is Err {
        assert(trace.requests =~= head.push(SyncRequest::CreateParent));
    } else {
        assert(trace.requests =~= head + parent_part(source, target, world));
    }
}

/// A target that is current is left alone: the sync only looks, and reports the mode
/// that was asked for.
pub proof fn law_current_target_is_left_alone(
    source: PathView,
    target: PathView,
    mode: SyncMode,
    platform: Platform,
    world: SyncWorld,
    depth: nat,
)
    requires
        current::target_current(source, target, mode, None, None, world.check),
    ensures
        sync::syncing(source, target, mode, platform, world, depth) == Some(
            SyncTrace { requests: looking(source, target, mode, world), result: Ok(mode) },
        ),
{
    lemma_other_sync(source, target, mode, platform, world, depth);
}

/// A link that says where an absolute source is, is all that a sync needs to see.
pub proof fn law_link_to_the_source_is_left_alone(
    source: PathView,
    target: PathView,
    platform: Platform,
    world: SyncWorld,
    depth: nat,
    directory: bool,
)
    requires
        source.absolute,
        world.check.kind == Ok::<FileKind, Failure>(FileKind::Link { directory }),
        world.check.link == Ok::<PathView, Failure>(source),
    ensures
        sync::syncing(source, target, SyncMode::Symlink, platform, world, depth) == Some(
            SyncTrace {
                requests: seq![
                    SyncRequest::Check(CheckRequest::Inspect),
                    SyncRequest::Check(CheckRequest::ReadLink),
                ],
                result: Ok(SyncMode::Symlink),
            },
        ),
{
    current::law_link_to_absolute_source_is_current(
        source,
        target,
        None,
        None,
        world.check,
        directory,
    );
    law_current_target_is_left_alone(source, target, SyncMode::Symlink, platform, world, depth);
    assert(looking(source, target, SyncMode::Symlink, world) =~= seq![
        SyncRequest::<Seq<Seq<u8>>>::Check(CheckRequest::Inspect),
        SyncRequest::<Seq<Seq<u8>>>::Check(CheckRequest::ReadLink),
    ]);
}

/// Nothing on disk changes before the guard has looked at source and target and let them
/// pass.
pub proof fn law_guard_comes_before_writing(
    source: PathView,
    target: PathView,
    mode: SyncMode,
    platform: Platform,
    world: SyncWorld,
    depth: nat,
    at: int,
)
    requires
        sync::syncing(source, target, mode, platform, world, depth) is Some,
        0 <= at < sync::syncing(source, target, mode, platform, world, depth)->0.requests.len(),
        writes(sync::syncing(source, target, mode, platform, world, depth)->0.requests[at]),
    ensures
        guard::guard_verdict(source, target, world.guard) is Ok,
        up_to_guard(source, target, mode, world).len() <= at,
        up_to_guard(source, target, mode, world).is_prefix_of(
            sync::syncing(source, target, mode, platform, world, depth)->0.requests,
        ),
{
    let requests = sync::syncing(source, target, mode, platform, world, depth)->0.requests;
    let head = up_to_guard(source, target, mode, world);
    if replaces(source, target, mode, world) {
        lemma_replacing_sync(source, target, mode, platform, world, depth);
    } else {
        lemma_other_sync(source, target, mode, platform, world, depth);
    }
    lemma_up_to_guard_writes_nothing(source, target, mode, world);
    if current::target_current(source, target, mode, None, None, world.check) {
        assert(requests[at] == looking(source, target, mode, world)[at]);
    } else {
        if at < head.len() {
            assert(requests[at] == head[at]);
        }
        assert(head =~= requests.subrange(0, head.len() as int));
    }
}

/// Nothing at the target is touched before the guard, asked again once the parent directory
/// is there, has let source and target pass.
pub proof fn law_guard_is_asked_again_before_touching(
    source: PathView,
    target: PathView,
    mode: SyncMode,
    platform: Platform,
    world: SyncWorld,
    depth: nat,
    at: int,
)
    requires
        sync::syncing(source, target, mode, platform, world, depth) is Some,
        0 <= at < sync::syncing(source, target, mode, platform, world, depth)->0.requests.len(),
        touches_target(
            sync::syncing(source, target, mode, platform, world, depth)->0.requests[at],
        ),
    ensures
        guard::guard_verdict(source, target, last_look(target, world)) is Ok,
        ({
            let looks = up_to_guard(source, target, mode, world) + parent_part(source, target, world);
            let requests = sync::syncing(
                source,
                target,
                mode,
                platform,
                world,
                depth,
            )->0.requests;
            looks.len() <= at && looks.is_prefix_of(requests)
        }),
{
    let requests = sync::syncing(source, target, mode, platform, world, depth)->0.requests;
    let head = up_to_guard(source, target, mode, world);
    let looks = head + parent_part(source, target, world);
    lemma_up_to_guard_writes_nothing(source, target, mode, world);
    law_guard_comes_before_writing(source, target, mode, platform, world, depth, at);
    if replaces(source, target, mode, world) {
        lemma_replacing_sync(source, target, mode, platform, world, depth);
        if at < looks.len() {
            assert(requests[at] == looks[at]);
        }
        assert(looks =~= requests.subrange(0, looks.len() as int));
    } else {
        lemma_other_sync(source, target, mode, platform, world, depth);
        if !current::target_current(source, target, mode, None, None, world.check) {
            if world.parent is Ok {
                assert(requests[at] == looks[at]);
            }
        }
    }
}

/// Whether two looks find source and target at the same places.
pub open spec fn same_look(
    source: PathView,
    target: PathView,
    first: GuardWorld,
    second: GuardWorld,
) -> bool {
    &&& first.source.resolved == second.source.resolved
    &&& guard::whereabouts(source, first.source) == guard::whereabouts(source, second.source)
    &&& guard::whereabouts(target, first.target) == guard::whereabouts(target, second.target)
}

/// A refused sync writes nothing: neither at the target nor anywhere above it. That is so
/// where the first look is what refuses, and so too where the second look finds source and
/// target where the first one did.
pub proof fn law_refused_sync_writes_nothing(
    source: PathView,
    target: PathView,
    mode: SyncMode,
    platform: Platform,
    world: SyncWorld,
    depth: nat,
    at: int,
)
    requires
        sync::syncing(source, target, mode, platform, world, depth) is Some,
        sync::syncing(source, target, mode, platform, world, depth)->0.result matches Err(
            SyncError::Refused(_),
        ),
        guard::guard_verdict(source, target, world.guard) is Err || same_look(
            source,
            target,
            world.guard,
            world.guard_again,
        ),
        0 <= at < sync::syncing(source, target, mode, platform, world, depth)->0.requests.len(),
    ensures
        !writes(sync::syncing(source, target, mode, platform, world, depth)->0.requests[at]),
{
    if writes(sync::syncing(source, target, mode, platform, world, depth)->0.requests[at]) {
        law_guard_comes_before_writing(source, target, mode, platform, world, depth, at);
        if replaces(source, target, mode, world) {
            lemma_replacing_sync(source, target, mode, platform, world, depth);
        } else {
            lemma_other_sync(source, target, mode, platform, world, depth);
        }
    }
}

/// A refused sync leaves the target as it is, whenever the refusal comes.
pub proof fn law_refused_sync_touches_nothing(
    source: PathView,
    target: PathView,
    mode: SyncMode,
    platform: Platform,
    world: SyncWorld,
    depth: nat,
    at: int,
)
    requires
        sync::syncing(source, target, mode, platform, world, depth) is Some,
        sync::syncing(source, target, mode, platform, world, depth)->0.result matches Err(
            SyncError::Refused(_),
        ),
        0 <= at < sync::syncing(source, target, mode, platform, world, depth)->0.requests.len(),
    ensures
        !touches_target(
            sync::syncing(source, target, mode, platform, world, depth)->0.requests[at],
        ),
{
    if touches_target(
        sync::syncing(source, target, mode, platform, world, depth)->0.requests[at],
    ) {
        law_guard_is_asked_again_before_touching(source, target, mode, platform, world, depth, at);
        if replaces(source, target, mode, world) {
            lemma_replacing_sync(source, target, mode, platform, world, depth);
        } else {
            lemma_other_sync(source, target, mode, platform, world, depth);
        }
    }
}

/// A source that cannot be reached, and a source and a target that overlap, are refused
/// by a sync that has only looked, unless the target is current already.
pub proof fn law_overlap_is_refused(
    source: PathView,
    target: PathView,
    mode: SyncMode,
    platform: Platform,
    world: SyncWorld,
    depth: nat,
)
    requires
        guard::guard_verdict(source, target, world.guard) is Err,
        !current::target_current(source, target, mode, None, None, world.check),
    ensures
        sync::syncing(source, target, mode, platform, world, depth) == Some(
            SyncTrace {
                requests: up_to_guard(source, target, mode, world),
                result: Err(
                    SyncError::Refused(guard::guard_verdict(source, target, world.guard)->Err_0),
                ),
            },
        ),
{
    lemma_other_sync(source, target, mode, platform, world, depth);
}

/// The place that a request, carried out, changes or fills, the target being at `entry`.
pub open spec fn touched_place(
    entry: PathView,
    request: SyncRequest<Seq<Seq<u8>>>,
) -> PathView {
    match request {
        SyncRequest::Copy(CopyRequest::MakeDir(names)) => below_entry(entry, names),
        SyncRequest::Copy(CopyRequest::CopyFile(names)) => below_entry(entry, names),
        _ => entry,
    }
}

/// The place to which these names lead from the target.
pub open spec fn below_entry(entry: PathView, names: Seq<Seq<u8>>) -> PathView {
    PathView {
        absolute: entry.absolute,
        parts: entry.parts + Seq::new(names.len(), |i: int| PathPart::Normal(names[i])),
    }
}

/// A sync leaves the source alone: whatever it removes, makes or fills stands outside the
/// source, and does not hold the source either. That is so of the place to which the source
/// leads, and of the place at which it stands: where the source is a link, the link stays.
pub proof fn law_source_is_left_alone(
    source: PathView,
    target: PathView,
    mode: SyncMode,
    platform: Platform,
    world: SyncWorld,
    depth: nat,
    at: int,
)
    requires
        sync::syncing(source, target, mode, platform, world, depth) is Some,
        0 <= at < sync::syncing(source, target, mode, platform, world, depth)->0.requests.len(),
        touches_target(
            sync::syncing(source, target, mode, platform, world, depth)->0.requests[at],
        ),
        guard::entry_place(target, last_look(target, world).target) is Some,
    ensures
        ({
            let look = last_look(target, world);
            let touched = touched_place(
                guard::entry_place(target, look.target)->0,
                sync::syncing(source, target, mode, platform, world, depth)->0.requests[at],
            );
            &&& look.source.resolved is Ok
            &&& guard::overlap(look.source.resolved->Ok_0, touched) is Ok
            &&& guard::entry_place(source, look.source) is Some ==> guard::overlap(
                guard::entry_place(source, look.source)->0,
                touched,
            ) is Ok
        }),
{
    let request = sync::syncing(source, target, mode, platform, world, depth)->0.requests[at];
    law_guard_is_asked_again_before_touching(source, target, mode, platform, world, depth, at);
    let look = last_look(target, world);
    let entry = guard::entry_place(target, look.target)->0;
    let touched = touched_place(entry, request);
    assert(touched.is_within(entry)) by {
        assert(entry.parts =~= touched.parts.subrange(0, entry.parts.len() as int));
    }
    lemma_below_is_apart(look.source.resolved->Ok_0, entry, touched);
    if guard::entry_place(source, look.source) is Some {
        lemma_below_is_apart(guard::entry_place(source, look.source)->0, entry, touched);
    }
}

/// The directories that a sync makes above the target stand outside the source as well:
/// names lead down to them from the nearest directory that is there, `up` steps above the
/// target, and none of them lies in the source.
pub proof fn law_parent_is_made_outside_the_source(
    source: PathView,
    target: PathView,
    mode: SyncMode,
    platform: Platform,
    world: SyncWorld,
    depth: nat,
    at: int,
    up: nat,
    made: int,
)
    requires
        sync::syncing(source, target, mode, platform, world, depth) is Some,
        0 <= at < sync::syncing(source, target, mode, platform, world, depth)->0.requests.len(),
        sync::syncing(source, target, mode, platform, world, depth)->0.requests[at]
            == SyncRequest::<Seq<Seq<u8>>>::CreateParent,
        guard::nearest(target, world.guard.target, up),
        0 <= made < up,
    ensures
        ({
            let base = (world.guard.target.ancestors)(up as usize)->Ok_0;
            let place = PathView {
                absolute: base.absolute,
                parts: base.parts + target.last_parts(up).take(made),
            };
            &&& world.guard.source.resolved is Ok
            &&& !place.is_within(world.guard.source.resolved->Ok_0)
        }),
{
    law_guard_comes_before_writing(source, target, mode, platform, world, depth, at);
    guard::lemma_place_is_below_nearest(target, world.guard.target, up);
    path::lemma_depth_is_bounded(target);
    let base = (world.guard.target.ancestors)(up as usize)->Ok_0;
    let names = target.last_parts(up);
    let place = PathView { absolute: base.absolute, parts: base.parts + names.take(made) };
    let entry = guard::entry_place(target, world.guard.target)->0;
    let origin = world.guard.source.resolved->Ok_0;
    assert(entry.parts =~= place.parts + names.skip(made));
    if place.is_within(origin) {
        guard::lemma_below_is_within(origin, place, names.skip(made));
        assert(entry.is_within(origin));
    }
}

/// Once a missing parent directory is made, the second look finds the target where the
/// first one expected it: names lead on from the nearest directory that was there, `up` steps
/// above, the parent is where they led, and nothing stands in it yet.
pub proof fn law_second_look_confirms_the_first(
    source: PathView,
    target: PathView,
    first: GuardWorld,
    second: GuardWorld,
    up: nat,
)
    requires
        guard::nearest(target, first.target, up),
        first.source == second.source,
        first.target.resolved is Err,
        second.target.resolved is Err,
        ({
            let base = (first.target.ancestors)(up as usize)->Ok_0;
            (second.target.ancestors)(1) == Ok::<PathView, Failure>(
                PathView {
                    absolute: base.absolute,
                    parts: base.parts + target.last_parts(up).drop_last(),
                },
            )
        }),
    ensures
        same_look(source, target, first, second),
{
    path::lemma_depth_is_bounded(target);
    guard::lemma_place_is_below_nearest(target, first.target, up);
    let names = target.last_parts(up);
    let last = target.last_parts(1);
    assert(last =~= seq![names.last()]);
    assert(names[names.len() - 1] is Normal);
    assert(guard::nearest(target, second.target, 1));
    guard::lemma_place_is_below_nearest(target, second.target, 1);
    let base = (first.target.ancestors)(up as usize)->Ok_0;
    assert((base.parts + names.drop_last()) + last =~= base.parts + names);
}

/// What lies below a place that is apart from another is apart from it too.
proof fn lemma_below_is_apart(origin: PathView, entry: PathView, place: PathView)
    requires
        guard::overlap(origin, entry) is Ok,
        place.is_within(entry),
    ensures
        guard::overlap(origin, place) is Ok,
{
    let n = origin.parts.len() as int;
    let m = entry.parts.len() as int;
    assert(entry.parts =~= place.parts.subrange(0, m));
    if place.is_within(origin) {
        assert(origin.parts =~= place.parts.subrange(0, n));
        if n <= m {
            assert(origin.parts =~= entry.parts.subrange(0, n));
        } else {
            assert(entry.parts =~= origin.parts.subrange(0, m));
        }
    }
    if origin.is_within(place) {
        assert(entry.parts =~= origin.parts.subrange(0, m)) by {
            assert(place.parts =~= origin.parts.subrange(0, place.parts.len() as int));
            assert forall|i: int| 0 <= i < m implies entry.parts[i] == origin.parts[i] by {
                assert(place.parts.subrange(0, m)[i] == place.parts[i]);
                assert(origin.parts.subrange(0, place.parts.len() as int)[i] == origin.parts[i]);
            }
        }
    }
}

/// The watcher is told before anything on disk changes.
pub proof fn law_watcher_is_told_first(
    source: PathView,
    target: PathView,
    mode: SyncMode,
    platform: Platform,
    world: SyncWorld,
    depth: nat,
    at: int,
)
    requires
        sync::syncing(source, target, mode, platform, world, depth) is Some,
        0 <= at < sync::syncing(source, target, mode, platform, world, depth)->0.requests.len(),
        writes(sync::syncing(source, target, mode, platform, world, depth)->0.requests[at]),
    ensures
        sync::syncing(source, target, mode, platform, world, depth)->0.requests.take(at).contains(
            SyncRequest::Mute,
        ),
{
    let requests = sync::syncing(source, target, mode, platform, world, depth)->0.requests;
    let head = up_to_guard(source, target, mode, world);
    let mute = looking(source, target, mode, world).len() as int;
    law_guard_comes_before_writing(source, target, mode, platform, world, depth, at);
    assert(head[mute] == SyncRequest::<Seq<Seq<u8>>>::Mute);
    assert(requests[mute] == requests.subrange(0, head.len() as int)[mute]);
    assert(requests.take(at)[mute] == SyncRequest::<Seq<Seq<u8>>>::Mute);
}

/// A sync reports a link only where links were asked for and one stands at the target:
/// it was there already, or the link or the junction was made.
pub proof fn law_reported_link_is_there(
    source: PathView,
    target: PathView,
    mode: SyncMode,
    platform: Platform,
    world: SyncWorld,
    depth: nat,
)
    requires
        sync::syncing(source, target, mode, platform, world, depth) is Some,
        sync::syncing(source, target, mode, platform, world, depth)->0.result == Ok::<
            SyncMode,
            SyncError,
        >(SyncMode::Symlink),
    ensures
        mode == SyncMode::Symlink,
        ({
            let trace = sync::syncing(source, target, mode, platform, world, depth)->0;
            ||| current::leads_to(source, target, world.check)
            ||| trace.requests.last() == SyncRequest::<Seq<Seq<u8>>>::CreateLink && world.link is Ok
            ||| trace.requests.last() == SyncRequest::<Seq<Seq<u8>>>::CreateJunction
                && world.junction is Ok && world.link is Err && platform == Platform::Windows
        }),
{
    if replaces(source, target, mode, world) {
        lemma_replacing_sync(source, target, mode, platform, world, depth);
    } else {
        lemma_other_sync(source, target, mode, platform, world, depth);
    }
}

/// A sync reports a copy only after copying everything without a failure, and where
/// links were asked for only because the platform made none.
pub proof fn law_reported_copy_is_complete(
    source: PathView,
    target: PathView,
    mode: SyncMode,
    platform: Platform,
    world: SyncWorld,
    depth: nat,
)
    requires
        sync::syncing(source, target, mode, platform, world, depth) is Some,
        sync::syncing(source, target, mode, platform, world, depth)->0.result == Ok::<
            SyncMode,
            SyncError,
        >(SyncMode::Copy),
    ensures
        replaces(source, target, mode, world),
        copy::copy_dir(world.copy, seq![], depth) is Some,
        copy::copy_dir(world.copy, seq![], depth)->0.result is Ok,
        mode == SyncMode::Symlink ==> platform == Platform::Other || (platform == Platform::Windows
            && world.link is Err && world.junction is Err),
{
    if replaces(source, target, mode, world) {
        lemma_replacing_sync(source, target, mode, platform, world, depth);
    } else {
        lemma_other_sync(source, target, mode, platform, world, depth);
    }
}

/// Whether old contents could be removed makes no difference to the rest of a sync.
pub proof fn law_failed_removal_does_not_stop_a_sync(
    source: PathView,
    target: PathView,
    mode: SyncMode,
    platform: Platform,
    world: SyncWorld,
    depth: nat,
    removed: spec_fn(Removal) -> Result<(), Failure>,
)
    ensures
        sync::syncing(source, target, mode, platform, world, depth) == sync::syncing(
            source,
            target,
            mode,
            platform,
            SyncWorld {
                removal: RemovalWorld { kind: world.removal.kind, removed },
                ..world
            },
            depth,
        ),
{
}

/// A sync of a source that is a directory tree ends, whatever fails on the way.
pub proof fn law_sync_of_a_tree_ends(
    source: PathView,
    target: PathView,
    mode: SyncMode,
    platform: Platform,
    world: SyncWorld,
    children: Seq<Child>,
)
    requires
        source.depth() <= usize::MAX,
        target.depth() <= usize::MAX,
        tree::shows(world.copy, seq![], children),
    ensures
        exists|trace: SyncTrace| #[trigger]
            protocol::ends(
                sync::sync_of(source, target, mode, platform),
                world,
                trace.requests,
                trace.result,
            ),
{
    let depth = tree::height(children) + 1;
    tree::lemma_dir_of_tree(world.copy, seq![], children, depth);
    sync::lemma_sync_ends(source, target, mode, platform, world, depth);
}

} // verus!
