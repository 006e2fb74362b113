//! What a sync and a removal leave behind, and what the next one then finds.

#[allow(unused_imports)]
use crate::copy;
use crate::copy::CopyRequest;
#[allow(unused_imports)]
use crate::current;
use crate::current::CheckWorld;
use crate::mode::{Platform, SyncMode};
use crate::path::PathView;
use crate::protocol::{Failure, FailureKind, FileKind};
#[allow(unused_imports)]
use crate::removal;
use crate::removal::{RemovalRequest, RemovalWorld};
#[allow(unused_imports)]
use crate::safety;
#[allow(unused_imports)]
use crate::sync;
use crate::sync::{SyncError, SyncRequest, SyncTrace, SyncWorld};
#[allow(unused_imports)]
use crate::tree;
use crate::tree::{Child, Contents};
use vstd::prelude::*;

verus! {

/// What stands at the target.
pub enum Standing {
    Nothing,
    /// A file, or anything else that is neither link nor directory.
    File,
    /// A symbolic link or junction: what it says, how it was made, and what it resolves to.
    Link { says: PathView, directory: bool, resolved: Result<PathView, Failure> },
    /// A directory and what it holds.
    Directory(Contents),
}

/// The part of the disk that a sync changes.
pub struct Scene {
    /// Whether the target's parent directory is there.
    pub parent: bool,
    pub target: Standing,
}

/// What a sync does not decide. It leaves the source where it is, and the link by which the
/// source is named: nothing that it touches holds either of them or lies in them.
pub struct Surroundings {
    /// The source as it was given.
    pub source: PathView,
    /// What the source resolves to.
    pub source_resolved: Result<PathView, Failure>,
    /// What a junction to the source says when it is read.
    pub junction_says: PathView,
    /// What stands at the target after a removal that failed: perhaps part of a directory.
    pub left: Standing,
}

/// What the target holds: nothing where it is not a directory.
pub open spec fn holding(standing: Standing) -> Contents {
    match standing {
        Standing::Directory(contents) => contents,
        _ => Map::empty(),
    }
}

/// What a request of a removal leaves at the target.
pub open spec fn after_removing(
    around: Surroundings,
    world: RemovalWorld,
    standing: Standing,
    request: RemovalRequest,
) -> Standing {
    match request {
        RemovalRequest::Remove(removal) => if (world.removed)(removal) is Ok {
            Standing::Nothing
        } else {
            around.left
        },
        _ => standing,
    }
}

/// What a request of a copy leaves at the target. What is written through a link goes
/// elsewhere, and where a file stands nothing can be written.
pub open spec fn after_copying(
    standing: Standing,
    request: CopyRequest<Seq<Seq<u8>>>,
) -> Standing {
    match (standing, request) {
        (_, CopyRequest::List(_)) => standing,
        (Standing::File, _) => standing,
        (Standing::Link { says, directory, resolved }, _) => standing,
        _ => Standing::Directory(tree::carried_out(holding(standing), request)),
    }
}

/// What a request of a sync, carried out with the replies of `world`, leaves behind.
pub open spec fn effect(
    around: Surroundings,
    platform: Platform,
    world: SyncWorld,
    scene: Scene,
    request: SyncRequest<Seq<Seq<u8>>>,
) -> Scene {
    match request {
        SyncRequest::CreateParent => Scene { parent: scene.parent || world.parent is Ok, ..scene },
        SyncRequest::Remove(request) => Scene {
            target: after_removing(around, world.removal, scene.target, request),
            ..scene
        },
        SyncRequest::CreateLink => if world.link is Ok {
            Scene {
                target: Standing::Link {
                    says: around.source,
                    directory: platform == Platform::Windows,
                    resolved: around.source_resolved,
                },
                ..scene
            }
        } else {
            scene
        },
        SyncRequest::CreateJunction => if world.junction is Ok {
            Scene {
                target: Standing::Link {
                    says: around.junction_says,
                    directory: true,
                    resolved: around.source_resolved,
                },
                ..scene
            }
        } else {
            scene
        },
        SyncRequest::Copy(request) => if copy::went_well(world.copy, request) {
            Scene { target: after_copying(scene.target, request), ..scene }
        } else {
            scene
        },
        _ => scene,
    }
}

/// What requests of a sync, carried out in order, leave behind.
pub open spec fn effects(
    around: Surroundings,
    platform: Platform,
    world: SyncWorld,
    scene: Scene,
    requests: Seq<SyncRequest<Seq<Seq<u8>>>>,
) -> Scene
    decreases requests.len(),
{
    if requests.len() == 0 {
        scene
    } else {
        effect(
            around,
            platform,
            world,
            effects(around, platform, world, scene, requests.drop_last()),
            requests.last(),
        )
    }
}

/// What a whole sync leaves behind.
pub open spec fn after_sync(
    around: Surroundings,
    target: PathView,
    mode: SyncMode,
    platform: Platform,
    world: SyncWorld,
    depth: nat,
    scene: Scene,
) -> Scene {
    effects(
        around,
        platform,
        world,
        scene,
        sync::syncing(around.source, target, mode, platform, world, depth)->0.requests,
    )
}

/// What a whole removal leaves behind.
pub open spec fn after_removal(
    around: Surroundings,
    platform: Platform,
    world: RemovalWorld,
    scene: Scene,
) -> Scene {
    match world.kind {
        Ok(kind) => Scene {
            target: after_removing(
                around,
                world,
                scene.target,
                RemovalRequest::Remove(removal::removal_for(platform, kind)),
            ),
            ..scene
        },
        Err(_) => scene,
    }
}

/// What the file system tells of what stands at the target, links not followed.
pub open spec fn is_told(standing: Standing, kind: Result<FileKind, Failure>) -> bool {
    match standing {
        Standing::Nothing => kind is Err && kind->Err_0.kind == FailureKind::NotFound,
        Standing::File => kind == Ok::<FileKind, Failure>(FileKind::Other),
        Standing::Link { says, directory, resolved } => kind == Ok::<FileKind, Failure>(
            FileKind::Link { directory },
        ),
        Standing::Directory(_) => kind == Ok::<FileKind, Failure>(FileKind::Directory),
    }
}

/// What a check finds of what stands at the target.
pub open spec fn is_found(around: Surroundings, standing: Standing, check: CheckWorld) -> bool {
    &&& is_told(standing, check.kind)
    &&& check.source_resolved == around.source_resolved
    &&& match standing {
        Standing::Link { says, directory, resolved } => {
            &&& check.link == Ok::<PathView, Failure>(says)
            &&& (check.link_resolved)(!says.absolute) == resolved
        },
        _ => true,
    }
}

/// The replies to a sync tell what is there: of the source each time, and of the target
/// when it is checked and before it is removed.
pub open spec fn tells(around: Surroundings, scene: Scene, world: SyncWorld) -> bool {
    &&& is_found(around, scene.target, world.check)
    &&& is_told(scene.target, world.removal.kind)
    &&& world.guard.source.resolved == around.source_resolved
    &&& world.guard_again.source.resolved == around.source_resolved
}

proof fn lemma_effects_in_turn(
    around: Surroundings,
    platform: Platform,
    world: SyncWorld,
    scene: Scene,
    first: Seq<SyncRequest<Seq<Seq<u8>>>>,
    second: Seq<SyncRequest<Seq<Seq<u8>>>>,
)
    ensures
        effects(around, platform, world, scene, first + second) == effects(
            around,
            platform,
            world,
            effects(around, platform, world, scene, first),
            second,
        ),
    decreases second.len(),
{
    if second.len() == 0 {
        assert(first + second =~= first);
    } else {
        assert((first + second).drop_last() =~= first + second.drop_last());
        lemma_effects_in_turn(around, platform, world, scene, first, second.drop_last());
    }
}

/// Requests that do not touch the target leave it as it is.
proof fn lemma_target_stays(
    around: Surroundings,
    platform: Platform,
    world: SyncWorld,
    scene: Scene,
    requests: Seq<SyncRequest<Seq<Seq<u8>>>>,
)
    requires
        forall|i: int| 0 <= i < requests.len() ==> !safety::touches_target(#[trigger] requests[i]),
    ensures
        effects(around, platform, world, scene, requests).target == scene.target,
    decreases requests.len(),
{
    if requests.len() > 0 {
        let front = requests.drop_last();
        assert(!safety::touches_target(requests[requests.len() - 1]));
        assert forall|i: int| 0 <= i < front.len() implies !safety::touches_target(
            #[trigger] front[i],
        ) by {
            assert(front[i] == requests[i]);
        }
        lemma_target_stays(around, platform, world, scene, front);
    }
}

/// A parent directory that is there stays there, and requests that write nothing make none.
proof fn lemma_parent_stays(
    around: Surroundings,
    platform: Platform,
    world: SyncWorld,
    scene: Scene,
    requests: Seq<SyncRequest<Seq<Seq<u8>>>>,
)
    ensures
        scene.parent ==> effects(around, platform, world, scene, requests).parent,
    decreases requests.len(),
{
    if requests.len() > 0 {
        lemma_parent_stays(around, platform, world, scene, requests.drop_last());
    }
}

/// A sync that only looks changes nothing.
proof fn lemma_looking_changes_nothing(
    around: Surroundings,
    platform: Platform,
    world: SyncWorld,
    scene: Scene,
    requests: Seq<SyncRequest<Seq<Seq<u8>>>>,
)
    requires
        forall|i: int| 0 <= i < requests.len() ==> !safety::writes(#[trigger] requests[i]),
    ensures
        effects(around, platform, world, scene, requests) == scene,
    decreases requests.len(),
{
    if requests.len() > 0 {
        let front = requests.drop_last();
        assert(!safety::writes(requests[requests.len() - 1]));
        assert forall|i: int| 0 <= i < front.len() implies !safety::writes(#[trigger] front[i]) by {
            assert(front[i] == requests[i]);
        }
        lemma_looking_changes_nothing(around, platform, world, scene, front);
    }
}

/// A copy whose requests all go well puts into a directory what its requests carry.
proof fn lemma_copy_effects(
    around: Surroundings,
    platform: Platform,
    world: SyncWorld,
    scene: Scene,
    requests: Seq<CopyRequest<Seq<Seq<u8>>>>,
)
    requires
        forall|i: int|
            0 <= i < requests.len() ==> copy::went_well(world.copy, #[trigger] requests[i]),
        requests.len() > 0,
        requests[0] is MakeDir,
    ensures
        ({
            let after = effects(around, platform, world, scene, sync::copy_part(requests)).target;
            match scene.target {
                Standing::File => after == scene.target,
                Standing::Link { says, directory, resolved } => after == scene.target,
                _ => after == Standing::Directory(
                    tree::all_carried_out(holding(scene.target), requests),
                ),
            }
        }),
    decreases requests.len(),
{
    let part = sync::copy_part(requests);
    let front = requests.drop_last();
    assert(part.drop_last() =~= sync::copy_part(front));
    assert(copy::went_well(world.copy, requests[requests.len() - 1]));
    assert(requests =~= front + seq![requests.last()]);
    tree::lemma_carried_out_in_turn(holding(scene.target), front, seq![requests.last()]);
    reveal_with_fuel(tree::all_carried_out, 2);
    if front.len() > 0 {
        assert forall|i: int| 0 <= i < front.len() implies copy::went_well(
            world.copy,
            #[trigger] front[i],
        ) by {
            assert(front[i] == requests[i]);
        }
        lemma_copy_effects(around, platform, world, scene, front);
    }
}

/// The requests by which a sync tries links before it copies.
spec fn tries(mode: SyncMode, platform: Platform) -> Seq<SyncRequest<Seq<Seq<u8>>>> {
    if sync::links(mode, platform) {
        seq![SyncRequest::CreateLink, SyncRequest::CreateJunction]
    } else {
        seq![]
    }
}

/// What stands at the target when a sync has removed what it found there.
proof fn lemma_after_removing(
    around: Surroundings,
    target: PathView,
    mode: SyncMode,
    platform: Platform,
    world: SyncWorld,
    scene: Scene,
)
    ensures
        ({
            let looks = safety::up_to_guard(around.source, target, mode, world)
                + safety::parent_part(around.source, target, world);
            let removing = sync::removal_part(removal::removal_requests(platform, world.removal));
            effects(around, platform, world, scene, looks + removing).target == after_removal(
                around,
                platform,
                world.removal,
                scene,
            ).target
        }),
{
    let looks = safety::up_to_guard(around.source, target, mode, world) + safety::parent_part(
        around.source,
        target,
        world,
    );
    let removing = sync::removal_part(removal::removal_requests(platform, world.removal));
    lemma_target_stays(around, platform, world, scene, looks);
    let looked = effects(around, platform, world, scene, looks);
    lemma_effects_in_turn(around, platform, world, scene, looks, removing);
    reveal_with_fuel(effects, 4);
    match world.removal.kind {
        Ok(_) => {
            assert(removing.drop_last().drop_last().drop_last() =~= seq![]);
        },
        Err(_) => {
            assert(removing.drop_last() =~= seq![]);
        },
    }
}

/// What stands at the target after a sync that replaced it by a link.
proof fn lemma_after_linking(
    around: Surroundings,
    target: PathView,
    mode: SyncMode,
    platform: Platform,
    world: SyncWorld,
    depth: nat,
    scene: Scene,
)
    requires
        sync::syncing(around.source, target, mode, platform, world, depth) is Some,
        sync::syncing(around.source, target, mode, platform, world, depth)->0.result == Ok::<
            SyncMode,
            SyncError,
        >(SyncMode::Symlink),
        safety::replaces(around.source, target, mode, world),
    ensures
        after_sync(around, target, mode, platform, world, depth, scene).target
            matches Standing::Link { says, directory, resolved } && resolved
            == around.source_resolved && (says == around.source || (says == around.junction_says
            && platform == Platform::Windows && world.link is Err)),
{
    safety::lemma_replacing_sync(around.source, target, mode, platform, world, depth);
    let head = safety::up_to_guard(around.source, target, mode, world) + safety::parent_part(
        around.source,
        target,
        world,
    ) + sync::removal_part(removal::removal_requests(platform, world.removal));
    let placed = sync::placing(mode, platform, world, depth)->0.requests;
    lemma_effects_in_turn(around, platform, world, scene, head, placed);
    assert(placed.last() == SyncRequest::<Seq<Seq<u8>>>::CreateLink || placed.last()
        == SyncRequest::<Seq<Seq<u8>>>::CreateJunction);
}

/// What stands at the target after a sync that ended with a copy: what the copy carries, in
/// place of what was removed. Where something stayed that is no directory, it stays.
proof fn lemma_after_copying(
    around: Surroundings,
    target: PathView,
    mode: SyncMode,
    platform: Platform,
    world: SyncWorld,
    depth: nat,
    scene: Scene,
)
    requires
        sync::syncing(around.source, target, mode, platform, world, depth) is Some,
        sync::syncing(around.source, target, mode, platform, world, depth)->0.result == Ok::<
            SyncMode,
            SyncError,
        >(SyncMode::Copy),
    ensures
        ({
            let free = after_removal(around, platform, world.removal, scene).target;
            let after = after_sync(around, target, mode, platform, world, depth, scene).target;
            match free {
                Standing::File => after == free,
                Standing::Link { says, directory, resolved } => after == free,
                _ => after == Standing::Directory(
                    tree::all_carried_out(
                        holding(free),
                        copy::copy_dir(world.copy, seq![], depth)->0.requests,
                    ),
                ),
            }
        }),
{
    safety::law_reported_copy_is_complete(around.source, target, mode, platform, world, depth);
    safety::lemma_replacing_sync(around.source, target, mode, platform, world, depth);
    let head = safety::up_to_guard(around.source, target, mode, world) + safety::parent_part(
        around.source,
        target,
        world,
    ) + sync::removal_part(removal::removal_requests(platform, world.removal));
    let placed = sync::placing(mode, platform, world, depth)->0.requests;
    let copied = copy::copy_dir(world.copy, seq![], depth)->0.requests;
    lemma_after_removing(around, target, mode, platform, world, scene);
    lemma_effects_in_turn(around, platform, world, scene, head, placed);
    let freed = effects(around, platform, world, scene, head);
    assert(placed =~= tries(mode, platform) + sync::copy_part(copied));
    lemma_effects_in_turn(
        around,
        platform,
        world,
        freed,
        tries(mode, platform),
        sync::copy_part(copied),
    );
    assert(effects(around, platform, world, freed, tries(mode, platform)) == freed) by {
        reveal_with_fuel(effects, 3);
        if sync::links(mode, platform) {
            assert(tries(mode, platform).drop_last().drop_last() =~= seq![]);
        }
    }
    copy::lemma_copied_dir_went_well(world.copy, seq![], depth);
    lemma_copy_effects(around, platform, world, freed, copied);
}

/// A target just synced is current: a link as such, and a copy for the version that it was
/// made from; without that version being known, a copy is not.
pub proof fn law_synced_target_is_current(
    around: Surroundings,
    target: PathView,
    mode: SyncMode,
    platform: Platform,
    world: SyncWorld,
    depth: nat,
    scene: Scene,
    later: CheckWorld,
    version: Seq<char>,
)
    requires
        around.source.absolute,
        sync::syncing(around.source, target, mode, platform, world, depth) is Some,
        sync::syncing(around.source, target, mode, platform, world, depth)->0.result is Ok,
        tells(around, scene, world),
        is_found(
            around,
            after_sync(around, target, mode, platform, world, depth, scene).target,
            later,
        ),
    ensures
        ({
            let source = around.source;
            let copied = Some(version);
            match sync::syncing(source, target, mode, platform, world, depth)->0.result->Ok_0 {
                SyncMode::Symlink => current::target_current(
                    source,
                    target,
                    SyncMode::Symlink,
                    None,
                    None,
                    later,
                ),
                SyncMode::Copy => {
                    &&& current::target_current(
                        source,
                        target,
                        SyncMode::Copy,
                        copied,
                        copied,
                        later,
                    )
                    &&& !current::target_current(
                        source,
                        target,
                        SyncMode::Copy,
                        None,
                        copied,
                        later,
                    )
                },
            }
        }),
{
    let source = around.source;
    let result = sync::syncing(source, target, mode, platform, world, depth)->0.result;
    if result->Ok_0 == SyncMode::Copy {
        lemma_after_copying(around, target, mode, platform, world, depth, scene);
    } else if safety::replaces(source, target, mode, world) {
        lemma_after_linking(around, target, mode, platform, world, depth, scene);
    } else {
        safety::lemma_other_sync(source, target, mode, platform, world, depth);
        lemma_looking_changes_nothing(
            around,
            platform,
            world,
            scene,
            safety::looking(source, target, mode, world),
        );
    }
}

/// After a sync that reports a link, another one only looks, reports a link again, and
/// leaves everything as the first one left it.
pub proof fn law_second_link_sync_changes_nothing(
    around: Surroundings,
    target: PathView,
    platform: Platform,
    first: SyncWorld,
    depth: nat,
    scene: Scene,
    second: SyncWorld,
)
    requires
        around.source.absolute,
        sync::syncing(around.source, target, SyncMode::Symlink, platform, first, depth) is Some,
        sync::syncing(
            around.source,
            target,
            SyncMode::Symlink,
            platform,
            first,
            depth,
        )->0.result == Ok::<SyncMode, SyncError>(SyncMode::Symlink),
        tells(around, scene, first),
        tells(
            around,
            after_sync(around, target, SyncMode::Symlink, platform, first, depth, scene),
            second,
        ),
    ensures
        sync::syncing(around.source, target, SyncMode::Symlink, platform, second, depth) == Some(
            SyncTrace {
                requests: safety::looking(around.source, target, SyncMode::Symlink, second),
                result: Ok(SyncMode::Symlink),
            },
        ),
        ({
            let once = after_sync(
                around,
                target,
                SyncMode::Symlink,
                platform,
                first,
                depth,
                scene,
            );
            after_sync(around, target, SyncMode::Symlink, platform, second, depth, once) == once
        }),
{
    let source = around.source;
    let once = after_sync(around, target, SyncMode::Symlink, platform, first, depth, scene);
    law_synced_target_is_current(
        around,
        target,
        SyncMode::Symlink,
        platform,
        first,
        depth,
        scene,
        second.check,
        Seq::empty(),
    );
    safety::law_current_target_is_left_alone(
        source,
        target,
        SyncMode::Symlink,
        platform,
        second,
        depth,
    );
    lemma_looking_changes_nothing(
        around,
        platform,
        second,
        once,
        safety::looking(source, target, SyncMode::Symlink, second),
    );
}

/// Removing the target of a sync that found nothing there brings back what was before: the
/// parent directory, and nothing in the target's place.
pub proof fn law_removal_undoes_a_sync(
    around: Surroundings,
    target: PathView,
    mode: SyncMode,
    platform: Platform,
    world: SyncWorld,
    depth: nat,
    scene: Scene,
    removing: RemovalWorld,
)
    requires
        scene == (Scene { parent: true, target: Standing::Nothing }),
        sync::syncing(around.source, target, mode, platform, world, depth) is Some,
        sync::syncing(around.source, target, mode, platform, world, depth)->0.result is Ok,
        tells(around, scene, world),
        is_told(
            after_sync(around, target, mode, platform, world, depth, scene).target,
            removing.kind,
        ),
        removal::removal_outcome(platform, removing) is Ok,
    ensures
        after_removal(
            around,
            platform,
            removing,
            after_sync(around, target, mode, platform, world, depth, scene),
        ) == scene,
{
    lemma_parent_stays(
        around,
        platform,
        world,
        scene,
        sync::syncing(around.source, target, mode, platform, world, depth)->0.requests,
    );
}

/// A removal that goes well leaves nothing at the target, and a second one only looks, ends
/// well and changes nothing.
pub proof fn law_second_removal_changes_nothing(
    around: Surroundings,
    platform: Platform,
    first: RemovalWorld,
    scene: Scene,
    second: RemovalWorld,
)
    requires
        is_told(scene.target, first.kind),
        removal::removal_outcome(platform, first) is Ok,
        is_told(after_removal(around, platform, first, scene).target, second.kind),
    ensures
        after_removal(around, platform, first, scene).target == Standing::Nothing,
        removal::removal_requests(platform, second) == seq![RemovalRequest::Inspect],
        removal::removal_outcome(platform, second) == Ok::<(), Failure>(()),
        after_removal(around, platform, second, after_removal(around, platform, first, scene)) == after_removal(
            around,
            platform,
            first,
            scene,
        ),
{
}

/// A sync that ends with a copy, what stood at the target having been removed, leaves there
/// a directory that holds what the source holds, place by place, except for `.git`
/// directories and what is in them. Nothing of what stood there before is left.
pub proof fn law_copy_sync_mirrors_the_source(
    around: Surroundings,
    target: PathView,
    mode: SyncMode,
    platform: Platform,
    world: SyncWorld,
    depth: nat,
    children: Seq<Child>,
    scene: Scene,
    place: Seq<Seq<u8>>,
)
    requires
        sync::syncing(around.source, target, mode, platform, world, depth) is Some,
        sync::syncing(around.source, target, mode, platform, world, depth)->0.result == Ok::<
            SyncMode,
            SyncError,
        >(SyncMode::Copy),
        tree::shows(world.copy, seq![], children),
        tree::distinct(children),
        is_told(scene.target, world.removal.kind),
        removal::removal_outcome(platform, world.removal) is Ok,
    ensures
        ({
            let after = after_sync(around, target, mode, platform, world, depth, scene).target;
            after is Directory && tree::held_at(after->Directory_0, place) == tree::wanted(
                children,
                place,
            )
        }),
{
    safety::law_reported_copy_is_complete(around.source, target, mode, platform, world, depth);
    lemma_after_copying(around, target, mode, platform, world, depth, scene);
    tree::lemma_copied_dir_of_tree(world.copy, seq![], children, depth);
    tree::law_plan_makes_the_wanted_contents(children, place);
}

/// Where what stood at the target could not be removed and a directory is left there, a
/// sync that ends with a copy puts into it what the source holds, place by place, and keeps
/// the rest of what was left.
pub proof fn law_copy_sync_keeps_what_it_does_not_replace(
    around: Surroundings,
    target: PathView,
    mode: SyncMode,
    platform: Platform,
    world: SyncWorld,
    depth: nat,
    children: Seq<Child>,
    scene: Scene,
    place: Seq<Seq<u8>>,
)
    requires
        sync::syncing(around.source, target, mode, platform, world, depth) is Some,
        sync::syncing(around.source, target, mode, platform, world, depth)->0.result == Ok::<
            SyncMode,
            SyncError,
        >(SyncMode::Copy),
        tree::shows(world.copy, seq![], children),
        tree::distinct(children),
        world.removal.kind is Ok,
        removal::removal_outcome(platform, world.removal) is Err,
        around.left is Directory,
    ensures
        ({
            let after = after_sync(around, target, mode, platform, world, depth, scene).target;
            after is Directory && tree::held_at(after->Directory_0, place) == (if tree::wanted(
                children,
                place,
            ) is Some {
                tree::wanted(children, place)
            } else {
                tree::held_at(around.left->Directory_0, place)
            })
        }),
{
    safety::law_reported_copy_is_complete(around.source, target, mode, platform, world, depth);
    lemma_after_copying(around, target, mode, platform, world, depth, scene);
    tree::lemma_copied_dir_of_tree(world.copy, seq![], children, depth);
    tree::law_copy_keeps_what_it_does_not_replace(holding(around.left), children, place);
}

} // verus!
