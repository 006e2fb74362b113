//! What companion syncs leave in the shared directory.

#[allow(unused_imports)]
use crate::companion;
use crate::companion::{CompanionRequest, CompanionWorld};
use crate::mode::{Platform, SyncMode};
use crate::protocol::{EntryKind, Listed};
#[allow(unused_imports)]
use crate::removal;
use crate::removal::RemovalRequest;
#[allow(unused_imports)]
use crate::shared_dir;
#[allow(unused_imports)]
use crate::sync;
use vstd::prelude::*;

verus! {

/// Where something comes from.
pub enum Origin {
    /// The companion file of this name.
    Companion(Seq<u8>),
    /// Something else; different things have different numbers.
    Elsewhere(int),
}

/// What stands at a name in the shared directory.
pub enum Item {
    /// A link to the origin itself.
    Link(Origin),
    /// A file or directory with the contents of its origin.
    Copy(Origin),
}

/// What companion syncs change.
#[verifier::ext_equal]
pub struct Shelf {
    /// The shared directory, by name.
    pub names: Map<Seq<char>, Item>,
    /// What was written to through a link in the shared directory.
    pub overwritten: Set<Origin>,
}

/// What a request, carried out with the replies of `world`, leaves behind. A removal that
/// fails is not followed further: it counts as changing nothing.
pub open spec fn effect(
    world: CompanionWorld,
    shelf: Shelf,
    request: CompanionRequest<Seq<u8>, Seq<char>>,
) -> Shelf {
    match request {
        CompanionRequest::Remove { from, to, request: RemovalRequest::Remove(removal) } => {
            if ((world.removal)(from, to).removed)(removal) is Ok {
                Shelf { names: shelf.names.remove(to), ..shelf }
            } else {
                shelf
            }
        },
        CompanionRequest::LinkFile { from, to } => if (world.linked)(from, to) is Ok {
            Shelf { names: shelf.names.insert(to, Item::Link(Origin::Companion(from))), ..shelf }
        } else {
            shelf
        },
        CompanionRequest::CopyFile { from, to } => if (world.copied)(from, to) is Ok {
            if shelf.names.dom().contains(to) && shelf.names[to] is Link {
                Shelf { overwritten: shelf.overwritten.insert(shelf.names[to]->Link_0), ..shelf }
            } else {
                Shelf {
                    names: shelf.names.insert(to, Item::Copy(Origin::Companion(from))),
                    ..shelf
                }
            }
        } else {
            shelf
        },
        _ => shelf,
    }
}

/// What requests, carried out in order, leave behind.
pub open spec fn effects(
    world: CompanionWorld,
    shelf: Shelf,
    requests: Seq<CompanionRequest<Seq<u8>, Seq<char>>>,
) -> Shelf
    decreases requests.len(),
{
    if requests.len() == 0 {
        shelf
    } else {
        effect(world, effects(world, shelf, requests.drop_last()), requests.last())
    }
}

/// What a whole companion sync leaves behind.
pub open spec fn after_companion_sync(
    skill_name: Seq<char>,
    mode: SyncMode,
    platform: Platform,
    world: CompanionWorld,
    shelf: Shelf,
) -> Shelf {
    effects(
        world,
        shelf,
        companion::companion_sync(skill_name, mode, platform, world).requests,
    )
}

/// The regular files that a companion sync finds.
pub open spec fn files(world: CompanionWorld) -> Seq<Seq<u8>> {
    shared_dir::regular_files(world.listed->Ok_0)
}

/// What a companion sync puts at a name for a file: a link where links are wanted and made,
/// and else a copy.
pub open spec fn put(
    mode: SyncMode,
    platform: Platform,
    world: CompanionWorld,
    from: Seq<u8>,
    to: Seq<char>,
) -> Item {
    if sync::links(mode, platform) && !companion::falls_back(platform, world, from, to) {
        Item::Link(Origin::Companion(from))
    } else {
        Item::Copy(Origin::Companion(from))
    }
}

/// What stands at a name, if anything.
pub open spec fn held(names: Map<Seq<char>, Item>, at: Seq<char>) -> Option<Item> {
    if names.dom().contains(at) {
        Some(names[at])
    } else {
        None
    }
}

/// When the turn of the file at `i` comes, what stands at its name can be removed, and the
/// file system knows if something does: it was there before, or an earlier file got the same
/// name.
pub open spec fn is_removable(
    skill_name: Seq<char>,
    platform: Platform,
    world: CompanionWorld,
    shelf: Shelf,
    placed: Seq<Seq<u8>>,
    i: int,
) -> bool {
    let to = companion::companion_name(skill_name, placed[i]);
    let replies = (world.removal)(placed[i], to);
    &&& removal::removal_outcome(platform, replies) is Ok
    &&& replies.kind is Err ==> !shelf.names.dom().contains(to) && forall|earlier: int|
        0 <= earlier < i ==> companion::companion_name(skill_name, #[trigger] placed[earlier]) != to
}

/// A companion sync goes well: it succeeds, and what stands in its way can be removed.
pub open spec fn goes_well(
    skill_name: Seq<char>,
    mode: SyncMode,
    platform: Platform,
    world: CompanionWorld,
    shelf: Shelf,
) -> bool {
    &&& world.subdir
    &&& companion::companion_sync(skill_name, mode, platform, world).result is Ok
    &&& forall|i: int|
        0 <= i < files(world).len() ==> #[trigger] is_removable(
            skill_name,
            platform,
            world,
            shelf,
            files(world),
            i,
        )
}

/// The last of these files that gets a name: the one that stands there in the end.
pub open spec fn last_at(
    skill_name: Seq<char>,
    placed: Seq<Seq<u8>>,
    at: Seq<char>,
) -> Option<Seq<u8>>
    decreases placed.len(),
{
    if placed.len() == 0 {
        None
    } else {
        match last_at(skill_name, placed.drop_first(), at) {
            Some(file) => Some(file),
            None => if companion::companion_name(skill_name, placed[0]) == at {
                Some(placed[0])
            } else {
                None
            },
        }
    }
}

/// The names, with these files put in their places one after the other.
pub open spec fn filled(
    skill_name: Seq<char>,
    mode: SyncMode,
    platform: Platform,
    world: CompanionWorld,
    names: Map<Seq<char>, Item>,
    placed: Seq<Seq<u8>>,
) -> Map<Seq<char>, Item>
    decreases placed.len(),
{
    if placed.len() == 0 {
        names
    } else {
        let to = companion::companion_name(skill_name, placed[0]);
        filled(
            skill_name,
            mode,
            platform,
            world,
            names.insert(to, put(mode, platform, world, placed[0], to)),
            placed.drop_first(),
        )
    }
}

proof fn lemma_effects_in_turn(
    world: CompanionWorld,
    shelf: Shelf,
    first: Seq<CompanionRequest<Seq<u8>, Seq<char>>>,
    second: Seq<CompanionRequest<Seq<u8>, Seq<char>>>,
)
    ensures
        effects(world, shelf, first + second) == effects(
            world,
            effects(world, shelf, first),
            second,
        ),
    decreases second.len(),
{
    if second.len() == 0 {
        assert(first + second =~= first);
    } else {
        assert((first + second).drop_last() =~= first + second.drop_last());
        lemma_effects_in_turn(world, shelf, first, second.drop_last());
    }
}

/// A file that is placed without an error takes the place of what stood at its name.
proof fn lemma_file_is_put(
    mode: SyncMode,
    platform: Platform,
    world: CompanionWorld,
    shelf: Shelf,
    from: Seq<u8>,
    to: Seq<char>,
)
    requires
        removal::removal_outcome(platform, (world.removal)(from, to)) is Ok,
        (world.removal)(from, to).kind is Err ==> !shelf.names.dom().contains(to),
        companion::placing_error(mode, platform, world, from, to) is None,
    ensures
        effects(
            world,
            shelf,
            companion::file_requests(mode, platform, world, from, to),
        ) == (Shelf {
            names: shelf.names.insert(to, put(mode, platform, world, from, to)),
            ..shelf
        }),
{
    let replies = (world.removal)(from, to);
    let clearing = companion::removal_part(from, to, removal::removal_requests(platform, replies));
    let placing = companion::placing_requests(mode, platform, world, from, to);
    lemma_effects_in_turn(world, shelf, clearing, placing);
    let cleared = effects(world, shelf, clearing);
    assert(cleared.names =~= shelf.names.remove(to) && cleared.overwritten == shelf.overwritten)
        by {
        reveal_with_fuel(effects, 4);
        match replies.kind {
            Ok(_) => {
                assert(clearing.drop_last().drop_last().drop_last() =~= seq![]);
            },
            Err(_) => {
                assert(clearing.drop_last() =~= seq![]);
            },
        }
    }
    let after = effects(world, cleared, placing);
    reveal_with_fuel(effects, 3);
    if placing.len() == 2 {
        assert(placing.drop_last().drop_last() =~= seq![]);
    } else {
        assert(placing.drop_last() =~= seq![]);
    }
    assert(after.names =~= shelf.names.insert(to, put(mode, platform, world, from, to)));
}

proof fn lemma_files_are_put(
    skill_name: Seq<char>,
    mode: SyncMode,
    platform: Platform,
    world: CompanionWorld,
    entries: Seq<Listed<Seq<u8>>>,
    written: Seq<Seq<char>>,
    shelf: Shelf,
)
    requires
        companion::placing_files(
            skill_name,
            mode,
            platform,
            world,
            entries,
            written,
        ).result is Ok,
        forall|i: int|
            0 <= i < shared_dir::regular_files(entries).len() ==> #[trigger] is_removable(
                skill_name,
                platform,
                world,
                shelf,
                shared_dir::regular_files(entries),
                i,
            ),
    ensures
        effects(
            world,
            shelf,
            companion::placing_files(
                skill_name,
                mode,
                platform,
                world,
                entries,
                written,
            ).requests,
        ) == (Shelf {
            names: filled(
                skill_name,
                mode,
                platform,
                world,
                shelf.names,
                shared_dir::regular_files(entries),
            ),
            ..shelf
        }),
    decreases entries.len(),
{
    if entries.len() > 0 {
        let rest = entries.drop_first();
        let all = shared_dir::regular_files(entries);
        let others = shared_dir::regular_files(rest);
        match entries[0] {
            Listed::Failed(_) => {},
            Listed::Found { name, kind } => {
                if kind == EntryKind::File {
                    let to = companion::companion_name(skill_name, name);
                    let next = Shelf {
                        names: shelf.names.insert(to, put(mode, platform, world, name, to)),
                        ..shelf
                    };
                    assert(all.drop_first() =~= others);
                    assert(all[0] == name);
                    assert(is_removable(skill_name, platform, world, shelf, all, 0));
                    assert forall|i: int| 0 <= i < others.len() implies #[trigger] is_removable(
                        skill_name,
                        platform,
                        world,
                        next,
                        others,
                        i,
                    ) by {
                        assert(others[i] == all[i + 1]);
                        assert(is_removable(skill_name, platform, world, shelf, all, i + 1));
                        let name_i = companion::companion_name(skill_name, others[i]);
                        if (world.removal)(others[i], name_i).kind is Err {
                            assert(companion::companion_name(skill_name, all[0]) != name_i);
                            assert forall|earlier: int| 0 <= earlier < i implies
                                companion::companion_name(skill_name, #[trigger] others[earlier])
                                != name_i by {
                                assert(others[earlier] == all[earlier + 1]);
                            }
                        }
                    }
                    lemma_file_is_put(mode, platform, world, shelf, name, to);
                    let requests = companion::file_requests(mode, platform, world, name, to);
                    lemma_effects_in_turn(
                        world,
                        shelf,
                        requests,
                        companion::placing_files(
                            skill_name,
                            mode,
                            platform,
                            world,
                            rest,
                            written.push(to),
                        ).requests,
                    );
                    lemma_files_are_put(
                        skill_name,
                        mode,
                        platform,
                        world,
                        rest,
                        written.push(to),
                        next,
                    );
                } else {
                    lemma_files_are_put(skill_name, mode, platform, world, rest, written, shelf);
                }
            },
        }
    }
}

/// What stands at a name once files are put in their places.
proof fn lemma_filled_at(
    skill_name: Seq<char>,
    mode: SyncMode,
    platform: Platform,
    world: CompanionWorld,
    names: Map<Seq<char>, Item>,
    placed: Seq<Seq<u8>>,
    at: Seq<char>,
)
    ensures
        held(filled(skill_name, mode, platform, world, names, placed), at) == (match last_at(
            skill_name,
            placed,
            at,
        ) {
            Some(file) => Some(put(mode, platform, world, file, at)),
            None => held(names, at),
        }),
    decreases placed.len(),
{
    if placed.len() > 0 {
        let to = companion::companion_name(skill_name, placed[0]);
        let next = names.insert(to, put(mode, platform, world, placed[0], to));
        lemma_filled_at(skill_name, mode, platform, world, next, placed.drop_first(), at);
    }
}

/// A companion sync that goes well leaves at each name the last file of the skill that gets
/// it, and where no file does, what was there before. It writes nothing through a link.
pub proof fn law_companion_sync_fills_its_names(
    skill_name: Seq<char>,
    mode: SyncMode,
    platform: Platform,
    world: CompanionWorld,
    shelf: Shelf,
    at: Seq<char>,
)
    requires
        goes_well(skill_name, mode, platform, world, shelf),
    ensures
        ({
            let after = after_companion_sync(skill_name, mode, platform, world, shelf);
            &&& after.overwritten == shelf.overwritten
            &&& held(after.names, at) == (match last_at(skill_name, files(world), at) {
                Some(file) => Some(put(mode, platform, world, file, at)),
                None => held(shelf.names, at),
            })
        }),
{
    let requests = companion::companion_sync(skill_name, mode, platform, world).requests;
    let start = seq![
        CompanionRequest::<Seq<u8>, Seq<char>>::CheckSubdir,
        CompanionRequest::<Seq<u8>, Seq<char>>::Mute,
        CompanionRequest::<Seq<u8>, Seq<char>>::CreateDir,
        CompanionRequest::<Seq<u8>, Seq<char>>::ListSubdir,
    ];
    let entries = world.listed->Ok_0;
    let placing = companion::placing_files(
        skill_name,
        mode,
        platform,
        world,
        entries,
        seq![],
    ).requests;
    assert(requests =~= start + placing);
    lemma_effects_in_turn(world, shelf, start, placing);
    assert(effects(world, shelf, start) == shelf) by {
        reveal_with_fuel(effects, 5);
        assert(start.drop_last().drop_last().drop_last().drop_last() =~= seq![]);
    }
    lemma_files_are_put(skill_name, mode, platform, world, entries, seq![], shelf);
    lemma_filled_at(skill_name, mode, platform, world, shelf.names, files(world), at);
}

/// At each name, a second companion sync, in whatever mode, leaves what it would have left
/// alone. That is so where the same file of the skill gets the name last, a link to it is
/// refused or not as it would have been, and every name of the first sync is one of the
/// second. Nothing is written through a link that the first one left: no companion file
/// changes.
pub proof fn law_last_companion_sync_counts(
    skill_name: Seq<char>,
    platform: Platform,
    first_mode: SyncMode,
    first: CompanionWorld,
    second_mode: SyncMode,
    second: CompanionWorld,
    alone: CompanionWorld,
    shelf: Shelf,
    at: Seq<char>,
)
    requires
        goes_well(skill_name, first_mode, platform, first, shelf),
        goes_well(
            skill_name,
            second_mode,
            platform,
            second,
            after_companion_sync(skill_name, first_mode, platform, first, shelf),
        ),
        goes_well(skill_name, second_mode, platform, alone, shelf),
        last_at(skill_name, files(second), at) == last_at(skill_name, files(alone), at),
        last_at(skill_name, files(first), at) is Some ==> last_at(
            skill_name,
            files(second),
            at,
        ) is Some,
        last_at(skill_name, files(second), at) matches Some(file) ==> ((second.linked)(
            file,
            at,
        ) is Ok <==> (alone.linked)(file, at) is Ok),
    ensures
        ({
            let once = after_companion_sync(skill_name, first_mode, platform, first, shelf);
            let twice = after_companion_sync(skill_name, second_mode, platform, second, once);
            let only = after_companion_sync(skill_name, second_mode, platform, alone, shelf);
            &&& held(twice.names, at) == held(only.names, at)
            &&& twice.overwritten == shelf.overwritten
            &&& only.overwritten == shelf.overwritten
        }),
{
    let once = after_companion_sync(skill_name, first_mode, platform, first, shelf);
    law_companion_sync_fills_its_names(skill_name, first_mode, platform, first, shelf, at);
    law_companion_sync_fills_its_names(skill_name, second_mode, platform, second, once, at);
    law_companion_sync_fills_its_names(skill_name, second_mode, platform, alone, shelf, at);
}

/// Two companion syncs find the same files, and links are refused for the same of them.
pub open spec fn same_skill(a: CompanionWorld, b: CompanionWorld) -> bool {
    &&& files(a).to_set() == files(b).to_set()
    &&& forall|from: Seq<u8>, to: Seq<char>|
        (#[trigger] (a.linked)(from, to)) is Ok <==> (b.linked)(from, to) is Ok
}

/// The last file that gets a name is one of the files, and gets that name; and where one of
/// the files gets the name, there is a last one.
proof fn lemma_last_at(skill_name: Seq<char>, placed: Seq<Seq<u8>>, at: Seq<char>)
    ensures
        last_at(skill_name, placed, at) matches Some(file) ==> placed.contains(file)
            && companion::companion_name(skill_name, file) == at,
        forall|file: Seq<u8>|
            placed.contains(file) && (#[trigger] companion::companion_name(skill_name, file)) == at
                ==> last_at(skill_name, placed, at) is Some,
    decreases placed.len(),
{
    if placed.len() > 0 {
        let rest = placed.drop_first();
        lemma_last_at(skill_name, rest, at);
        if last_at(skill_name, rest, at) is Some {
            let file = last_at(skill_name, rest, at)->0;
            let i = choose|i: int| 0 <= i < rest.len() && rest[i] == file;
            assert(placed[i + 1] == file);
        } else {
            assert(placed[0] == placed[0]);
        }
        assert forall|file: Seq<u8>|
            placed.contains(file) && (#[trigger] companion::companion_name(skill_name, file))
                == at implies last_at(skill_name, placed, at) is Some by {
            let i = choose|i: int| 0 <= i < placed.len() && placed[i] == file;
            if i > 0 {
                assert(rest[i - 1] == file);
                assert(rest.contains(file));
            }
        }
    }
}

/// Of the same files, the same one gets a name last, as long as no two of them get the same
/// name.
proof fn lemma_same_last_at(
    skill_name: Seq<char>,
    a: Seq<Seq<u8>>,
    b: Seq<Seq<u8>>,
    at: Seq<char>,
)
    requires
        a.to_set() == b.to_set(),
        no_clash(skill_name, a),
    ensures
        last_at(skill_name, a, at) == last_at(skill_name, b, at),
{
    lemma_last_at(skill_name, a, at);
    lemma_last_at(skill_name, b, at);
    assert forall|file: Seq<u8>| a.contains(file) <==> b.contains(file) by {
        if a.contains(file) {
            assert(a.to_set().contains(file));
            assert(b.to_set().contains(file));
        }
        if b.contains(file) {
            assert(b.to_set().contains(file));
            assert(a.to_set().contains(file));
        }
    }
}

/// No two of these files get the same name.
pub open spec fn no_clash(skill_name: Seq<char>, placed: Seq<Seq<u8>>) -> bool {
    forall|a: Seq<u8>, b: Seq<u8>|
        placed.contains(a) && placed.contains(b) && (#[trigger] companion::companion_name(
            skill_name,
            a,
        )) == (#[trigger] companion::companion_name(skill_name, b)) ==> a == b
}

/// Where no two files of the skill get the same name, a second companion sync, in whatever
/// mode and whatever the order in which it finds them, leaves the shared directory as if it
/// alone had been made.
pub proof fn law_last_companion_sync_leaves_everything_as_alone(
    skill_name: Seq<char>,
    platform: Platform,
    first_mode: SyncMode,
    first: CompanionWorld,
    second_mode: SyncMode,
    second: CompanionWorld,
    alone: CompanionWorld,
    shelf: Shelf,
)
    requires
        goes_well(skill_name, first_mode, platform, first, shelf),
        goes_well(
            skill_name,
            second_mode,
            platform,
            second,
            after_companion_sync(skill_name, first_mode, platform, first, shelf),
        ),
        goes_well(skill_name, second_mode, platform, alone, shelf),
        files(first).to_set() == files(second).to_set(),
        same_skill(second, alone),
        no_clash(skill_name, files(first)),
    ensures
        after_companion_sync(
            skill_name,
            second_mode,
            platform,
            second,
            after_companion_sync(skill_name, first_mode, platform, first, shelf),
        ) == after_companion_sync(skill_name, second_mode, platform, alone, shelf),
{
    let once = after_companion_sync(skill_name, first_mode, platform, first, shelf);
    let twice = after_companion_sync(skill_name, second_mode, platform, second, once);
    let only = after_companion_sync(skill_name, second_mode, platform, alone, shelf);
    assert forall|at: Seq<char>| #[trigger] held(twice.names, at) == held(only.names, at)
        && twice.overwritten == only.overwritten by {
        lemma_same_last_at(skill_name, files(first), files(second), at);
        lemma_same_last_at(skill_name, files(first), files(alone), at);
        if last_at(skill_name, files(second), at) is Some {
            let file = last_at(skill_name, files(second), at)->0;
            assert((second.linked)(file, at) is Ok <==> (alone.linked)(file, at) is Ok);
        }
        law_last_companion_sync_counts(
            skill_name,
            platform,
            first_mode,
            first,
            second_mode,
            second,
            alone,
            shelf,
            at,
        );
    }
    assert forall|at: Seq<char>| twice.names.dom().contains(at) == only.names.dom().contains(at)
        && (twice.names.dom().contains(at) ==> #[trigger] twice.names[at] == only.names[at]) by {
        assert(held(twice.names, at) == held(only.names, at));
    }
    assert(twice.names.dom() =~= only.names.dom()) by {
        assert forall|at: Seq<char>| twice.names.dom().contains(at)
            == only.names.dom().contains(at) by {
            assert(held(twice.names, at) == held(only.names, at));
        }
    }
    assert(twice.names =~= only.names);
    assert(held(twice.names, seq![]) == held(only.names, seq![]));
}

/// A companion sync that is made again in the same mode changes nothing, where no two files
/// of the skill get the same name.
pub proof fn law_repeated_companion_sync_changes_nothing(
    skill_name: Seq<char>,
    platform: Platform,
    mode: SyncMode,
    first: CompanionWorld,
    second: CompanionWorld,
    shelf: Shelf,
)
    requires
        goes_well(skill_name, mode, platform, first, shelf),
        goes_well(
            skill_name,
            mode,
            platform,
            second,
            after_companion_sync(skill_name, mode, platform, first, shelf),
        ),
        same_skill(second, first),
        no_clash(skill_name, files(first)),
    ensures
        ({
            let once = after_companion_sync(skill_name, mode, platform, first, shelf);
            after_companion_sync(skill_name, mode, platform, second, once) == once
        }),
{
    law_last_companion_sync_leaves_everything_as_alone(
        skill_name,
        platform,
        mode,
        first,
        mode,
        second,
        first,
        shelf,
    );
}

proof fn lemma_same_written(
    skill_name: Seq<char>,
    a_mode: SyncMode,
    a: CompanionWorld,
    b_mode: SyncMode,
    b: CompanionWorld,
    platform: Platform,
)
    requires
        a.subdir,
        b.subdir,
        companion::companion_sync(skill_name, a_mode, platform, a).result is Ok,
        companion::companion_sync(skill_name, b_mode, platform, b).result is Ok,
        files(a).to_set() == files(b).to_set(),
    ensures
        companion::companion_sync(skill_name, a_mode, platform, a).result->Ok_0.to_set().subset_of(
            companion::companion_sync(skill_name, b_mode, platform, b).result->Ok_0.to_set(),
        ),
{
    shared_dir::law_written_are_the_regular_files(skill_name, a_mode, platform, a);
    shared_dir::law_written_are_the_regular_files(skill_name, b_mode, platform, b);
    let x = shared_dir::companion_names(skill_name, files(a));
    let y = shared_dir::companion_names(skill_name, files(b));
    assert forall|name: Seq<char>| x.to_set().contains(name) implies y.to_set().contains(name) by {
        let i = choose|i: int| 0 <= i < x.len() && x[i] == name;
        assert(files(a).to_set().contains(files(a)[i]));
        assert(files(b).to_set().contains(files(a)[i]));
        let j = choose|j: int| 0 <= j < files(b).len() && files(b)[j] == files(a)[i];
        assert(y[j] == name);
    }
}

/// Two companion syncs of the same files that succeed report the same names, whatever the
/// modes and the order in which the files are found.
pub proof fn law_companion_syncs_report_the_same(
    skill_name: Seq<char>,
    platform: Platform,
    first_mode: SyncMode,
    first: CompanionWorld,
    second_mode: SyncMode,
    second: CompanionWorld,
)
    requires
        first.subdir,
        second.subdir,
        companion::companion_sync(skill_name, first_mode, platform, first).result is Ok,
        companion::companion_sync(skill_name, second_mode, platform, second).result is Ok,
        files(first).to_set() == files(second).to_set(),
    ensures
        companion::companion_sync(
            skill_name,
            first_mode,
            platform,
            first,
        ).result->Ok_0.to_set() == companion::companion_sync(
            skill_name,
            second_mode,
            platform,
            second,
        ).result->Ok_0.to_set(),
{
    lemma_same_written(skill_name, first_mode, first, second_mode, second, platform);
    lemma_same_written(skill_name, second_mode, second, first_mode, first, platform);
    assert(companion::companion_sync(
        skill_name,
        first_mode,
        platform,
        first,
    ).result->Ok_0.to_set() =~= companion::companion_sync(
        skill_name,
        second_mode,
        platform,
        second,
    ).result->Ok_0.to_set());
}

/// Whether a request put the file at its name, and went well.
pub open spec fn placed_well(
    world: CompanionWorld,
    request: CompanionRequest<Seq<u8>, Seq<char>>,
    from: Seq<u8>,
    to: Seq<char>,
) -> bool {
    ||| request == (CompanionRequest::LinkFile { from, to }) && (world.linked)(from, to) is Ok
    ||| request == (CompanionRequest::CopyFile { from, to }) && (world.copied)(from, to) is Ok
}

proof fn lemma_file_was_placed(
    skill_name: Seq<char>,
    mode: SyncMode,
    platform: Platform,
    world: CompanionWorld,
    entries: Seq<Listed<Seq<u8>>>,
    written: Seq<Seq<char>>,
    i: int,
) -> (at: int)
    requires
        companion::placing_files(
            skill_name,
            mode,
            platform,
            world,
            entries,
            written,
        ).result is Ok,
        0 <= i < shared_dir::regular_files(entries).len(),
    ensures
        ({
            let requests = companion::placing_files(
                skill_name,
                mode,
                platform,
                world,
                entries,
                written,
            ).requests;
            let from = shared_dir::regular_files(entries)[i];
            0 <= at < requests.len() && placed_well(
                world,
                requests[at],
                from,
                companion::companion_name(skill_name, from),
            )
        }),
    decreases entries.len(),
{
    let rest = entries.drop_first();
    match entries[0] {
        Listed::Failed(_) => 0,
        Listed::Found { name, kind } => if kind == EntryKind::File {
            let to = companion::companion_name(skill_name, name);
            let first = companion::file_requests(mode, platform, world, name, to);
            if i == 0 {
                first.len() - 1
            } else {
                let later = lemma_file_was_placed(
                    skill_name,
                    mode,
                    platform,
                    world,
                    rest,
                    written.push(to),
                    i - 1,
                );
                first.len() + later
            }
        } else {
            lemma_file_was_placed(skill_name, mode, platform, world, rest, written, i)
        },
    }
}

/// Each regular file of a companion sync that succeeds was put at its name by a request that
/// went well.
pub proof fn law_written_files_were_placed(
    skill_name: Seq<char>,
    mode: SyncMode,
    platform: Platform,
    world: CompanionWorld,
    i: int,
)
    requires
        world.subdir,
        companion::companion_sync(skill_name, mode, platform, world).result is Ok,
        0 <= i < files(world).len(),
    ensures
        exists|at: int|
            0 <= at < companion::companion_sync(skill_name, mode, platform, world).requests.len()
                && placed_well(
                world,
                #[trigger] companion::companion_sync(
                    skill_name,
                    mode,
                    platform,
                    world,
                ).requests[at],
                files(world)[i],
                companion::companion_name(skill_name, files(world)[i]),
            ),
{
    let requests = companion::companion_sync(skill_name, mode, platform, world).requests;
    let entries = world.listed->Ok_0;
    let at = lemma_file_was_placed(skill_name, mode, platform, world, entries, seq![], i);
    let placing = companion::placing_files(
        skill_name,
        mode,
        platform,
        world,
        entries,
        seq![],
    ).requests;
    assert(requests[at + 4] == placing[at]);
}

} // verus!
