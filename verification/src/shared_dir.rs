//! What can be relied on of every companion sync.

#[allow(unused_imports)]
use crate::companion;
use crate::companion::{CompanionRequest, CompanionTrace, CompanionWorld};
use crate::mode::{Platform, SyncMode};
use crate::path::PathView;
use crate::protocol::{EntryKind, Listed};
#[allow(unused_imports)]
use crate::removal;
#[allow(unused_imports)]
use crate::sync;
#[allow(unused_imports)]
use crate::text;
use vstd::prelude::*;
#[allow(unused_imports)]
use vstd::utf8::*;

verus! {

/// Whether a request puts something at a name in the shared directory.
pub open spec fn places(request: CompanionRequest<Seq<u8>, Seq<char>>) -> bool {
    request is LinkFile || request is CopyFile
}

/// Whether a request, carried out, changes anything on disk.
pub open spec fn writes(request: CompanionRequest<Seq<u8>, Seq<char>>) -> bool {
    match request {
        CompanionRequest::CreateDir => true,
        CompanionRequest::Remove { from, to, request } => request is Remove,
        _ => places(request),
    }
}

/// The name in the shared directory that a request is about.
pub open spec fn about(request: CompanionRequest<Seq<u8>, Seq<char>>) -> Option<Seq<char>> {
    match request {
        CompanionRequest::Remove { from, to, request } => Some(to),
        CompanionRequest::LinkFile { from, to } => Some(to),
        CompanionRequest::CopyFile { from, to } => Some(to),
        _ => None,
    }
}

/// The companion file that a request is about.
pub open spec fn file_of(request: CompanionRequest<Seq<u8>, Seq<char>>) -> Option<Seq<u8>> {
    match request {
        CompanionRequest::Remove { from, to, request } => Some(from),
        CompanionRequest::LinkFile { from, to } => Some(from),
        CompanionRequest::CopyFile { from, to } => Some(from),
        _ => None,
    }
}

/// The names of the regular files among these entries, in order.
pub open spec fn regular_files(entries: Seq<Listed<Seq<u8>>>) -> Seq<Seq<u8>>
    decreases entries.len(),
{
    if entries.len() == 0 {
        seq![]
    } else {
        let rest = regular_files(entries.drop_first());
        match entries[0] {
            Listed::Found { name, kind } if kind == EntryKind::File => seq![name] + rest,
            _ => rest,
        }
    }
}

/// The names that files get in the shared directory, in order.
pub open spec fn companion_names(skill_name: Seq<char>, files: Seq<Seq<u8>>) -> Seq<Seq<char>> {
    Seq::new(files.len(), |i: int| companion::companion_name(skill_name, files[i]))
}

/// A skill without companion files leaves no trace: not even the shared directory is
/// made.
pub proof fn law_no_companions_no_change(
    skill_name: Seq<char>,
    mode: SyncMode,
    platform: Platform,
    world: CompanionWorld,
)
    requires
        !world.subdir,
    ensures
        companion::companion_sync(skill_name, mode, platform, world) == (CompanionTrace {
            requests: seq![CompanionRequest::CheckSubdir],
            result: Ok(seq![]),
        }),
{
    let trace = companion::companion_sync(skill_name, mode, platform, world);
    assert(trace.requests =~= seq![CompanionRequest::<Seq<u8>, Seq<char>>::CheckSubdir]);
}

proof fn lemma_written(
    skill_name: Seq<char>,
    mode: SyncMode,
    platform: Platform,
    world: CompanionWorld,
    entries: Seq<Listed<Seq<u8>>>,
    written: Seq<Seq<char>>,
)
    requires
        companion::placing_files(
            skill_name,
            mode,
            platform,
            world,
            entries,
            written,
        ).result is Ok,
    ensures
        companion::placing_files(
            skill_name,
            mode,
            platform,
            world,
            entries,
            written,
        ).result->Ok_0 == written + companion_names(skill_name, regular_files(entries)),
    decreases entries.len(),
{
    let names = companion_names(skill_name, regular_files(entries));
    if entries.len() == 0 {
        assert(written + names =~= written);
    } else {
        let rest = entries.drop_first();
        let others = companion_names(skill_name, regular_files(rest));
        match entries[0] {
            Listed::Failed(_) => {},
            Listed::Found { name, kind } => {
                if kind == EntryKind::File {
                    let to = companion::companion_name(skill_name, name);
                    lemma_written(skill_name, mode, platform, world, rest, written.push(to));
                    assert(written + names =~= written.push(to) + others);
                } else {
                    lemma_written(skill_name, mode, platform, world, rest, written);
                }
            },
        }
    }
}

/// A companion sync that succeeds has written exactly the regular files of the skill's
/// companion directory, each under its companion name, in the order of the listing.
pub proof fn law_written_are_the_regular_files(
    skill_name: Seq<char>,
    mode: SyncMode,
    platform: Platform,
    world: CompanionWorld,
)
    requires
        world.subdir,
        companion::companion_sync(skill_name, mode, platform, world).result is Ok,
    ensures
        world.listed is Ok,
        companion::companion_sync(skill_name, mode, platform, world).result->Ok_0
            == companion_names(skill_name, regular_files(world.listed->Ok_0)),
{
    let entries = world.listed->Ok_0;
    lemma_written(skill_name, mode, platform, world, entries, seq![]);
    let names = companion_names(skill_name, regular_files(entries));
    assert(Seq::<Seq<char>>::empty() + names =~= names);
}

/// What a companion sync reports stands for absolute paths: each regular file, in the order
/// of the listing, is at its companion name in the shared directory, and that place does not
/// depend on the current directory any more. The shared directory may be given as a relative
/// path, but not as one on a drive without a root.
pub proof fn law_written_paths_are_absolute(
    skill_name: Seq<char>,
    mode: SyncMode,
    platform: Platform,
    world: CompanionWorld,
    current: PathView,
    target_dir: PathView,
    i: int,
)
    requires
        world.subdir,
        companion::companion_sync(skill_name, mode, platform, world).result is Ok,
        0 <= i < companion::companion_sync(
            skill_name,
            mode,
            platform,
            world,
        ).result->Ok_0.len(),
        current.is_fixed(),
        !target_dir.is_drive_relative(),
        target_dir.absolute ==> target_dir.is_fixed(),
    ensures
        ({
            let name = companion::companion_sync(
                skill_name,
                mode,
                platform,
                world,
            ).result->Ok_0[i];
            &&& name == companion::companion_name(
                skill_name,
                regular_files(world.listed->Ok_0)[i],
            )
            &&& companion::written_place(current, target_dir, name).is_fixed()
        }),
{
    law_written_are_the_regular_files(skill_name, mode, platform, world);
    let written = companion::companion_sync(skill_name, mode, platform, world).result->Ok_0;
    companion::lemma_written_place_is_fixed(current, target_dir, written[i]);
}

/// Whether a request is about this regular file: it clears the file's companion name, or
/// puts the file there.
pub open spec fn is_about(
    skill_name: Seq<char>,
    entry: Listed<Seq<u8>>,
    request: CompanionRequest<Seq<u8>, Seq<char>>,
) -> bool {
    match entry {
        Listed::Failed(_) => false,
        Listed::Found { name, kind } => {
            &&& kind == EntryKind::File
            &&& about(request) == Some(companion::companion_name(skill_name, name))
            &&& match request {
                CompanionRequest::Remove { from, to, request } => from == name,
                CompanionRequest::LinkFile { from, to } => from == name,
                CompanionRequest::CopyFile { from, to } => from == name,
                _ => true,
            }
        },
    }
}

/// Whether a request is about one of the regular files among these entries.
pub open spec fn is_about_a_file(
    skill_name: Seq<char>,
    entries: Seq<Listed<Seq<u8>>>,
    request: CompanionRequest<Seq<u8>, Seq<char>>,
) -> bool {
    exists|i: int| 0 <= i < entries.len() && is_about(skill_name, #[trigger] entries[i], request)
}

proof fn lemma_about_files(
    skill_name: Seq<char>,
    mode: SyncMode,
    platform: Platform,
    world: CompanionWorld,
    entries: Seq<Listed<Seq<u8>>>,
    written: Seq<Seq<char>>,
    at: int,
)
    requires
        0 <= at < companion::placing_files(
            skill_name,
            mode,
            platform,
            world,
            entries,
            written,
        ).requests.len(),
    ensures
        is_about_a_file(
            skill_name,
            entries,
            companion::placing_files(
                skill_name,
                mode,
                platform,
                world,
                entries,
                written,
            ).requests[at],
        ),
    decreases entries.len(),
{
    let trace = companion::placing_files(skill_name, mode, platform, world, entries, written);
    let request = trace.requests[at];
    let rest = entries.drop_first();
    match entries[0] {
        Listed::Failed(_) => {},
        Listed::Found { name, kind } => {
            let to = companion::companion_name(skill_name, name);
            let first = companion::file_requests(mode, platform, world, name, to);
            if kind == EntryKind::File && at < first.len() {
                assert(request == first[at]);
                assert(entries[0] == (Listed::Found { name, kind }));
            } else {
                let (done, later) = if kind == EntryKind::File {
                    (written.push(to), at - first.len())
                } else {
                    (written, at)
                };
                lemma_about_files(skill_name, mode, platform, world, rest, done, later);
                let i = choose|i: int|
                    0 <= i < rest.len() && is_about(skill_name, #[trigger] rest[i], request);
                assert(entries[i + 1] == rest[i]);
            }
        },
    }
}

/// Nothing in the shared directory is touched but the companion names of the skill's
/// regular files: directories and whatever else lies beside them are passed over.
pub proof fn law_only_companion_names_are_touched(
    skill_name: Seq<char>,
    mode: SyncMode,
    platform: Platform,
    world: CompanionWorld,
    at: int,
)
    requires
        0 <= at < companion::companion_sync(skill_name, mode, platform, world).requests.len(),
        about(
            companion::companion_sync(skill_name, mode, platform, world).requests[at],
        ) is Some,
    ensures
        world.listed is Ok,
        is_about_a_file(
            skill_name,
            world.listed->Ok_0,
            companion::companion_sync(skill_name, mode, platform, world).requests[at],
        ),
{
    let entries = world.listed->Ok_0;
    if world.subdir && world.created is Ok && world.listed is Ok {
        lemma_about_files(
            skill_name,
            mode,
            platform,
            world,
            entries,
            seq![],
            at - 4,
        );
    }
}

/// Whether a part of a sequence of requests starts at `from` and is over before `at`.
pub open spec fn stands_before(
    part: Seq<CompanionRequest<Seq<u8>, Seq<char>>>,
    requests: Seq<CompanionRequest<Seq<u8>, Seq<char>>>,
    from: int,
    at: int,
) -> bool {
    0 <= from && from + part.len() <= at && requests.subrange(from, from + part.len()) == part
}

proof fn lemma_cleared_first(
    skill_name: Seq<char>,
    mode: SyncMode,
    platform: Platform,
    world: CompanionWorld,
    entries: Seq<Listed<Seq<u8>>>,
    written: Seq<Seq<char>>,
    at: int,
)
    requires
        0 <= at < companion::placing_files(
            skill_name,
            mode,
            platform,
            world,
            entries,
            written,
        ).requests.len(),
        places(
            companion::placing_files(
                skill_name,
                mode,
                platform,
                world,
                entries,
                written,
            ).requests[at],
        ),
    ensures
        ({
            let requests = companion::placing_files(
                skill_name,
                mode,
                platform,
                world,
                entries,
                written,
            ).requests;
            let from = file_of(requests[at])->0;
            let to = about(requests[at])->0;
            let clearing = companion::removal_part(
                from,
                to,
                removal::removal_requests(platform, (world.removal)(from, to)),
            );
            exists|start: int| #[trigger] stands_before(clearing, requests, start, at)
        }),
    decreases entries.len(),
{
    let requests = companion::placing_files(
        skill_name,
        mode,
        platform,
        world,
        entries,
        written,
    ).requests;
    let rest = entries.drop_first();
    match entries[0] {
        Listed::Failed(_) => {},
        Listed::Found { name, kind } => {
            let to = companion::companion_name(skill_name, name);
            let first = companion::file_requests(mode, platform, world, name, to);
            if kind == EntryKind::File && at < first.len() {
                assert(requests[at] == first[at]);
                let file_at = file_of(requests[at])->0;
                let name_at = about(requests[at])->0;
                let clearing = companion::removal_part(
                    file_at,
                    name_at,
                    removal::removal_requests(platform, (world.removal)(file_at, name_at)),
                );
                assert(name_at == to && file_at == name);
                assert(clearing.len() <= at) by {
                    if at < clearing.len() {
                        assert(first[at] == clearing[at]);
                    }
                }
                let start: int = 0;
                assert(requests.subrange(start, start + clearing.len()) =~= clearing);
                assert(stands_before(clearing, requests, start, at));
            } else {
                let (done, skipped) = if kind == EntryKind::File {
                    (written.push(to), first.len() as int)
                } else {
                    (written, 0)
                };
                lemma_cleared_first(
                    skill_name,
                    mode,
                    platform,
                    world,
                    rest,
                    done,
                    at - skipped,
                );
                let others = companion::placing_files(
                    skill_name,
                    mode,
                    platform,
                    world,
                    rest,
                    done,
                ).requests;
                let file_at = file_of(requests[at])->0;
                let name_at = about(requests[at])->0;
                let clearing = companion::removal_part(
                    file_at,
                    name_at,
                    removal::removal_requests(platform, (world.removal)(file_at, name_at)),
                );
                assert(requests[at] == others[at - skipped]);
                let earlier = choose|start: int| #[trigger]
                    stands_before(clearing, others, start, at - skipped);
                let shifted = earlier + skipped;
                assert(requests.subrange(shifted, shifted + clearing.len()) =~= clearing) by {
                    assert forall|k: int| 0 <= k < clearing.len() implies requests[shifted + k]
                        == clearing[k] by {
                        assert(others[earlier + k] == others.subrange(
                            earlier,
                            earlier + clearing.len(),
                        )[k]);
                    }
                }
                assert(stands_before(clearing, requests, shifted, at));
            }
        },
    }
}

/// Before a file is put at a name, what stood at that name is removed.
pub proof fn law_names_are_cleared_first(
    skill_name: Seq<char>,
    mode: SyncMode,
    platform: Platform,
    world: CompanionWorld,
    at: int,
)
    requires
        0 <= at < companion::companion_sync(skill_name, mode, platform, world).requests.len(),
        places(companion::companion_sync(skill_name, mode, platform, world).requests[at]),
    ensures
        ({
            let requests = companion::companion_sync(skill_name, mode, platform, world).requests;
            let from = file_of(requests[at])->0;
            let to = about(requests[at])->0;
            let clearing = companion::removal_part(
                from,
                to,
                removal::removal_requests(platform, (world.removal)(from, to)),
            );
            exists|start: int| #[trigger] stands_before(clearing, requests, start, at)
        }),
{
    let requests = companion::companion_sync(skill_name, mode, platform, world).requests;
    if world.subdir && world.created is Ok && world.listed is Ok {
        let entries = world.listed->Ok_0;
        let placing = companion::placing_files(
            skill_name,
            mode,
            platform,
            world,
            entries,
            seq![],
        ).requests;
        lemma_cleared_first(skill_name, mode, platform, world, entries, seq![], at - 4);
        assert(requests[at] == placing[at - 4]);
        let from = file_of(requests[at])->0;
        let to = about(requests[at])->0;
        let clearing = companion::removal_part(
            from,
            to,
            removal::removal_requests(platform, (world.removal)(from, to)),
        );
        let earlier = choose|start: int| #[trigger]
            stands_before(clearing, placing, start, at - 4);
        let shifted = earlier + 4;
        assert(requests.subrange(shifted, shifted + clearing.len()) =~= clearing) by {
            assert forall|k: int| 0 <= k < clearing.len() implies requests[shifted + k]
                == clearing[k] by {
                assert(placing[earlier + k] == placing.subrange(
                    earlier,
                    earlier + clearing.len(),
                )[k]);
            }
        }
        assert(stands_before(clearing, requests, shifted, at));
    }
}

/// A regular file among entries is one of the regular files.
proof fn lemma_regular_file_is_listed(entries: Seq<Listed<Seq<u8>>>, at: int, name: Seq<u8>)
    requires
        0 <= at < entries.len(),
        entries[at] == (Listed::Found { name, kind: EntryKind::File }),
    ensures
        regular_files(entries).contains(name),
    decreases entries.len(),
{
    let all = regular_files(entries);
    let others = regular_files(entries.drop_first());
    if at == 0 {
        assert(all[0] == name);
    } else {
        assert(entries.drop_first()[at - 1] == entries[at]);
        lemma_regular_file_is_listed(entries.drop_first(), at - 1, name);
        let i = choose|i: int| 0 <= i < others.len() && others[i] == name;
        if all.len() == others.len() {
            assert(all[i] == name);
        } else {
            assert(all[i + 1] == name);
        }
    }
}

proof fn lemma_no_request_is_repeated(
    skill_name: Seq<char>,
    mode: SyncMode,
    platform: Platform,
    world: CompanionWorld,
    entries: Seq<Listed<Seq<u8>>>,
    written: Seq<Seq<char>>,
)
    requires
        regular_files(entries).no_duplicates(),
    ensures
        companion::placing_files(
            skill_name,
            mode,
            platform,
            world,
            entries,
            written,
        ).requests.no_duplicates(),
    decreases entries.len(),
{
    if entries.len() > 0 {
        let rest = entries.drop_first();
        match entries[0] {
            Listed::Failed(_) => {},
            Listed::Found { name, kind } => {
                if kind == EntryKind::File {
                    let all = regular_files(entries);
                    let others = regular_files(rest);
                    let to = companion::companion_name(skill_name, name);
                    let requests = companion::placing_files(
                        skill_name,
                        mode,
                        platform,
                        world,
                        entries,
                        written,
                    ).requests;
                    let first = companion::file_requests(mode, platform, world, name, to);
                    let later = if companion::placing_error(
                        mode,
                        platform,
                        world,
                        name,
                        to,
                    ) is Some {
                        seq![]
                    } else {
                        companion::placing_files(
                            skill_name,
                            mode,
                            platform,
                            world,
                            rest,
                            written.push(to),
                        ).requests
                    };
                    assert(all =~= seq![name] + others);
                    assert(others.no_duplicates()) by {
                        assert forall|i: int, j: int|
                            0 <= i < others.len() && 0 <= j < others.len() && i
                                != j implies others[i] != others[j] by {
                            assert(all[i + 1] == others[i] && all[j + 1] == others[j]);
                        }
                    }
                    lemma_no_request_is_repeated(
                        skill_name,
                        mode,
                        platform,
                        world,
                        rest,
                        written.push(to),
                    );
                    assert forall|i: int| 0 <= i < first.len() implies file_of(#[trigger] first[i])
                        == Some(name) by {}
                    assert forall|j: int| 0 <= j < later.len() implies file_of(#[trigger] later[j])
                        != Some(name) by {
                        lemma_about_files(
                            skill_name,
                            mode,
                            platform,
                            world,
                            rest,
                            written.push(to),
                            j,
                        );
                        let k = choose|k: int|
                            0 <= k < rest.len() && is_about(
                                skill_name,
                                #[trigger] rest[k],
                                later[j],
                            );
                        let other = rest[k]->name;
                        lemma_regular_file_is_listed(rest, k, other);
                        let n = choose|n: int| 0 <= n < others.len() && others[n] == other;
                        assert(all[n + 1] == other && all[0] == name);
                    }
                    assert(requests =~= first + later);
                    assert forall|i: int, j: int|
                        0 <= i < j < requests.len() implies requests[i] != requests[j] by {
                        if j < first.len() {
                            assert(first[i] != first[j]);
                        } else if i < first.len() {
                            assert(file_of(first[i]) != file_of(later[j - first.len()]));
                        } else {
                            assert(later[i - first.len()] != later[j - first.len()]);
                        }
                    }
                } else {
                    lemma_no_request_is_repeated(
                        skill_name,
                        mode,
                        platform,
                        world,
                        rest,
                        written,
                    );
                }
            },
        }
    }
}

/// A companion sync that finds each file once asks nothing twice.
pub proof fn law_no_request_is_repeated(
    skill_name: Seq<char>,
    mode: SyncMode,
    platform: Platform,
    world: CompanionWorld,
)
    requires
        world.listed is Ok ==> regular_files(world.listed->Ok_0).no_duplicates(),
    ensures
        companion::companion_sync(skill_name, mode, platform, world).requests.no_duplicates(),
{
    let requests = companion::companion_sync(skill_name, mode, platform, world).requests;
    if world.subdir && world.created is Ok && world.listed is Ok {
        let entries = world.listed->Ok_0;
        let placing = companion::placing_files(
            skill_name,
            mode,
            platform,
            world,
            entries,
            seq![],
        ).requests;
        lemma_no_request_is_repeated(skill_name, mode, platform, world, entries, seq![]);
        assert forall|i: int, j: int| 0 <= i < j < requests.len() implies requests[i]
            != requests[j] by {
            if j >= 4 {
                assert(requests[j] == placing[j - 4]);
                if i >= 4 {
                    assert(requests[i] == placing[i - 4]);
                } else {
                    lemma_about_files(
                        skill_name,
                        mode,
                        platform,
                        world,
                        entries,
                        seq![],
                        j - 4,
                    );
                    assert(about(requests[j]) is Some);
                    assert(about(requests[i]) is None);
                }
            }
        }
    }
}

/// The watcher is told before anything on disk changes.
pub proof fn law_watcher_is_told_first(
    skill_name: Seq<char>,
    mode: SyncMode,
    platform: Platform,
    world: CompanionWorld,
    at: int,
)
    requires
        0 <= at < companion::companion_sync(skill_name, mode, platform, world).requests.len(),
        writes(companion::companion_sync(skill_name, mode, platform, world).requests[at]),
    ensures
        companion::companion_sync(skill_name, mode, platform, world).requests.take(at).contains(
            CompanionRequest::Mute,
        ),
{
    let requests = companion::companion_sync(skill_name, mode, platform, world).requests;
    assert(requests[0] == CompanionRequest::<Seq<u8>, Seq<char>>::CheckSubdir);
    if world.subdir {
        assert(requests[1] == CompanionRequest::<Seq<u8>, Seq<char>>::Mute);
        assert(requests.take(at)[1] == CompanionRequest::<Seq<u8>, Seq<char>>::Mute);
    }
}

/// Two files of one skill get different names in the shared directory, as long as their
/// own names are text.
pub proof fn law_files_of_a_skill_do_not_clash(skill_name: Seq<char>, a: Seq<u8>, b: Seq<u8>)
    requires
        valid_utf8(a),
        valid_utf8(b),
        a != b,
    ensures
        companion::companion_name(skill_name, a) != companion::companion_name(skill_name, b),
{
    decode_utf8_encode_utf8(a);
    decode_utf8_encode_utf8(b);
    let front = skill_name + "-"@;
    if companion::companion_name(skill_name, a) == companion::companion_name(skill_name, b) {
        assert((front + text::shown(a)).skip(front.len() as int) =~= text::shown(a));
        assert((front + text::shown(b)).skip(front.len() as int) =~= text::shown(b));
    }
}

/// Whether a skill's name is another's with a dash and something after it.
pub open spec fn extends(longer: Seq<char>, shorter: Seq<char>, middle: Seq<char>) -> bool {
    longer == shorter + "-"@ + middle
}

/// Files of two skills clash in the shared directory only where one skill's name is the
/// other's with a dash and something after it, and the file of the skill with the shorter
/// name begins with that something and a dash.
pub proof fn law_when_skills_clash(a: Seq<char>, file_a: Seq<u8>, b: Seq<char>, file_b: Seq<u8>)
    ensures
        companion::companion_name(a, file_a) == companion::companion_name(b, file_b) <==> {
            ||| a == b && text::shown(file_a) == text::shown(file_b)
            ||| exists|middle: Seq<char>| #[trigger]
                extends(b, a, middle) && text::shown(file_a) == middle + "-"@ + text::shown(file_b)
            ||| exists|middle: Seq<char>| #[trigger]
                extends(a, b, middle) && text::shown(file_b) == middle + "-"@ + text::shown(file_a)
        },
{
    let x = text::shown(file_a);
    let y = text::shown(file_b);
    if companion::companion_name(a, file_a) == companion::companion_name(b, file_b) {
        if a.len() <= b.len() {
            lemma_clash(a, x, b, y);
        } else {
            lemma_clash(b, y, a, x);
        }
    }
    assert forall|middle: Seq<char>| #[trigger]
        extends(b, a, middle) && x == middle + "-"@ + y implies a + "-"@ + x == b + "-"@ + y by {
        assert(a + "-"@ + x =~= b + "-"@ + y);
    }
    assert forall|middle: Seq<char>| #[trigger]
        extends(a, b, middle) && y == middle + "-"@ + x implies a + "-"@ + x == b + "-"@ + y by {
        assert(a + "-"@ + x =~= b + "-"@ + y);
    }
}

proof fn lemma_clash(a: Seq<char>, x: Seq<char>, b: Seq<char>, y: Seq<char>)
    requires
        a.len() <= b.len(),
        a + "-"@ + x == b + "-"@ + y,
    ensures
        (a == b && x == y) || exists|middle: Seq<char>| #[trigger]
            extends(b, a, middle) && x == middle + "-"@ + y,
{
    reveal_strlit("-");
    let whole = a + "-"@ + x;
    let same = b + "-"@ + y;
    let n = a.len() as int;
    let m = b.len() as int;
    assert(whole.take(n) =~= a);
    assert(whole.skip(n + 1) =~= x);
    assert(same.take(m) =~= b);
    assert(same.skip(m + 1) =~= y);
    if n < m {
        let middle = b.skip(n + 1);
        assert(b =~= a + "-"@ + middle) by {
            assert forall|i: int| 0 <= i < m implies b[i] == (a + "-"@ + middle)[i] by {
                assert(b[i] == same[i]);
                assert(whole[i] == same[i]);
            }
        }
        assert(same.skip(n + 1) =~= middle + "-"@ + y);
        assert(extends(b, a, middle));
    } else {
        assert(a =~= b);
        assert(x =~= y);
    }
}

/// Skills neither of whose names extends the other's with a dash never get into each
/// other's way.
pub proof fn law_unrelated_skills_do_not_clash(
    a: Seq<char>,
    file_a: Seq<u8>,
    b: Seq<char>,
    file_b: Seq<u8>,
)
    requires
        a != b,
        forall|middle: Seq<char>| !extends(a, b, middle),
        forall|middle: Seq<char>| !extends(b, a, middle),
    ensures
        companion::companion_name(a, file_a) != companion::companion_name(b, file_b),
{
    law_when_skills_clash(a, file_a, b, file_b);
}

proof fn lemma_kinds_of_placing(
    skill_name: Seq<char>,
    mode: SyncMode,
    platform: Platform,
    world: CompanionWorld,
    entries: Seq<Listed<Seq<u8>>>,
    written: Seq<Seq<char>>,
    at: int,
)
    requires
        0 <= at < companion::placing_files(
            skill_name,
            mode,
            platform,
            world,
            entries,
            written,
        ).requests.len(),
    ensures
        ({
            let request = companion::placing_files(
                skill_name,
                mode,
                platform,
                world,
                entries,
                written,
            ).requests[at];
            &&& request is LinkFile ==> sync::links(mode, platform)
            &&& request matches CompanionRequest::CopyFile { from, to } ==> !sync::links(
                mode,
                platform,
            ) || companion::falls_back(platform, world, from, to)
        }),
    decreases entries.len(),
{
    let rest = entries.drop_first();
    match entries[0] {
        Listed::Failed(_) => {},
        Listed::Found { name, kind } => {
            let to = companion::companion_name(skill_name, name);
            let first = companion::file_requests(mode, platform, world, name, to);
            if kind == EntryKind::File {
                if at >= first.len() {
                    lemma_kinds_of_placing(
                        skill_name,
                        mode,
                        platform,
                        world,
                        rest,
                        written.push(to),
                        at - first.len(),
                    );
                }
            } else {
                lemma_kinds_of_placing(skill_name, mode, platform, world, rest, written, at);
            }
        },
    }
}

/// Links are made only where they are asked for and the platform has them, and copies
/// only where links are not, or where the platform refused one.
pub proof fn law_mode_decides_how_files_are_placed(
    skill_name: Seq<char>,
    mode: SyncMode,
    platform: Platform,
    world: CompanionWorld,
    at: int,
)
    requires
        0 <= at < companion::companion_sync(skill_name, mode, platform, world).requests.len(),
    ensures
        ({
            let request = companion::companion_sync(
                skill_name,
                mode,
                platform,
                world,
            ).requests[at];
            &&& request is LinkFile ==> sync::links(mode, platform)
            &&& request matches CompanionRequest::CopyFile { from, to } ==> !sync::links(
                mode,
                platform,
            ) || companion::falls_back(platform, world, from, to)
        }),
{
    if world.subdir && world.created is Ok && world.listed is Ok && at >= 4 {
        lemma_kinds_of_placing(
            skill_name,
            mode,
            platform,
            world,
            world.listed->Ok_0,
            seq![],
            at - 4,
        );
    }
}

} // verus!
