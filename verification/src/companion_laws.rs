//! What can be relied on when companion files are placed.

#[allow(unused_imports)]
use crate::companion;
use crate::companion::{CompanionError, CompanionRequest, CompanionView, CompanionWorld};
use crate::mode::{Platform, SyncMode};
use crate::path::PathView;
#[allow(unused_imports)]
use crate::protocol;
use crate::protocol::{EntryKind, Failure, Listed, Protocol, Reply, ReplyView};
#[allow(unused_imports)]
use crate::removal;
use crate::removal::{RemovalPhase, RemovalRequest, RemovalRun};
#[allow(unused_imports)]
use crate::text;
use vstd::prelude::*;
#[allow(unused_imports)]
use vstd::string::*;
#[allow(unused_imports)]
use vstd::utf8::*;

verus! {

/// Text that is put together has the bytes of its parts.
proof fn lemma_encoded_in_parts(a: Seq<char>, b: Seq<char>)
    ensures
        encode_utf8(a + b) == encode_utf8(a) + encode_utf8(b),
    decreases a.len(),
{
    if a.len() == 0 {
        assert(a + b =~= b);
        assert(encode_utf8(a) =~= seq![]);
        assert(encode_utf8(a) + encode_utf8(b) =~= encode_utf8(b));
    } else {
        lemma_encoded_in_parts(a.drop_first(), b);
        assert((a + b).drop_first() =~= a.drop_first() + b);
        assert((a + b)[0] == a[0]);
        assert(encode_utf8(a + b) =~= encode_utf8(a) + encode_utf8(b));
    }
}

proof fn lemma_encoded_dash()
    ensures
        encode_utf8("-"@) == seq![0x2du8],
{
    reveal_strlit("-");
    let dash = "-"@;
    assert(dash.len() == 1 && dash[0] == '-');
    assert(is_ascii_chars(dash));
    is_ascii_chars_encode_utf8(dash);
    assert(encode_utf8(dash)[0] == dash[0] as u8);
    assert(encode_utf8(dash) =~= seq![0x2du8]);
}

/// The name of a companion file in the shared directory is the skill's name, a dash and the
/// file's own name, letter for letter and, where the name is valid UTF-8, byte for byte.
/// Where it is not, its lossy reading stands in its place.
pub proof fn law_companion_name_is_skill_dash_name(skill_name: Seq<char>, name: Seq<u8>)
    ensures
        valid_utf8(name) ==> companion::companion_name(skill_name, name) == skill_name + seq!['-']
            + decode_utf8(name),
        valid_utf8(name) ==> encode_utf8(companion::companion_name(skill_name, name))
            == encode_utf8(skill_name) + seq![0x2du8] + name,
        !valid_utf8(name) ==> companion::companion_name(skill_name, name) == skill_name
            + seq!['-'] + text::lossy_decoding(name),
{
    reveal_strlit("-");
    assert("-"@ =~= seq!['-']);
    if valid_utf8(name) {
        let shown = decode_utf8(name);
        lemma_encoded_dash();
        lemma_encoded_in_parts(skill_name + "-"@, shown);
        lemma_encoded_in_parts(skill_name, "-"@);
        decode_utf8_encode_utf8(name);
    }
}

/// One skill's files with different names that are valid UTF-8 get different names in the
/// shared directory.
pub proof fn law_companion_files_do_not_share_a_name(
    skill_name: Seq<char>,
    name: Seq<u8>,
    other: Seq<u8>,
)
    requires
        valid_utf8(name),
        valid_utf8(other),
        name != other,
    ensures
        companion::companion_name(skill_name, name) != companion::companion_name(
            skill_name,
            other,
        ),
{
    law_companion_name_is_skill_dash_name(skill_name, name);
    law_companion_name_is_skill_dash_name(skill_name, other);
    let front = encode_utf8(skill_name) + seq![0x2du8];
    if front + name == front + other {
        assert(name =~= (front + name).skip(front.len() as int));
        assert(other =~= (front + other).skip(front.len() as int));
    }
}

proof fn lemma_settled(
    skill_name: Seq<char>,
    mode: SyncMode,
    platform: Platform,
    world: CompanionWorld,
    requests: Seq<CompanionRequest<Seq<u8>, Seq<char>>>,
    result: Result<Seq<Seq<char>>, CompanionError<Seq<u8>, Seq<char>>>,
)
    requires
        protocol::ends(
            companion::companion_sync_of(skill_name, mode, platform),
            world,
            requests,
            result,
        ),
    ensures
        requests == companion::companion_sync(skill_name, mode, platform, world).requests,
        result == companion::companion_sync(skill_name, mode, platform, world).result,
{
    let trace = companion::companion_sync(skill_name, mode, platform, world);
    companion::lemma_companion_sync_ends(skill_name, mode, platform, world);
    protocol::law_runs_end_one_way(
        companion::companion_sync_of(skill_name, mode, platform),
        world,
        (requests, result),
        (trace.requests, trace.result),
    );
}

/// A skill without companion files leaves everything as it is; and before the first file is
/// seen to, the watcher is told, the shared directory made and the companion directory
/// read, each of which can fail. An empty companion directory gives nothing to write.
pub proof fn law_companion_sync_prepares(
    skill_name: Seq<char>,
    mode: SyncMode,
    platform: Platform,
    world: CompanionWorld,
    requests: Seq<CompanionRequest<Seq<u8>, Seq<char>>>,
    result: Result<Seq<Seq<char>>, CompanionError<Seq<u8>, Seq<char>>>,
)
    requires
        protocol::ends(
            companion::companion_sync_of(skill_name, mode, platform),
            world,
            requests,
            result,
        ),
    ensures
        !world.subdir ==> requests == seq![CompanionRequest::<Seq<u8>, Seq<char>>::CheckSubdir]
            && result is Ok && result->Ok_0.len() == 0,
        world.subdir && world.created is Err ==> requests == seq![
            CompanionRequest::<Seq<u8>, Seq<char>>::CheckSubdir,
            CompanionRequest::Mute,
            CompanionRequest::CreateDir,
        ] && result == Err::<Seq<Seq<char>>, CompanionError<Seq<u8>, Seq<char>>>(
            CompanionError::DirNotCreated(world.created->Err_0),
        ),
        world.subdir && world.created is Ok && world.listed is Err ==> requests == seq![
            CompanionRequest::<Seq<u8>, Seq<char>>::CheckSubdir,
            CompanionRequest::Mute,
            CompanionRequest::CreateDir,
            CompanionRequest::ListSubdir,
        ] && result == Err::<Seq<Seq<char>>, CompanionError<Seq<u8>, Seq<char>>>(
            CompanionError::SubdirNotRead(world.listed->Err_0),
        ),
        world.subdir && world.created is Ok && world.listed is Ok && world.listed->Ok_0.len() == 0
            ==> requests == seq![
            CompanionRequest::<Seq<u8>, Seq<char>>::CheckSubdir,
            CompanionRequest::Mute,
            CompanionRequest::CreateDir,
            CompanionRequest::ListSubdir,
        ] && result is Ok && result->Ok_0.len() == 0,
        world.subdir && world.created is Ok && world.listed is Ok ==> requests.len() >= 4
            && requests.take(4) == seq![
            CompanionRequest::<Seq<u8>, Seq<char>>::CheckSubdir,
            CompanionRequest::Mute,
            CompanionRequest::CreateDir,
            CompanionRequest::ListSubdir,
        ],
{
    lemma_settled(skill_name, mode, platform, world, requests, result);
    if world.subdir && world.created is Ok && world.listed is Ok {
        let begin = seq![
            CompanionRequest::<Seq<u8>, Seq<char>>::CheckSubdir,
            CompanionRequest::Mute,
            CompanionRequest::CreateDir,
            CompanionRequest::ListSubdir,
        ];
        let entries = world.listed->Ok_0;
        let later = companion::placing_files(
            skill_name,
            mode,
            platform,
            world,
            entries,
            seq![],
        ).requests;
        assert(requests =~= begin + later);
        assert(requests.take(4) =~= begin);
    }
}

/// Placing files goes the same way whatever was written before, and whatever the companion
/// directory is said to hold besides.
proof fn lemma_placing_goes_on(
    skill_name: Seq<char>,
    mode: SyncMode,
    platform: Platform,
    world: CompanionWorld,
    other: CompanionWorld,
    entries: Seq<Listed<Seq<u8>>>,
    before: Seq<Seq<char>>,
    written: Seq<Seq<char>>,
)
    requires
        world.removal == other.removal,
        world.linked == other.linked,
        world.copied == other.copied,
    ensures
        ({
            let a = companion::placing_files(
                skill_name,
                mode,
                platform,
                world,
                entries,
                before + written,
            );
            let b = companion::placing_files(skill_name, mode, platform, other, entries, written);
            &&& a.requests == b.requests
            &&& a.result == match b.result {
                Ok(names) => Ok::<_, CompanionError<Seq<u8>, Seq<char>>>(before + names),
                Err(error) => Err(error),
            }
        }),
    decreases entries.len(),
{
    if entries.len() > 0 {
        let rest = entries.drop_first();
        match entries[0] {
            Listed::Failed(_) => {},
            Listed::Found { name, kind } => {
                if kind == EntryKind::File {
                    let to = companion::companion_name(skill_name, name);
                    lemma_placing_goes_on(
                        skill_name,
                        mode,
                        platform,
                        world,
                        other,
                        rest,
                        before,
                        written.push(to),
                    );
                    assert((before + written).push(to) =~= before + written.push(to));
                } else {
                    lemma_placing_goes_on(
                        skill_name,
                        mode,
                        platform,
                        world,
                        other,
                        rest,
                        before,
                        written,
                    );
                }
            },
        }
    }
}

/// The companion directory is worked through entry by entry. An entry that cannot be read
/// ends the sync. One that is no regular file makes no difference at all. A regular file has
/// its name in the shared directory cleared, however that goes, and is linked there where
/// links are wanted and to be had, and else copied; on Windows a copy stands in for a link
/// that is refused. If that goes well the sync does with the other entries what it does
/// without the file, and the file's new name comes first among those written; and else it
/// ends with the reason.
pub proof fn law_companion_sync_goes_entry_by_entry(
    skill_name: Seq<char>,
    mode: SyncMode,
    platform: Platform,
    world: CompanionWorld,
    requests: Seq<CompanionRequest<Seq<u8>, Seq<char>>>,
    result: Result<Seq<Seq<char>>, CompanionError<Seq<u8>, Seq<char>>>,
    later_requests: Seq<CompanionRequest<Seq<u8>, Seq<char>>>,
    later_result: Result<Seq<Seq<char>>, CompanionError<Seq<u8>, Seq<char>>>,
    to: Seq<char>,
    removing: Seq<RemovalRequest>,
    removed: Result<(), Failure>,
)
    requires
        protocol::ends(
            companion::companion_sync_of(skill_name, mode, platform),
            world,
            requests,
            result,
        ),
        world.subdir,
        world.created is Ok,
        world.listed is Ok,
        world.listed->Ok_0.len() > 0,
        protocol::ends(
            companion::companion_sync_of(skill_name, mode, platform),
            CompanionWorld {
                listed: Ok(world.listed->Ok_0.drop_first()),
                subdir: world.subdir,
                created: world.created,
                removal: world.removal,
                linked: world.linked,
                copied: world.copied,
            },
            later_requests,
            later_result,
        ),
        match world.listed->Ok_0[0] {
            Listed::Found { name, kind } => to == skill_name + seq!['-'] + (if valid_utf8(name) {
                decode_utf8(name)
            } else {
                text::lossy_decoding(name)
            }) && protocol::ends(
                RemovalRun { platform, phase: RemovalPhase::Inspecting },
                (world.removal)(name, to),
                removing,
                removed,
            ),
            Listed::Failed(_) => true,
        },
    ensures
        match world.listed->Ok_0[0] {
            Listed::Failed(failure) => requests == seq![
                CompanionRequest::<Seq<u8>, Seq<char>>::CheckSubdir,
                CompanionRequest::Mute,
                CompanionRequest::CreateDir,
                CompanionRequest::ListSubdir,
            ] && result == Err::<Seq<Seq<char>>, CompanionError<Seq<u8>, Seq<char>>>(
                CompanionError::EntryNotRead(failure),
            ),
            Listed::Found { name: from, kind: EntryKind::File } => {
                let tries_link = mode == SyncMode::Symlink && (platform == Platform::Unix
                    || platform == Platform::Windows);
                let linked = (world.linked)(from, to);
                let copied = (world.copied)(from, to);
                let tries_copy = !tries_link || (platform == Platform::Windows && linked is Err);
                let link = CompanionRequest::<Seq<u8>, Seq<char>>::LinkFile { from, to };
                let copy = CompanionRequest::<Seq<u8>, Seq<char>>::CopyFile { from, to };
                let placing = if tries_link && tries_copy {
                    seq![link, copy]
                } else if tries_link {
                    seq![link]
                } else {
                    seq![copy]
                };
                let placed = if tries_copy {
                    copied is Ok
                } else {
                    linked is Ok
                };
                let first = seq![
                    CompanionRequest::<Seq<u8>, Seq<char>>::CheckSubdir,
                    CompanionRequest::Mute,
                    CompanionRequest::CreateDir,
                    CompanionRequest::ListSubdir,
                ] + removing.map_values(
                    |request: RemovalRequest| CompanionRequest::Remove { from, to, request },
                ) + placing;
                &&& placed ==> requests == first + later_requests.skip(4)
                &&& placed && later_result is Ok ==> result == Ok::<
                    Seq<Seq<char>>,
                    CompanionError<Seq<u8>, Seq<char>>,
                >(seq![to] + later_result->Ok_0)
                &&& placed && later_result is Err ==> result == later_result
                &&& !placed ==> requests == first
                &&& !placed && tries_copy ==> result == Err::<
                    Seq<Seq<char>>,
                    CompanionError<Seq<u8>, Seq<char>>,
                >(CompanionError::FileNotCopied { from, to, failure: copied->Err_0 })
                &&& !placed && !tries_copy ==> result == Err::<
                    Seq<Seq<char>>,
                    CompanionError<Seq<u8>, Seq<char>>,
                >(CompanionError::LinkNotCreated { from, to, failure: linked->Err_0 })
            },
            Listed::Found { name, kind } => requests == later_requests && result == later_result,
        },
{
    let entries = world.listed->Ok_0;
    let rest = entries.drop_first();
    let other = CompanionWorld {
        listed: Ok(rest),
        subdir: world.subdir,
        created: world.created,
        removal: world.removal,
        linked: world.linked,
        copied: world.copied,
    };
    lemma_settled(skill_name, mode, platform, world, requests, result);
    lemma_settled(skill_name, mode, platform, other, later_requests, later_result);
    let begin = seq![
        CompanionRequest::<Seq<u8>, Seq<char>>::CheckSubdir,
        CompanionRequest::Mute,
        CompanionRequest::CreateDir,
        CompanionRequest::ListSubdir,
    ];
    let none = Seq::<Seq<char>>::empty();
    let whole = companion::placing_files(skill_name, mode, platform, world, entries, none);
    let later = companion::placing_files(skill_name, mode, platform, other, rest, none);
    assert(requests =~= begin + whole.requests);
    assert(later_requests =~= begin + later.requests);
    assert(later_requests.skip(4) =~= later.requests);
    match entries[0] {
        Listed::Failed(_) => {},
        Listed::Found { name, kind } => {
            if kind == EntryKind::File {
                law_companion_name_is_skill_dash_name(skill_name, name);
                assert(to == companion::companion_name(skill_name, name));
                let replies = (world.removal)(name, to);
                let run = RemovalRun { platform, phase: RemovalPhase::Inspecting };
                removal::lemma_removal_ends(run, replies);
                protocol::law_runs_end_one_way(
                    run,
                    replies,
                    (removing, removed),
                    (
                        removal::removal_requests(platform, replies),
                        removal::removal_outcome(platform, replies),
                    ),
                );
                assert(companion::removal_part(name, to, removing) =~= removing.map_values(
                    |request: RemovalRequest| CompanionRequest::Remove { from: name, to, request },
                ));
                lemma_placing_goes_on(
                    skill_name,
                    mode,
                    platform,
                    world,
                    other,
                    rest,
                    seq![to],
                    none,
                );
                assert(none.push(to) =~= seq![to]);
                assert(seq![to] + none =~= seq![to]);
            } else {
                lemma_placing_goes_on(skill_name, mode, platform, world, other, rest, none, none);
                assert(none + none =~= none);
                match later.result {
                    Ok(names) => {
                        assert(none + names =~= names);
                    },
                    Err(_) => {},
                }
            }
        },
    }
}

/// A companion sync is told what the file system has to tell.
pub proof fn law_companion_sync_is_told_the_truth(
    world: CompanionWorld,
    from: Seq<u8>,
    to: Seq<char>,
    request: RemovalRequest,
)
    ensures
        CompanionView::reply(world, CompanionRequest::CheckSubdir) == Reply::<
            PathView,
            Seq<Listed<Seq<u8>>>,
        >::Flag(world.subdir),
        CompanionView::reply(world, CompanionRequest::Mute) == Reply::<
            PathView,
            Seq<Listed<Seq<u8>>>,
        >::Muted,
        CompanionView::reply(world, CompanionRequest::CreateDir) == Reply::<
            PathView,
            Seq<Listed<Seq<u8>>>,
        >::Outcome(world.created),
        CompanionView::reply(world, CompanionRequest::ListSubdir) == Reply::<
            PathView,
            Seq<Listed<Seq<u8>>>,
        >::Listing(world.listed),
        CompanionView::reply(world, CompanionRequest::Remove { from, to, request })
            == RemovalRun::reply((world.removal)(from, to), request),
        CompanionView::reply(world, CompanionRequest::LinkFile { from, to }) == Reply::<
            PathView,
            Seq<Listed<Seq<u8>>>,
        >::Outcome((world.linked)(from, to)),
        CompanionView::reply(world, CompanionRequest::CopyFile { from, to }) == Reply::<
            PathView,
            Seq<Listed<Seq<u8>>>,
        >::Outcome((world.copied)(from, to)),
{
}

/// Contracts see the requests of a companion sync as they are.
pub proof fn law_companion_requests_are_seen_as_they_are(request: CompanionRequest<Vec<u8>, String>)
    ensures
        match request {
            CompanionRequest::CheckSubdir => request@ == CompanionRequest::<
                Seq<u8>,
                Seq<char>,
            >::CheckSubdir,
            CompanionRequest::Mute => request@ == CompanionRequest::<Seq<u8>, Seq<char>>::Mute,
            CompanionRequest::CreateDir => request@ == CompanionRequest::<
                Seq<u8>,
                Seq<char>,
            >::CreateDir,
            CompanionRequest::ListSubdir => request@ == CompanionRequest::<
                Seq<u8>,
                Seq<char>,
            >::ListSubdir,
            CompanionRequest::Remove { from, to, request: removal } => request@ == (
            CompanionRequest::Remove { from: from@, to: to@, request: removal }),
            CompanionRequest::LinkFile { from, to } => request@ == (CompanionRequest::LinkFile {
                from: from@,
                to: to@,
            }),
            CompanionRequest::CopyFile { from, to } => request@ == (CompanionRequest::CopyFile {
                from: from@,
                to: to@,
            }),
        },
{
}

/// Contracts see the errors of a companion sync, and the names that it has written, as they
/// are.
pub proof fn law_companion_results_are_seen_as_they_are(
    error: CompanionError<Vec<u8>, String>,
    written: Seq<String>,
)
    ensures
        match error {
            CompanionError::DirNotCreated(failure) => error@ == CompanionError::<
                Seq<u8>,
                Seq<char>,
            >::DirNotCreated(failure),
            CompanionError::SubdirNotRead(failure) => error@ == CompanionError::<
                Seq<u8>,
                Seq<char>,
            >::SubdirNotRead(failure),
            CompanionError::EntryNotRead(failure) => error@ == CompanionError::<
                Seq<u8>,
                Seq<char>,
            >::EntryNotRead(failure),
            CompanionError::LinkNotCreated { from, to, failure } => error@ == (
            CompanionError::LinkNotCreated { from: from@, to: to@, failure }),
            CompanionError::FileNotCopied { from, to, failure } => error@ == (
            CompanionError::FileNotCopied { from: from@, to: to@, failure }),
        },
        companion::texts_view(written).len() == written.len(),
        forall|i: int|
            0 <= i < written.len() ==> #[trigger] companion::texts_view(written)[i] == written[i]@,
{
}

/// A reply of a kind that was not asked for leaves a companion sync where it is.
pub proof fn law_stray_replies_do_not_move_a_companion_sync(run: CompanionView, reply: ReplyView)
    requires
        run.valid(),
        match run.pending() {
            Some(CompanionRequest::CheckSubdir) => !(reply is Flag),
            Some(CompanionRequest::Mute) => !(reply is Muted),
            Some(CompanionRequest::ListSubdir) => !(reply is Listing),
            Some(CompanionRequest::Remove { request: RemovalRequest::Inspect, .. }) => {
                !(reply is Kind)
            },
            Some(CompanionRequest::Remove { request: RemovalRequest::Mute, .. }) => {
                !(reply is Muted)
            },
            Some(_) => !(reply is Outcome),
            None => true,
        },
    ensures
        run.next(reply) == run,
{
}

} // verus!
