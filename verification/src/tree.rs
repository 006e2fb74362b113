//! What a copy makes of a whole directory tree.

#[allow(unused_imports)]
use crate::copy;
use crate::copy::{CopyRequest, CopyTrace, CopyView, CopyWorld};
#[allow(unused_imports)]
use crate::protocol;
use crate::protocol::{EntryKind, Failure, Listed};
use vstd::prelude::*;

verus! {

/// What a name in a directory stands for.
pub enum Node {
    /// A regular file, or something that is neither file nor directory.
    Leaf { regular: bool },
    Dir(Seq<Child>),
}

/// An entry of a directory.
pub struct Child {
    pub name: Seq<u8>,
    pub node: Node,
}

/// How an entry shows in a listing.
pub open spec fn entry_of(child: Child) -> Listed<Seq<u8>> {
    Listed::Found {
        name: child.name,
        kind: match child.node {
            Node::Leaf { regular } => if regular {
                EntryKind::File
            } else {
                EntryKind::Other
            },
            Node::Dir(_) => EntryKind::Directory,
        },
    }
}

/// The listing of a directory with these entries.
pub open spec fn listing_of(children: Seq<Child>) -> Seq<Listed<Seq<u8>>> {
    Seq::new(children.len(), |i: int| entry_of(children[i]))
}

/// The source holds these entries at `place`, and the right ones in the directories
/// below. What `.git` holds does not matter.
pub open spec fn shows(world: CopyWorld, place: Seq<Seq<u8>>, children: Seq<Child>) -> bool
    decreases children, 1nat,
{
    &&& (world.listed)(place) == Ok::<Seq<Listed<Seq<u8>>>, Failure>(listing_of(children))
    &&& shows_below(world, place, children)
}

/// The source holds the right entries in the directories among these.
pub open spec fn shows_below(world: CopyWorld, place: Seq<Seq<u8>>, children: Seq<Child>) -> bool
    decreases children, 0nat,
{
    children.len() > 0 ==> {
        &&& match children[0].node {
            Node::Leaf { regular } => true,
            Node::Dir(inner) => children[0].name == copy::git_dir() || shows(
                world,
                place.push(children[0].name),
                inner,
            ),
        }
        &&& shows_below(world, place, children.drop_first())
    }
}

/// No directory of the tree has two entries of the same name.
pub open spec fn distinct(children: Seq<Child>) -> bool
    decreases children,
{
    children.len() > 0 ==> {
        &&& forall|i: int|
            0 < i < children.len() ==> (#[trigger] children[i]).name != children[0].name
        &&& match children[0].node {
            Node::Leaf { regular } => true,
            Node::Dir(inner) => distinct(inner),
        }
        &&& distinct(children.drop_first())
    }
}

/// How deep directories are nested below these entries.
pub open spec fn height(children: Seq<Child>) -> nat
    decreases children,
{
    if children.len() == 0 {
        0
    } else {
        let here = match children[0].node {
            Node::Leaf { regular } => 0,
            Node::Dir(inner) => height(inner) + 1,
        };
        let others = height(children.drop_first());
        if here > others {
            here
        } else {
            others
        }
    }
}

/// Every directory can be made and every file copied.
pub open spec fn undisturbed(world: CopyWorld) -> bool {
    &&& forall|place: Seq<Seq<u8>>| (#[trigger] (world.made)(place)) is Ok
    &&& forall|place: Seq<Seq<u8>>| (#[trigger] (world.copied)(place)) is Ok
}

/// The requests by which a directory with these entries is copied.
pub open spec fn dir_plan(place: Seq<Seq<u8>>, children: Seq<Child>) -> Seq<
    CopyRequest<Seq<Seq<u8>>>,
>
    decreases children, 1nat,
{
    seq![CopyRequest::MakeDir(place), CopyRequest::List(place)] + plan(place, children)
}

/// The requests by which these entries of the directory at `place` are copied.
pub open spec fn plan(place: Seq<Seq<u8>>, children: Seq<Child>) -> Seq<
    CopyRequest<Seq<Seq<u8>>>,
>
    decreases children, 0nat,
{
    if children.len() == 0 {
        seq![]
    } else {
        let here = place.push(children[0].name);
        let first = match children[0].node {
            Node::Leaf { regular } => seq![CopyRequest::CopyFile(here)],
            Node::Dir(inner) => if children[0].name == copy::git_dir() {
                seq![]
            } else {
                dir_plan(here, inner)
            },
        };
        first + plan(place, children.drop_first())
    }
}

proof fn lemma_listing_tail(children: Seq<Child>)
    requires
        children.len() > 0,
    ensures
        listing_of(children).drop_first() == listing_of(children.drop_first()),
        listing_of(children)[0] == entry_of(children[0]),
{
    assert(listing_of(children).drop_first() =~= listing_of(children.drop_first()));
}

proof fn lemma_entries_of_tree(
    world: CopyWorld,
    place: Seq<Seq<u8>>,
    children: Seq<Child>,
    depth: nat,
)
    requires
        shows_below(world, place, children),
        depth >= height(children),
    ensures
        copy::copy_entries(world, place, listing_of(children), depth) is Some,
        undisturbed(world) ==> copy::copy_entries(world, place, listing_of(children), depth)
            == Some(CopyTrace { requests: plan(place, children), result: Ok(()) }),
    decreases children, 0nat,
{
    let listing = listing_of(children);
    if children.len() > 0 {
        lemma_listing_tail(children);
        let others = children.drop_first();
        lemma_entries_of_tree(world, place, others, depth);
        let here = place.push(children[0].name);
        match children[0].node {
            Node::Leaf { regular } => {
                assert(undisturbed(world) ==> (world.copied)(here) is Ok);
            },
            Node::Dir(inner) => {
                if children[0].name != copy::git_dir() {
                    lemma_dir_of_tree(world, here, inner, depth);
                } else {
                    assert(plan(place, children) =~= plan(place, others));
                }
            },
        }
        if undisturbed(world) {
            let trace = copy::copy_entries(world, place, listing, depth)->0;
            assert(trace.requests =~= plan(place, children));
        }
    } else {
        assert(listing =~= seq![]);
    }
}

/// Copying the directory at `place` goes through the tree below it.
pub proof fn lemma_dir_of_tree(
    world: CopyWorld,
    place: Seq<Seq<u8>>,
    children: Seq<Child>,
    depth: nat,
)
    requires
        shows(world, place, children),
        depth > height(children),
    ensures
        copy::copy_dir(world, place, depth) is Some,
        undisturbed(world) ==> copy::copy_dir(world, place, depth) == Some(
            CopyTrace { requests: dir_plan(place, children), result: Ok(()) },
        ),
    decreases children, 1nat,
{
    lemma_entries_of_tree(world, place, children, (depth - 1) as nat);
    if undisturbed(world) {
        assert((world.made)(place) is Ok);
        let trace = copy::copy_dir(world, place, depth)->0;
        assert(trace.requests =~= dir_plan(place, children));
    }
}

/// What a target directory holds at a place below it.
pub enum Held {
    Directory,
    /// The file that the source has at the same place.
    File,
}

/// What a target holds, by place. A target that is not there holds nothing at all; one
/// that is there holds itself, at the empty place.
pub type Contents = Map<Seq<Seq<u8>>, Held>;

/// What a request of a copy, once it is carried out, does to the target.
pub open spec fn carried_out(contents: Contents, request: CopyRequest<Seq<Seq<u8>>>) -> Contents {
    match request {
        CopyRequest::MakeDir(place) => contents.insert(place, Held::Directory),
        CopyRequest::List(_) => contents,
        CopyRequest::CopyFile(place) => contents.insert(place, Held::File),
    }
}

/// What the requests of a copy, carried out in order, do to the target.
pub open spec fn all_carried_out(
    contents: Contents,
    requests: Seq<CopyRequest<Seq<Seq<u8>>>>,
) -> Contents
    decreases requests.len(),
{
    if requests.len() == 0 {
        contents
    } else {
        all_carried_out(carried_out(contents, requests[0]), requests.drop_first())
    }
}

/// What is held at a place, if anything.
pub open spec fn held_at(contents: Contents, place: Seq<Seq<u8>>) -> Option<Held> {
    if contents.dom().contains(place) {
        Some(contents[place])
    } else {
        None
    }
}

/// What a copy of a directory with these entries has at a place: everything that the
/// directory has there, except for directories called `.git` and what is in them.
pub open spec fn wanted(children: Seq<Child>, place: Seq<Seq<u8>>) -> Option<Held>
    decreases children,
{
    if place.len() == 0 {
        Some(Held::Directory)
    } else if children.len() == 0 {
        None
    } else if children[0].name != place[0] {
        wanted(children.drop_first(), place)
    } else {
        match children[0].node {
            Node::Leaf { regular } => if place.len() == 1 {
                Some(Held::File)
            } else {
                None
            },
            Node::Dir(inner) => if children[0].name == copy::git_dir() {
                None
            } else {
                wanted(inner, place.drop_first())
            },
        }
    }
}

/// Requests carried out one part after the other are carried out as a whole.
pub proof fn lemma_carried_out_in_turn(
    contents: Contents,
    first: Seq<CopyRequest<Seq<Seq<u8>>>>,
    second: Seq<CopyRequest<Seq<Seq<u8>>>>,
)
    ensures
        all_carried_out(contents, first + second) == all_carried_out(
            all_carried_out(contents, first),
            second,
        ),
    decreases first.len(),
{
    if first.len() == 0 {
        assert(first + second =~= second);
    } else {
        assert((first + second).drop_first() =~= first.drop_first() + second);
        lemma_carried_out_in_turn(
            carried_out(contents, first[0]),
            first.drop_first(),
            second,
        );
    }
}

proof fn lemma_wanted_is_named(children: Seq<Child>, place: Seq<Seq<u8>>)
    requires
        place.len() > 0,
        wanted(children, place) is Some,
    ensures
        exists|i: int| 0 <= i < children.len() && (#[trigger] children[i]).name == place[0],
    decreases children,
{
    if children[0].name != place[0] {
        let others = children.drop_first();
        lemma_wanted_is_named(others, place);
        let i = choose|i: int| 0 <= i < others.len() && (#[trigger] others[i]).name == place[0];
        assert(children[i + 1] == others[i]);
    }
}

/// The part of `place` below the directory at `base`.
pub open spec fn below(base: Seq<Seq<u8>>, place: Seq<Seq<u8>>) -> Seq<Seq<u8>> {
    place.skip(base.len() as int)
}

proof fn lemma_plan_carried_out(
    contents: Contents,
    base: Seq<Seq<u8>>,
    children: Seq<Child>,
    place: Seq<Seq<u8>>,
)
    requires
        distinct(children),
    ensures
        held_at(all_carried_out(contents, plan(base, children)), place) == (
        if base.is_prefix_of(place) && base != place && wanted(
            children,
            below(base, place),
        ) is Some {
            wanted(children, below(base, place))
        } else {
            held_at(contents, place)
        }),
    decreases children, 0nat,
{
    if children.len() > 0 {
        let name = children[0].name;
        let here = base.push(name);
        let others = children.drop_first();
        let first = match children[0].node {
            Node::Leaf { regular } => seq![CopyRequest::CopyFile(here)],
            Node::Dir(inner) => if name == copy::git_dir() {
                seq![]
            } else {
                dir_plan(here, inner)
            },
        };
        let middle = all_carried_out(contents, first);
        lemma_carried_out_in_turn(contents, first, plan(base, others));
        lemma_plan_carried_out(middle, base, others, place);
        match children[0].node {
            Node::Leaf { regular } => {
                assert(first.drop_first() =~= seq![]);
                assert(middle == contents.insert(here, Held::File)) by {
                    reveal_with_fuel(all_carried_out, 2);
                }
            },
            Node::Dir(inner) => {
                if name == copy::git_dir() {
                    assert(middle == contents);
                } else {
                    lemma_dir_plan_carried_out(contents, here, inner, place);
                }
            },
        }
        if base.is_prefix_of(place) && base != place {
            lemma_proper_prefix(base, place);
            let rest = below(base, place);
            assert(rest[0] == place[base.len() as int]);
            assert(below(here, place) =~= rest.drop_first());
            if rest[0] == name {
                assert(here.is_prefix_of(place)) by {
                    assert(here =~= place.subrange(0, here.len() as int));
                }
                if wanted(others, rest) is Some {
                    lemma_wanted_is_named(others, rest);
                    let i = choose|i: int|
                        0 <= i < others.len() && (#[trigger] others[i]).name == rest[0];
                    assert(children[i + 1] == others[i]);
                }
                if rest.len() == 1 {
                    assert(place =~= here);
                } else {
                    assert(place != here);
                }
            } else {
                assert(!here.is_prefix_of(place)) by {
                    if here.is_prefix_of(place) {
                        assert(here[base.len() as int] == place.subrange(
                            0,
                            here.len() as int,
                        )[base.len() as int]);
                    }
                }
                assert(place != here);
            }
        } else {
            assert(!here.is_prefix_of(place)) by {
                if here.is_prefix_of(place) {
                    assert(base =~= place.subrange(0, base.len() as int)) by {
                        assert forall|i: int| 0 <= i < base.len() implies base[i] == place[i] by {
                            assert(here[i] == place.subrange(0, here.len() as int)[i]);
                        }
                    }
                    assert(base != place);
                }
            }
            assert(here.is_prefix_of(here)) by {
                assert(here =~= here.subrange(0, here.len() as int));
            }
        }
    } else {
        assert(plan(base, children) =~= seq![]);
        if base.is_prefix_of(place) && base != place {
            lemma_proper_prefix(base, place);
        }
    }
}

proof fn lemma_proper_prefix(base: Seq<Seq<u8>>, place: Seq<Seq<u8>>)
    requires
        base.is_prefix_of(place),
        base != place,
    ensures
        base.len() < place.len(),
{
    if base.len() == place.len() {
        assert(place.subrange(0, place.len() as int) =~= place);
    }
}

proof fn lemma_dir_plan_carried_out(
    contents: Contents,
    base: Seq<Seq<u8>>,
    children: Seq<Child>,
    place: Seq<Seq<u8>>,
)
    requires
        distinct(children),
    ensures
        held_at(all_carried_out(contents, dir_plan(base, children)), place) == (
        if base.is_prefix_of(place) && wanted(children, below(base, place)) is Some {
            wanted(children, below(base, place))
        } else {
            held_at(contents, place)
        }),
    decreases children, 1nat,
{
    let start = seq![CopyRequest::MakeDir(base), CopyRequest::List(base)];
    let made = contents.insert(base, Held::Directory);
    lemma_carried_out_in_turn(contents, start, plan(base, children));
    assert(all_carried_out(contents, start) == made) by {
        reveal_with_fuel(all_carried_out, 3);
        assert(start.drop_first() =~= seq![CopyRequest::List(base)]);
        assert(start.drop_first().drop_first() =~= seq![]);
    }
    lemma_plan_carried_out(made, base, children, place);
    assert(base.is_prefix_of(base)) by {
        assert(base =~= base.subrange(0, base.len() as int));
    }
    if place == base {
        assert(below(base, place) =~= seq![]);
    }
}

/// A copy of a directory tree ends, whatever fails on the way.
pub proof fn law_copy_of_a_tree_ends(world: CopyWorld, children: Seq<Child>)
    requires
        shows(world, seq![], children),
    ensures
        exists|trace: CopyTrace| #[trigger]
            protocol::ends(copy::copy_of_all(), world, trace.requests, trace.result),
{
    let depth = height(children) + 1;
    lemma_dir_of_tree(world, seq![], children, depth);
    copy::lemma_copy_ends(world, depth);
}

/// An undisturbed copy of a directory tree goes through its entries in order, directory
/// by directory, and ends well.
pub proof fn law_undisturbed_copy_follows_the_plan(world: CopyWorld, children: Seq<Child>)
    requires
        shows(world, seq![], children),
        undisturbed(world),
    ensures
        protocol::ends(copy::copy_of_all(), world, dir_plan(seq![], children), Ok(())),
{
    let depth = height(children) + 1;
    lemma_dir_of_tree(world, seq![], children, depth);
    copy::lemma_copy_ends(world, depth);
}

proof fn lemma_copied_entries_of_tree(
    world: CopyWorld,
    place: Seq<Seq<u8>>,
    children: Seq<Child>,
    depth: nat,
)
    requires
        shows_below(world, place, children),
        copy::copy_entries(world, place, listing_of(children), depth) is Some,
        copy::copy_entries(world, place, listing_of(children), depth)->0.result is Ok,
    ensures
        copy::copy_entries(world, place, listing_of(children), depth)->0.requests == plan(
            place,
            children,
        ),
    decreases children, 0nat,
{
    let listing = listing_of(children);
    let requests = copy::copy_entries(world, place, listing, depth)->0.requests;
    if children.len() > 0 {
        lemma_listing_tail(children);
        let others = children.drop_first();
        lemma_copied_entries_of_tree(world, place, others, depth);
        match children[0].node {
            Node::Leaf { regular } => {},
            Node::Dir(inner) => {
                if children[0].name != copy::git_dir() {
                    lemma_copied_dir_of_tree(world, place.push(children[0].name), inner, depth);
                }
            },
        }
        assert(requests =~= plan(place, children));
    } else {
        assert(listing =~= seq![]);
        assert(requests =~= plan(place, children));
    }
}

/// Copying the directory at `place` without a failure follows the plan for the tree below
/// it.
pub proof fn lemma_copied_dir_of_tree(
    world: CopyWorld,
    place: Seq<Seq<u8>>,
    children: Seq<Child>,
    depth: nat,
)
    requires
        shows(world, place, children),
        copy::copy_dir(world, place, depth) is Some,
        copy::copy_dir(world, place, depth)->0.result is Ok,
    ensures
        copy::copy_dir(world, place, depth)->0.requests == dir_plan(place, children),
    decreases children, 1nat,
{
    lemma_copied_entries_of_tree(world, place, children, (depth - 1) as nat);
    let requests = copy::copy_dir(world, place, depth)->0.requests;
    assert(requests =~= dir_plan(place, children));
}

/// A copy of a directory tree that ends well has gone through all its entries in order,
/// directory by directory.
pub proof fn law_successful_copy_follows_the_plan(
    world: CopyWorld,
    children: Seq<Child>,
    requests: Seq<CopyRequest<Seq<Seq<u8>>>>,
)
    requires
        shows(world, seq![], children),
        protocol::ends(copy::copy_of_all(), world, requests, Ok(())),
    ensures
        requests == dir_plan(seq![], children),
{
    let depth = height(children) + 1;
    lemma_dir_of_tree(world, seq![], children, depth);
    copy::lemma_copy_ends(world, depth);
    let trace = copy::copy_dir(world, seq![], depth)->0;
    protocol::law_runs_end_one_way::<CopyView>(
        copy::copy_of_all(),
        world,
        (requests, Ok(())),
        (trace.requests, trace.result),
    );
    lemma_copied_dir_of_tree(world, seq![], children, depth);
}

/// A copy leaves at each place what the source has there, and where the source has nothing
/// to copy, what was there before.
pub proof fn law_copy_keeps_what_it_does_not_replace(
    before: Contents,
    children: Seq<Child>,
    place: Seq<Seq<u8>>,
)
    requires
        distinct(children),
    ensures
        held_at(all_carried_out(before, dir_plan(seq![], children)), place) == (
        if wanted(children, place) is Some {
            wanted(children, place)
        } else {
            held_at(before, place)
        }),
{
    let base = Seq::<Seq<u8>>::empty();
    lemma_dir_plan_carried_out(before, base, children, place);
    assert(base.is_prefix_of(place)) by {
        assert(base =~= place.subrange(0, 0));
    }
    assert(below(base, place) =~= place);
}

/// A copy into an empty place leaves there what the source has, place by place, except
/// for `.git` directories and what is in them, and nothing else.
pub proof fn law_plan_makes_the_wanted_contents(children: Seq<Child>, place: Seq<Seq<u8>>)
    requires
        distinct(children),
    ensures
        held_at(all_carried_out(Map::empty(), dir_plan(seq![], children)), place) == wanted(
            children,
            place,
        ),
{
    law_copy_keeps_what_it_does_not_replace(Map::empty(), children, place);
}

/// Nothing that is in a directory called `.git`, at any depth, is copied.
pub proof fn law_nothing_inside_git_is_copied(
    children: Seq<Child>,
    place: Seq<Seq<u8>>,
    at: int,
)
    requires
        0 <= at < place.len() - 1,
        place[at] == copy::git_dir(),
    ensures
        wanted(children, place) is None,
    decreases children,
{
    if children.len() > 0 {
        if children[0].name != place[0] {
            law_nothing_inside_git_is_copied(children.drop_first(), place, at);
        } else {
            match children[0].node {
                Node::Leaf { regular } => {},
                Node::Dir(inner) => {
                    if at > 0 {
                        law_nothing_inside_git_is_copied(inner, place.drop_first(), at - 1);
                    }
                },
            }
        }
    }
}

/// A file that happens to be called `.git` is copied like any other.
pub proof fn law_git_file_is_copied(children: Seq<Child>, at: int, regular: bool)
    requires
        distinct(children),
        0 <= at < children.len(),
        children[at].name == copy::git_dir(),
        children[at].node == (Node::Leaf { regular }),
    ensures
        wanted(children, seq![copy::git_dir()]) == Some(Held::File),
    decreases children.len(),
{
    let place = seq![copy::git_dir()];
    if at > 0 {
        let others = children.drop_first();
        assert(others[at - 1] == children[at]);
        assert(children[0].name != copy::git_dir());
        law_git_file_is_copied(others, at - 1, regular);
    }
}

} // verus!
