//! Paths as the components they are made of.

use crate::text::{same_bytes, utf8_text};
#[allow(unused_imports)]
use vstd::utf8::*;
use vstd::prelude::*;

verus! {

/// The path separator.
pub const SLASH: u8 = 0x2f;

/// The byte that `.` and `..` are made of.
pub const DOT: u8 = 0x2e;

/// One component of a path. `N` is how names are held: `Vec<u8>` in a program,
/// `Seq<u8>` in a contract.
#[derive(Debug, PartialEq, Eq)]
pub enum PathPart<N> {
    /// A drive or share in front of the path, where the platform has them.
    Prefix(N),
    /// A prefix after which `.` and `..` are not looked at.
    Verbatim(N),
    RootDir,
    CurDir,
    ParentDir,
    Normal(N),
}

impl View for PathPart<Vec<u8>> {
    type V = PathPart<Seq<u8>>;

    open spec fn view(&self) -> PathPart<Seq<u8>> {
        match self {
            PathPart::Prefix(name) => PathPart::Prefix(name@),
            PathPart::Verbatim(name) => PathPart::Verbatim(name@),
            PathPart::RootDir => PathPart::RootDir,
            PathPart::CurDir => PathPart::CurDir,
            PathPart::ParentDir => PathPart::ParentDir,
            PathPart::Normal(name) => PathPart::Normal(name@),
        }
    }
}

/// A path, taken apart into its components, with the platform's verdict on whether it
/// is absolute.
#[derive(Debug, PartialEq, Eq)]
pub struct SkillPath {
    pub absolute: bool,
    pub parts: Vec<PathPart<Vec<u8>>>,
}

/// A path as contracts speak of it.
#[verifier::ext_equal]
pub struct PathView {
    pub absolute: bool,
    pub parts: Seq<PathPart<Seq<u8>>>,
}

/// The components of a vector of components.
pub open spec fn parts_view(parts: Seq<PathPart<Vec<u8>>>) -> Seq<PathPart<Seq<u8>>> {
    Seq::new(parts.len(), |i: int| parts[i]@)
}

impl View for SkillPath {
    type V = PathView;

    open spec fn view(&self) -> PathView {
        PathView { absolute: self.absolute, parts: parts_view(self.parts@) }
    }
}

impl PathView {
    /// The last component, where it is a name.
    pub open spec fn file_name(self) -> Option<Seq<u8>> {
        if self.parts.len() == 0 {
            None
        } else {
            match self.parts.last() {
                PathPart::Normal(name) => Some(name),
                _ => None,
            }
        }
    }

    /// The path without its last component. A bare root or prefix and the empty path
    /// have none.
    pub open spec fn parent(self) -> Option<PathView> {
        if self.parts.len() == 0 {
            None
        } else {
            match self.parts.last() {
                PathPart::Prefix(_) => None,
                PathPart::Verbatim(_) => None,
                PathPart::RootDir => None,
                _ => Some(PathView { absolute: self.absolute, parts: self.parts.drop_last() }),
            }
        }
    }

    /// How many directories there are above this path: how often a parent can be taken.
    pub open spec fn depth(self) -> nat
        decreases self.parts.len(),
    {
        match self.parent() {
            Some(parent) => 1 + parent.depth(),
            None => 0,
        }
    }

    /// The last `count` components.
    pub open spec fn last_parts(self, count: nat) -> Seq<PathPart<Seq<u8>>> {
        self.parts.skip(self.parts.len() - count)
    }

    /// Where one component leads from the directory `self`, there being no links on the
    /// way.
    pub open spec fn step(self, part: PathPart<Seq<u8>>) -> PathView {
        match part {
            PathPart::Normal(name) => self.child(name),
            PathPart::ParentDir => match self.parent() {
                Some(parent) => parent,
                None => self,
            },
            _ => self,
        }
    }

    /// Where components lead from the directory `self`, there being no links on the way.
    pub open spec fn followed(self, parts: Seq<PathPart<Seq<u8>>>) -> PathView
        decreases parts.len(),
    {
        if parts.len() == 0 {
            self
        } else {
            self.followed(parts.drop_last()).step(parts.last())
        }
    }

    /// Whether `base` is this path or one of the directories above it, component by
    /// component.
    pub open spec fn is_within(self, base: PathView) -> bool {
        base.parts.is_prefix_of(self.parts)
    }

    /// Whether two paths have the same components.
    pub open spec fn same_as(self, other: PathView) -> bool {
        self.parts == other.parts
    }

    /// The prefix in front of the path, as a sequence of at most one component.
    pub open spec fn prefix(self) -> Seq<PathPart<Seq<u8>>> {
        if self.parts.len() > 0 && is_prefix(self.parts[0]) {
            self.parts.take(1)
        } else {
            Seq::empty()
        }
    }

    /// Where one component leads from a directory with a verbatim prefix: `.` and `..` are
    /// resolved at once, and `..` does not lead above what is there.
    pub open spec fn verbatim_step(self, part: PathPart<Seq<u8>>) -> PathView {
        match part {
            PathPart::RootDir => PathView {
                absolute: self.absolute,
                parts: self.parts.take(1).push(part),
            },
            PathPart::CurDir => self,
            PathPart::ParentDir => if self.file_name() is Some {
                PathView { absolute: self.absolute, parts: self.parts.drop_last() }
            } else {
                self
            },
            _ => PathView { absolute: self.absolute, parts: self.parts.push(part) },
        }
    }

    /// Where components lead from a directory with a verbatim prefix.
    pub open spec fn verbatim_joined(self, parts: Seq<PathPart<Seq<u8>>>) -> PathView
        decreases parts.len(),
    {
        if parts.len() == 0 {
            self
        } else {
            self.verbatim_joined(parts.drop_last()).verbatim_step(parts.last())
        }
    }

    /// Where `other` leads when it is followed from the directory `self`.
    pub open spec fn joined(self, other: PathView) -> PathView {
        if other.absolute || self.parts.len() == 0 {
            other
        } else if other.parts.len() == 0 {
            self
        } else if is_prefix(other.parts[0]) {
            other
        } else if self.parts[0] is Verbatim {
            self.verbatim_joined(other.parts)
        } else {
            match other.parts[0] {
                PathPart::RootDir => PathView {
                    absolute: self.absolute,
                    parts: self.prefix() + other.parts,
                },
                PathPart::CurDir => PathView {
                    absolute: self.absolute,
                    parts: self.parts + other.parts.drop_first(),
                },
                _ => PathView { absolute: self.absolute, parts: self.parts + other.parts },
            }
        }
    }

    /// Whether this is a place that does not depend on the current directory.
    pub open spec fn is_fixed(self) -> bool {
        self.absolute && self.parts.len() > 0
    }

    /// Whether this path names a drive without saying from where on it.
    pub open spec fn is_drive_relative(self) -> bool {
        !self.absolute && self.parts.len() > 0 && is_prefix(self.parts[0])
    }

    /// The entry `name` of the directory `self`.
    pub open spec fn child(self, name: Seq<u8>) -> PathView {
        PathView { absolute: self.absolute, parts: self.parts.push(PathPart::Normal(name)) }
    }
}

/// Whether a component is a drive or share.
pub open spec fn is_prefix(part: PathPart<Seq<u8>>) -> bool {
    part is Prefix || part is Verbatim
}

/// The empty path.
pub open spec fn empty_path() -> PathView {
    PathView { absolute: false, parts: Seq::empty() }
}

/// The position of the first separator, or the length where there is none.
pub open spec fn next_slash(text: Seq<u8>) -> int
    decreases text.len(),
{
    if text.len() == 0 || text[0] == SLASH {
        0
    } else {
        1 + next_slash(text.drop_first())
    }
}

/// The component that one piece between separators stands for, if any: nothing is
/// between doubled separators, and `.` counts only where the path starts with it.
pub open spec fn piece_parts(piece: Seq<u8>, first: bool) -> Seq<PathPart<Seq<u8>>> {
    if piece.len() == 0 {
        seq![]
    } else if piece == seq![DOT] {
        if first {
            seq![PathPart::CurDir]
        } else {
            seq![]
        }
    } else if piece == seq![DOT, DOT] {
        seq![PathPart::ParentDir]
    } else {
        seq![PathPart::Normal(piece)]
    }
}

/// The components of the pieces of `text`; `first` says whether the path starts here.
pub open spec fn pieces(text: Seq<u8>, first: bool) -> Seq<PathPart<Seq<u8>>>
    decreases text.len(),
    via pieces_decreases
{
    let cut = next_slash(text);
    if cut < text.len() {
        piece_parts(text.take(cut), first) + pieces(text.skip(cut + 1), false)
    } else {
        piece_parts(text, first)
    }
}

#[via_fn]
proof fn pieces_decreases(text: Seq<u8>, first: bool) {
    lemma_next_slash(text);
}

/// A path written in the Unix manner.
pub open spec fn unix_path(text: Seq<u8>) -> PathView {
    if text.len() > 0 && text[0] == SLASH {
        PathView { absolute: true, parts: seq![PathPart::RootDir] + pieces(text.skip(1), false) }
    } else {
        PathView { absolute: false, parts: pieces(text, true) }
    }
}

proof fn lemma_next_slash(text: Seq<u8>)
    ensures
        0 <= next_slash(text) <= text.len(),
        next_slash(text) < text.len() ==> text[next_slash(text)] == SLASH,
        forall|i: int| 0 <= i < next_slash(text) ==> text[i] != SLASH,
    decreases text.len(),
{
    if text.len() > 0 && text[0] != SLASH {
        let rest = text.drop_first();
        lemma_next_slash(rest);
        assert forall|i: int| 0 <= i < next_slash(text) implies text[i] != SLASH by {
            if i > 0 {
                assert(rest[i - 1] == text[i]);
            }
        }
    }
}

proof fn lemma_next_slash_is(text: Seq<u8>, cut: int)
    requires
        0 <= cut <= text.len(),
        cut < text.len() ==> text[cut] == SLASH,
        forall|i: int| 0 <= i < cut ==> text[i] != SLASH,
    ensures
        next_slash(text) == cut,
{
    lemma_next_slash(text);
}

proof fn lemma_pieces_have_no_prefix(text: Seq<u8>, first: bool)
    ensures
        forall|i: int| 0 <= i < pieces(text, first).len() ==> !is_prefix(
            #[trigger] pieces(text, first)[i],
        ),
    decreases text.len(),
{
    lemma_next_slash(text);
    let cut = next_slash(text);
    if cut < text.len() {
        lemma_pieces_have_no_prefix(text.skip(cut + 1), false);
        let here = piece_parts(text.take(cut), first);
        let rest = pieces(text.skip(cut + 1), false);
        assert forall|i: int| 0 <= i < pieces(text, first).len() implies !is_prefix(
            #[trigger] pieces(text, first)[i],
        ) by {
            if i >= here.len() {
                assert(pieces(text, first)[i] == rest[i - here.len()]);
            } else {
                assert(pieces(text, first)[i] == here[i]);
            }
        }
    }
}

/// A path written in the Unix manner has no prefix, and where it is absolute it starts at
/// the root.
pub proof fn lemma_unix_path_has_no_prefix(text: Seq<u8>)
    ensures
        !unix_path(text).is_drive_relative(),
        unix_path(text).absolute ==> unix_path(text).is_fixed(),
{
    lemma_pieces_have_no_prefix(text, true);
}

proof fn lemma_verbatim_prefix_stays(path: PathView, parts: Seq<PathPart<Seq<u8>>>)
    requires
        path.parts.len() > 0,
        path.parts[0] is Verbatim,
    ensures
        path.verbatim_joined(parts).absolute == path.absolute,
        path.verbatim_joined(parts).parts.len() > 0,
        path.verbatim_joined(parts).parts[0] is Verbatim,
    decreases parts.len(),
{
    if parts.len() > 0 {
        lemma_verbatim_prefix_stays(path, parts.drop_last());
    }
}

/// From a place that does not depend on the current directory, a path leads to another such
/// place.
pub proof fn lemma_joined_is_fixed(path: PathView, other: PathView)
    requires
        path.is_fixed(),
        !other.is_drive_relative(),
        other.absolute ==> other.is_fixed(),
    ensures
        path.joined(other).is_fixed(),
{
    if path.parts[0] is Verbatim {
        lemma_verbatim_prefix_stays(path, other.parts);
    }
}

/// There are no more directories above a path than it has components.
pub proof fn lemma_depth_is_bounded(path: PathView)
    ensures
        path.depth() <= path.parts.len(),
    decreases path.parts.len(),
{
    if path.parent() is Some {
        lemma_depth_is_bounded(path.parent()->0);
    }
}

/// A path is as deep as the components behind its last root or prefix are many.
proof fn lemma_depth_is(path: PathView, depth: int)
    requires
        0 <= depth <= path.parts.len(),
        depth < path.parts.len() ==> {
            let part = path.parts[path.parts.len() - depth - 1];
            is_prefix(part) || part is RootDir
        },
        forall|i: int|
            path.parts.len() - depth <= i < path.parts.len() ==> !is_prefix(
                #[trigger] path.parts[i],
            ) && !(path.parts[i] is RootDir),
    ensures
        path.depth() == depth,
    decreases depth,
{
    if depth > 0 {
        assert(!is_prefix(path.parts[path.parts.len() - 1]));
        lemma_depth_is(path.parent()->0, depth - 1);
    }
}

/// A copy of a component.
fn copy_part(part: &PathPart<Vec<u8>>) -> (copy: PathPart<Vec<u8>>)
    ensures
        copy@ == part@,
{
    match part {
        PathPart::Prefix(name) => {
            let name_copy = name.clone();
            assert(name_copy@ =~= name@);
            PathPart::Prefix(name_copy)
        },
        PathPart::Verbatim(name) => {
            let name_copy = name.clone();
            assert(name_copy@ =~= name@);
            PathPart::Verbatim(name_copy)
        },
        PathPart::RootDir => PathPart::RootDir,
        PathPart::CurDir => PathPart::CurDir,
        PathPart::ParentDir => PathPart::ParentDir,
        PathPart::Normal(name) => {
            let name_copy = name.clone();
            assert(name_copy@ =~= name@);
            PathPart::Normal(name_copy)
        },
    }
}

/// Whether two components are the same.
fn same_part(a: &PathPart<Vec<u8>>, b: &PathPart<Vec<u8>>) -> (same: bool)
    ensures
        same == (a@ == b@),
{
    match (a, b) {
        (PathPart::Prefix(x), PathPart::Prefix(y)) => same_bytes(x, y),
        (PathPart::Verbatim(x), PathPart::Verbatim(y)) => same_bytes(x, y),
        (PathPart::RootDir, PathPart::RootDir) => true,
        (PathPart::CurDir, PathPart::CurDir) => true,
        (PathPart::ParentDir, PathPart::ParentDir) => true,
        (PathPart::Normal(x), PathPart::Normal(y)) => same_bytes(x, y),
        _ => false,
    }
}

/// Appends to `parts` the component that the piece stands for, if any.
fn push_piece(parts: &mut Vec<PathPart<Vec<u8>>>, piece: &[u8], first: bool)
    ensures
        parts_view(final(parts)@) == parts_view(old(parts)@) + piece_parts(piece@, first),
{
    let ghost before = parts_view(parts@);
    if piece.len() == 0 {
        assert(before =~= before + piece_parts(piece@, first));
    } else if piece.len() == 1 && piece[0] == DOT {
        assert(piece@ =~= seq![DOT]);
        if first {
            parts.push(PathPart::CurDir);
        }
        assert(parts_view(parts@) =~= before + piece_parts(piece@, first));
    } else if piece.len() == 2 && piece[0] == DOT && piece[1] == DOT {
        assert(piece@ =~= seq![DOT, DOT]);
        assert(piece@ != seq![DOT]) by {
            assert(seq![DOT].len() == 1);
        }
        parts.push(PathPart::ParentDir);
        assert(parts_view(parts@) =~= before + piece_parts(piece@, first));
    } else {
        let name = vstd::slice::slice_to_vec(piece);
        assert(piece@ != seq![DOT]) by {
            assert(seq![DOT].len() == 1 && seq![DOT][0] == DOT);
        }
        assert(piece@ != seq![DOT, DOT]) by {
            let dots = seq![DOT, DOT];
            assert(dots.len() == 2 && dots[0] == DOT && dots[1] == DOT);
        }
        parts.push(PathPart::Normal(name));
        assert(parts_view(parts@) =~= before + piece_parts(piece@, first));
    }
}

impl SkillPath {
    /// Reads a path written in the Unix manner.
    pub fn from_unix(text: &[u8]) -> (path: SkillPath)
        ensures
            path@ == unix_path(text@),
    {
        let mut parts: Vec<PathPart<Vec<u8>>> = Vec::new();
        let absolute = text.len() > 0 && text[0] == SLASH;
        let mut start: usize = 0;
        let mut first = true;
        if absolute {
            parts.push(PathPart::RootDir);
            start = 1;
            first = false;
        }
        let mut more = true;
        proof {
            if absolute {
                assert(parts_view(parts@) + pieces(text@.skip(1), false)
                    =~= unix_path(text@).parts);
            } else {
                assert(text@.skip(0) =~= text@);
                assert(parts_view(parts@) + pieces(text@.skip(0), true)
                    =~= unix_path(text@).parts);
            }
        }
        while more
            invariant
                start <= text@.len(),
                more ==> parts_view(parts@) + pieces(text@.skip(start as int), first)
                    == unix_path(text@).parts,
                !more ==> parts_view(parts@) == unix_path(text@).parts,
            decreases (if more { 1int } else { 0int }), text@.len() - start,
        {
            let ghost before = parts_view(parts@);
            let ghost rest = text@.skip(start as int);
            let ghost was_first = first;
            let mut end: usize = start;
            while end < text.len() && text[end] != SLASH
                invariant
                    start <= end <= text@.len(),
                    forall|i: int| start <= i < end ==> text@[i] != SLASH,
                decreases text@.len() - end,
            {
                end += 1;
            }
            proof {
                lemma_next_slash_is(rest, end - start);
            }
            let piece = vstd::slice::slice_subrange(text, start, end);
            assert(piece@ =~= rest.take(end - start));
            push_piece(&mut parts, piece, first);
            if end < text.len() {
                assert(rest.skip(end - start + 1) =~= text@.skip(end + 1));
                start = end + 1;
                first = false;
                assert(parts_view(parts@) + pieces(text@.skip(start as int), first)
                    =~= before + pieces(rest, was_first));
            } else {
                assert(rest.take(end - start) =~= rest);
                more = false;
            }
        }
        SkillPath { absolute, parts }
    }

    /// The empty path.
    pub fn empty() -> (path: SkillPath)
        ensures
            path@ == empty_path(),
            !path@.absolute,
            path@.parts.len() == 0,
    {
        let path = SkillPath { absolute: false, parts: Vec::new() };
        assert(path@.parts =~= Seq::empty());
        path
    }

    /// The first `count` components of this path.
    fn prefix_copy(&self, count: usize) -> (path: SkillPath)
        requires
            count <= self.parts@.len(),
        ensures
            path@.absolute == self@.absolute,
            path@.parts == self@.parts.take(count as int),
    {
        let mut parts: Vec<PathPart<Vec<u8>>> = Vec::new();
        let mut i: usize = 0;
        while i < count
            invariant
                i <= count <= self.parts@.len(),
                parts@.len() == i,
                forall|j: int| 0 <= j < i ==> (#[trigger] parts@[j])@ == self.parts@[j]@,
            decreases count - i,
        {
            parts.push(copy_part(&self.parts[i]));
            i += 1;
        }
        assert(parts_view(parts@) =~= self@.parts.take(count as int));
        SkillPath { absolute: self.absolute, parts }
    }

    /// A copy of this path.
    pub fn duplicate(&self) -> (path: SkillPath)
        ensures
            path@ == self@,
    {
        let path = self.prefix_copy(self.parts.len());
        assert(self@.parts.take(self.parts@.len() as int) =~= self@.parts);
        path
    }

    /// The last component, where it is a name.
    pub fn file_name(&self) -> (name: Option<&Vec<u8>>)
        ensures
            (match name {
                Some(bytes) => Some(bytes@),
                None => None,
            }) == self@.file_name(),
            name is Some <==> self@.parts.len() > 0 && self@.parts.last() is Normal,
            name is Some ==> self@.parts.last() == PathPart::Normal(name->0@),
    {
        let count: usize = self.parts.len();
        if count == 0 {
            return None;
        }
        assert(self@.parts.last() == self.parts@[count - 1]@);
        match &self.parts[count - 1] {
            PathPart::Normal(name) => Some(name),
            _ => None,
        }
    }

    /// The path without its last component.
    pub fn parent(&self) -> (parent: Option<SkillPath>)
        ensures
            (match parent {
                Some(path) => Some(path@),
                None => None,
            }) == self@.parent(),
            parent is Some <==> self@.parts.len() > 0 && !(self@.parts.last() is RootDir
                || self@.parts.last() is Prefix || self@.parts.last() is Verbatim),
            parent is Some ==> parent->0@.parts == self@.parts.drop_last()
                && parent->0@.absolute == self@.absolute,
    {
        let count: usize = self.parts.len();
        if count == 0 {
            return None;
        }
        assert(self@.parts.last() == self.parts@[count - 1]@);
        match &self.parts[count - 1] {
            PathPart::Prefix(_) => None,
            PathPart::Verbatim(_) => None,
            PathPart::RootDir => None,
            _ => {
                assert(self@.parts.take(count - 1) =~= self@.parts.drop_last());
                Some(self.prefix_copy(count - 1))
            },
        }
    }

    /// How many directories there are above this path.
    pub fn depth(&self) -> (depth: usize)
        ensures
            depth == self@.depth(),
    {
        let count: usize = self.parts.len();
        let mut depth: usize = 0;
        let mut more = true;
        while more
            invariant
                count == self.parts@.len(),
                depth <= count,
                forall|i: int|
                    count - depth <= i < count ==> !is_prefix(#[trigger] self@.parts[i])
                        && !(self@.parts[i] is RootDir),
                !more && depth < count ==> is_prefix(self@.parts[count - depth - 1])
                    || self@.parts[count - depth - 1] is RootDir,
            decreases (if more { 1int } else { 0int }), count - depth,
        {
            if depth == count {
                more = false;
            } else {
                assert(self@.parts[count - depth - 1] == self.parts@[count - depth - 1]@);
                match &self.parts[count - depth - 1] {
                    PathPart::Prefix(_) => {
                        more = false;
                    },
                    PathPart::Verbatim(_) => {
                        more = false;
                    },
                    PathPart::RootDir => {
                        more = false;
                    },
                    _ => {
                        depth += 1;
                    },
                }
            }
        }
        proof {
            lemma_depth_is(self@, depth as int);
        }
        depth
    }

    /// Goes where one component leads.
    fn take_step(&mut self, part: &PathPart<Vec<u8>>)
        ensures
            final(self)@ == old(self)@.step(part@),
    {
        let ghost before = self@;
        match part {
            PathPart::Normal(name) => {
                let name_copy = name.clone();
                assert(name_copy@ =~= name@);
                self.parts.push(PathPart::Normal(name_copy));
                assert(self@.parts =~= before.parts.push(PathPart::Normal(name@)));
            },
            PathPart::ParentDir => {
                let count: usize = self.parts.len();
                if count > 0 {
                    assert(self@.parts.last() == self.parts@[count - 1]@);
                    let rooted = match &self.parts[count - 1] {
                        PathPart::Prefix(_) => true,
                        PathPart::Verbatim(_) => true,
                        PathPart::RootDir => true,
                        _ => false,
                    };
                    if !rooted {
                        let _ = self.parts.pop();
                        assert(self@.parts =~= before.parts.drop_last());
                    }
                }
            },
            _ => {},
        }
    }

    /// Where the last `count` components of `other` lead from the directory `self`, there
    /// being no links on the way.
    pub(crate) fn followed(&self, other: &SkillPath, count: usize) -> (path: SkillPath)
        requires
            count <= other@.parts.len(),
        ensures
            path@ == self@.followed(other@.last_parts(count as nat)),
    {
        let ghost rest = other@.last_parts(count as nat);
        let mut path = self.duplicate();
        let start: usize = other.parts.len() - count;
        let mut i: usize = start;
        assert(rest.take(0) =~= Seq::empty());
        while i < other.parts.len()
            invariant
                start <= i <= other.parts@.len(),
                start == other@.parts.len() - count,
                rest == other@.last_parts(count as nat),
                other@.parts.len() == other.parts@.len(),
                path@ == self@.followed(rest.take(i - start)),
            decreases other.parts@.len() - i,
        {
            let ghost more = rest.take(i - start + 1);
            assert(more.drop_last() =~= rest.take(i - start));
            assert(more.last() == other.parts@[i as int]@);
            path.take_step(&other.parts[i]);
            i += 1;
        }
        assert(rest.take(count as int) =~= rest);
        path
    }

    /// Whether `base` is this path or one of the directories above it.
    pub fn is_within(&self, base: &SkillPath) -> (within: bool)
        ensures
            within == self@.is_within(base@),
            within == base@.parts.is_prefix_of(self@.parts),
    {
        if base.parts.len() > self.parts.len() {
            return false;
        }
        let mut i: usize = 0;
        while i < base.parts.len()
            invariant
                i <= base.parts@.len() <= self.parts@.len(),
                forall|j: int|
                    0 <= j < i ==> #[trigger] base@.parts[j] == self@.parts[j],
            decreases base.parts@.len() - i,
        {
            if !same_part(&base.parts[i], &self.parts[i]) {
                assert(base@.parts[i as int] != self@.parts.subrange(
                    0,
                    base@.parts.len() as int,
                )[i as int]);
                return false;
            }
            i += 1;
        }
        assert(base@.parts =~= self@.parts.subrange(0, base@.parts.len() as int));
        true
    }

    /// Whether two paths have the same components.
    pub fn same_as(&self, other: &SkillPath) -> (same: bool)
        ensures
            same == self@.same_as(other@),
            same == (self@.parts == other@.parts),
    {
        let same = self.parts.len() == other.parts.len() && self.is_within(other);
        assert(self@.parts.subrange(0, self@.parts.len() as int) =~= self@.parts);
        assert(self@.parts.len() == self.parts@.len() && other@.parts.len() == other.parts@.len());
        same
    }

    /// Appends the components of `other` from `from` on.
    fn append_parts(&mut self, other: &SkillPath, from: usize)
        requires
            from <= other.parts@.len(),
        ensures
            final(self)@.absolute == old(self)@.absolute,
            final(self)@.parts == old(self)@.parts + other@.parts.skip(from as int),
    {
        let ghost before = self@.parts;
        let mut i: usize = from;
        assert(before + other@.parts.subrange(from as int, from as int) =~= before);
        while i < other.parts.len()
            invariant
                from <= i <= other.parts@.len(),
                self@.absolute == old(self)@.absolute,
                self@.parts == before + other@.parts.subrange(from as int, i as int),
            decreases other.parts@.len() - i,
        {
            let ghost so_far = self.parts@;
            self.parts.push(copy_part(&other.parts[i]));
            assert(self@.parts =~= parts_view(so_far).push(other@.parts[i as int]));
            assert(other@.parts.subrange(from as int, i + 1) =~= other@.parts.subrange(
                from as int,
                i as int,
            ).push(other@.parts[i as int]));
            assert(self@.parts =~= before + other@.parts.subrange(from as int, i + 1));
            i += 1;
        }
        assert(other@.parts.skip(from as int) =~= other@.parts.subrange(
            from as int,
            other@.parts.len() as int,
        ));
    }

    /// Goes where one component leads, this path having a verbatim prefix.
    fn take_verbatim_step(&mut self, part: &PathPart<Vec<u8>>)
        requires
            old(self).parts@.len() > 0,
            old(self)@.parts[0] is Verbatim,
        ensures
            final(self)@ == old(self)@.verbatim_step(part@),
            final(self).parts@.len() > 0,
            final(self)@.parts[0] is Verbatim,
    {
        let ghost before = self@;
        match part {
            PathPart::RootDir => {
                while self.parts.len() > 1
                    invariant
                        self.parts@.len() > 0,
                        self@.absolute == before.absolute,
                        self@.parts.take(1) == before.parts.take(1),
                    decreases self.parts@.len(),
                {
                    let ghost more = self@.parts;
                    let _ = self.parts.pop();
                    assert(self@.parts =~= more.drop_last());
                    assert(self@.parts.take(1) =~= more.take(1));
                }
                assert(self@.parts =~= before.parts.take(1));
                self.parts.push(PathPart::RootDir);
                assert(self@.parts =~= before.parts.take(1).push(part@));
                assert(self@.parts[0] == before.parts[0]);
            },
            PathPart::CurDir => {},
            PathPart::ParentDir => {
                if self.file_name().is_some() {
                    let _ = self.parts.pop();
                    assert(self@.parts =~= before.parts.drop_last());
                    assert(before.parts.last() is Normal);
                    assert(self@.parts[0] == before.parts[0]);
                }
            },
            _ => {
                self.parts.push(copy_part(part));
                assert(self@.parts =~= before.parts.push(part@));
                assert(self@.parts[0] == before.parts[0]);
            },
        }
    }

    /// Where `other` leads from this directory, which has a verbatim prefix.
    fn joined_verbatim(&self, other: &SkillPath) -> (path: SkillPath)
        requires
            self.parts@.len() > 0,
            self@.parts[0] is Verbatim,
        ensures
            path@ == self@.verbatim_joined(other@.parts),
    {
        let mut path = self.duplicate();
        let mut i: usize = 0;
        assert(path@.parts.len() == path.parts@.len() && self@.parts.len() == self.parts@.len());
        assert(other@.parts.take(0) =~= Seq::empty());
        while i < other.parts.len()
            invariant
                i <= other.parts@.len(),
                path.parts@.len() > 0,
                path@.parts[0] is Verbatim,
                path@ == self@.verbatim_joined(other@.parts.take(i as int)),
            decreases other.parts@.len() - i,
        {
            let ghost more = other@.parts.take(i + 1);
            assert(more.drop_last() =~= other@.parts.take(i as int));
            assert(more.last() == other.parts@[i as int]@);
            path.take_verbatim_step(&other.parts[i]);
            i += 1;
        }
        assert(other@.parts.take(i as int) =~= other@.parts);
        path
    }

    /// Where `other` leads when it is followed from the directory `self`.
    pub fn joined(&self, other: &SkillPath) -> (path: SkillPath)
        ensures
            path@ == self@.joined(other@),
    {
        if other.absolute || self.parts.len() == 0 {
            return other.duplicate();
        }
        if other.parts.len() == 0 {
            return self.duplicate();
        }
        assert(other@.parts[0] == other.parts@[0]@);
        assert(self@.parts[0] == self.parts@[0]@);
        let verbatim = match &self.parts[0] {
            PathPart::Verbatim(_) => true,
            _ => false,
        };
        match &other.parts[0] {
            PathPart::Prefix(_) => other.duplicate(),
            PathPart::Verbatim(_) => other.duplicate(),
            _ if verbatim => self.joined_verbatim(other),
            PathPart::RootDir => {
                let prefix_len: usize = match &self.parts[0] {
                    PathPart::Prefix(_) => 1,
                    _ => 0,
                };
                let mut path = self.prefix_copy(prefix_len);
                path.append_parts(other, 0);
                assert(self@.parts.take(prefix_len as int) =~= self@.prefix());
                assert(other@.parts.skip(0) =~= other@.parts);
                path
            },
            PathPart::CurDir => {
                let mut path = self.duplicate();
                path.append_parts(other, 1);
                assert(other@.parts.skip(1) =~= other@.parts.drop_first());
                path
            },
            _ => {
                let mut path = self.duplicate();
                path.append_parts(other, 0);
                assert(other@.parts.skip(0) =~= other@.parts);
                path
            },
        }
    }

    /// The entry `name` of the directory `self`.
    pub fn child(&self, name: &Vec<u8>) -> (path: SkillPath)
        ensures
            path@ == self@.child(name@),
            path@.absolute == self@.absolute,
            path@.parts == self@.parts.push(PathPart::Normal(name@)),
    {
        let mut path = self.duplicate();
        let ghost before = path@.parts;
        let name_copy = name.clone();
        assert(name_copy@ =~= name@);
        path.parts.push(PathPart::Normal(name_copy));
        assert(path@.parts =~= before.push(PathPart::Normal(name@)));
        path
    }
}

/// The name of the directory that a skill gets under a tool: the name that its
/// directory has in the central store, where that is text, and else the skill's name.
pub open spec fn dir_name_for(central_path: PathView, skill_name: Seq<char>) -> Seq<char> {
    match central_path.file_name() {
        Some(name) if valid_utf8(name) && name.len() > 0 => decode_utf8(name),
        _ => skill_name,
    }
}

/// The name of the directory that a skill gets under a tool.
pub fn target_dir_name(central_path: &SkillPath, skill_name: &str) -> (name: String)
    ensures
        name@ == dir_name_for(central_path@, skill_name@),
        match central_path@.parts.last() {
            PathPart::Normal(bytes) => if central_path@.parts.len() > 0 && bytes.len() > 0
                && valid_utf8(bytes) {
                name@ == decode_utf8(bytes)
            } else {
                name@ == skill_name@
            },
            _ => name@ == skill_name@,
        },
{
    match central_path.file_name() {
        Some(bytes) if bytes.len() > 0 => match utf8_text(bytes) {
            Some(text) => text.to_owned(),
            None => skill_name.to_owned(),
        },
        _ => skill_name.to_owned(),
    }
}

/// Contracts see a path as it is: the same components, in the same order.
pub proof fn law_paths_are_seen_as_they_are(path: SkillPath, i: int)
    ensures
        path@.absolute == path.absolute,
        path@.parts.len() == path.parts@.len(),
        0 <= i < path.parts@.len() ==> match path.parts@[i] {
            PathPart::Prefix(name) => path@.parts[i] == PathPart::Prefix(name@),
            PathPart::Verbatim(name) => path@.parts[i] == PathPart::Verbatim(name@),
            PathPart::RootDir => path@.parts[i] == PathPart::<Seq<u8>>::RootDir,
            PathPart::CurDir => path@.parts[i] == PathPart::<Seq<u8>>::CurDir,
            PathPart::ParentDir => path@.parts[i] == PathPart::<Seq<u8>>::ParentDir,
            PathPart::Normal(name) => path@.parts[i] == PathPart::Normal(name@),
        },
{
}

/// A directory in the central store whose name is text gives that name, byte for byte, and
/// whatever the skill is called; any other gives the skill's name.
pub proof fn law_central_directory_gives_the_name(
    central_path: PathView,
    skill_name: Seq<char>,
)
    ensures
        match central_path.parts.last() {
            PathPart::Normal(name) => if central_path.parts.len() > 0 && name.len() > 0
                && valid_utf8(name) {
                encode_utf8(dir_name_for(central_path, skill_name)) == name
            } else {
                dir_name_for(central_path, skill_name) == skill_name
            },
            _ => dir_name_for(central_path, skill_name) == skill_name,
        },
{
    match central_path.parts.last() {
        PathPart::Normal(name) => {
            if valid_utf8(name) {
                decode_utf8_encode_utf8(name);
            }
        },
        _ => {},
    }
}

/// Two directories of the central store with different names that are text never share a
/// directory under a tool, whatever the skills in them are called.
pub proof fn law_central_directories_do_not_share_a_name(
    store: PathView,
    a: Seq<u8>,
    b: Seq<u8>,
    skill_a: Seq<char>,
    skill_b: Seq<char>,
)
    requires
        a != b,
        a.len() > 0,
        b.len() > 0,
        valid_utf8(a),
        valid_utf8(b),
    ensures
        dir_name_for(
            PathView { absolute: store.absolute, parts: store.parts.push(PathPart::Normal(a)) },
            skill_a,
        ) != dir_name_for(
            PathView { absolute: store.absolute, parts: store.parts.push(PathPart::Normal(b)) },
            skill_b,
        ),
{
    decode_utf8_encode_utf8(a);
    decode_utf8_encode_utf8(b);
}

proof fn lemma_pieces_grow(text: Seq<u8>, piece: Seq<u8>, first: bool)
    requires
        forall|i: int| 0 <= i < piece.len() ==> piece[i] != SLASH,
    ensures
        pieces(text + seq![SLASH] + piece, first) == pieces(text, first) + piece_parts(
            piece,
            false,
        ),
    decreases text.len(),
{
    let whole = text + seq![SLASH] + piece;
    let cut = next_slash(text);
    lemma_next_slash(text);
    if cut < text.len() {
        lemma_next_slash_is(whole, cut);
        let rest = text.skip(cut + 1);
        lemma_pieces_grow(rest, piece, false);
        assert(whole.take(cut) =~= text.take(cut));
        assert(whole.skip(cut + 1) =~= rest + seq![SLASH] + piece);
        assert(pieces(whole, first) =~= pieces(text, first) + piece_parts(piece, false));
    } else {
        lemma_next_slash_is(whole, text.len() as int);
        lemma_next_slash_is(piece, piece.len() as int);
        assert(whole.take(text.len() as int) =~= text);
        assert(whole.skip(text.len() as int + 1) =~= piece);
        assert(pieces(piece, false) == piece_parts(piece, false));
        assert(pieces(text, first) == piece_parts(text, first));
    }
}

/// A text without a separator is a path of one component: a name, or one of the two that
/// dots stand for. The empty text is the empty path.
pub proof fn law_text_without_separator_is_one_component(text: Seq<u8>)
    requires
        !text.contains(0x2fu8),
    ensures
        !unix_path(text).absolute,
        text.len() == 0 ==> unix_path(text).parts.len() == 0,
        text == seq![0x2eu8] ==> unix_path(text).parts == seq![PathPart::<Seq<u8>>::CurDir],
        text == seq![0x2eu8, 0x2eu8] ==> unix_path(text).parts == seq![
            PathPart::<Seq<u8>>::ParentDir,
        ],
        text.len() > 0 && text != seq![0x2eu8] && text != seq![0x2eu8, 0x2eu8] ==> unix_path(
            text,
        ).parts == seq![PathPart::Normal(text)],
{
    assert forall|i: int| 0 <= i < text.len() implies text[i] != SLASH by {
        assert(text.contains(text[i]));
    }
    lemma_next_slash_is(text, text.len() as int);
}

/// A path that starts with a separator starts at the root.
pub proof fn law_leading_separator_is_the_root(piece: Seq<u8>)
    requires
        !piece.contains(0x2fu8),
    ensures
        unix_path(seq![0x2fu8] + piece).absolute,
        piece.len() == 0 || piece == seq![0x2eu8] ==> unix_path(seq![0x2fu8] + piece).parts
            == seq![PathPart::<Seq<u8>>::RootDir],
        piece == seq![0x2eu8, 0x2eu8] ==> unix_path(seq![0x2fu8] + piece).parts == seq![
            PathPart::<Seq<u8>>::RootDir,
            PathPart::<Seq<u8>>::ParentDir,
        ],
        piece.len() > 0 && piece != seq![0x2eu8] && piece != seq![0x2eu8, 0x2eu8] ==> unix_path(
            seq![0x2fu8] + piece,
        ).parts == seq![PathPart::RootDir, PathPart::Normal(piece)],
{
    assert forall|i: int| 0 <= i < piece.len() implies piece[i] != SLASH by {
        assert(piece.contains(piece[i]));
    }
    lemma_next_slash_is(piece, piece.len() as int);
    let whole = seq![0x2fu8] + piece;
    assert(whole.skip(1) =~= piece);
    assert(unix_path(whole).parts =~= seq![PathPart::<Seq<u8>>::RootDir] + piece_parts(
        piece,
        false,
    ));
    if piece == seq![0x2eu8, 0x2eu8] {
        assert(piece != seq![0x2eu8]) by {
            assert(seq![0x2eu8].len() == 1);
        }
    }
}

/// A separator and a piece behind a path add what the piece stands for, and nothing else
/// changes: a name adds itself, `..` a step up, and `.` or nothing adds nothing.
pub proof fn law_path_grows_by_what_is_written(text: Seq<u8>, piece: Seq<u8>)
    requires
        text.len() > 0,
        !piece.contains(0x2fu8),
    ensures
        ({
            let before = unix_path(text);
            let after = unix_path(text + seq![0x2fu8] + piece);
            &&& after.absolute == before.absolute
            &&& piece.len() == 0 || piece == seq![0x2eu8] ==> after.parts == before.parts
            &&& piece == seq![0x2eu8, 0x2eu8] ==> after.parts == before.parts.push(
                PathPart::ParentDir,
            )
            &&& piece.len() > 0 && piece != seq![0x2eu8] && piece != seq![0x2eu8, 0x2eu8]
                ==> after.parts == before.parts.push(PathPart::Normal(piece))
        }),
{
    assert forall|i: int| 0 <= i < piece.len() implies piece[i] != SLASH by {
        assert(piece.contains(piece[i]));
    }
    let whole = text + seq![0x2fu8] + piece;
    let before = unix_path(text);
    let added = piece_parts(piece, false);
    assert(whole[0] == text[0]);
    if text[0] == SLASH {
        lemma_pieces_grow(text.skip(1), piece, false);
        assert(whole.skip(1) =~= text.skip(1) + seq![SLASH] + piece);
    } else {
        lemma_pieces_grow(text, piece, true);
    }
    assert(unix_path(whole).parts =~= before.parts + added);
    if piece == seq![0x2eu8, 0x2eu8] {
        assert(piece != seq![0x2eu8]) by {
            assert(seq![0x2eu8].len() == 1);
        }
    }
    assert(added.len() == 1 ==> before.parts + added =~= before.parts.push(added[0]));
    assert(added.len() == 0 ==> before.parts + added =~= before.parts);
}

/// The parent of a path is the path without its last component, and a path that is empty or
/// ends with its root or drive has none.
pub proof fn law_parent_is_all_but_the_last(path: PathView)
    ensures
        match path.parent() {
            Some(parent) => parent.parts.push(path.parts.last()) == path.parts && parent.absolute
                == path.absolute && path.parts.len() > 0,
            None => path.parts.len() == 0 || path.parts.last() is RootDir
                || path.parts.last() is Prefix || path.parts.last() is Verbatim,
        },
        path.parts.len() > 0 && (path.parts.last() is Normal || path.parts.last() is ParentDir
            || path.parts.last() is CurDir) ==> path.parent() is Some,
{
    if path.parent() is Some {
        assert(path.parts.drop_last().push(path.parts.last()) =~= path.parts);
    }
}

/// A path is as deep as its components behind the root or drive are many.
pub proof fn law_depth_counts_components(path: PathView, part: PathPart<Seq<u8>>)
    ensures
        path.parts.len() == 0 ==> path.depth() == 0,
        ({
            let longer = PathView { absolute: path.absolute, parts: path.parts.push(part) };
            if part is RootDir || part is Prefix || part is Verbatim {
                longer.depth() == 0
            } else {
                longer.depth() == path.depth() + 1
            }
        }),
{
    let longer = PathView { absolute: path.absolute, parts: path.parts.push(part) };
    assert(longer.parts.drop_last() =~= path.parts);
}

/// Following one component more leads to the entry of that name, or back up, or nowhere
/// else.
pub proof fn law_following_goes_step_by_step(
    base: PathView,
    parts: Seq<PathPart<Seq<u8>>>,
    part: PathPart<Seq<u8>>,
)
    ensures
        base.followed(Seq::empty()) == base,
        ({
            let here = base.followed(parts);
            let there = base.followed(parts.push(part));
            &&& there.absolute == here.absolute
            &&& part is Normal ==> there.parts == here.parts.push(part)
            &&& part is ParentDir ==> there.parts == (if here.parts.len() == 0
                || here.parts.last() is RootDir || here.parts.last() is Prefix
                || here.parts.last() is Verbatim {
                here.parts
            } else {
                here.parts.drop_last()
            })
            &&& !(part is Normal) && !(part is ParentDir) ==> there.parts == here.parts
        }),
{
    assert(parts.push(part).drop_last() =~= parts);
}

/// Following an absolute path, or one on another drive, leads to it from everywhere, and
/// from nowhere every path leads to itself.
pub proof fn law_joining_starts_anew(base: PathView, other: PathView)
    requires
        other.absolute || base.parts.len() == 0 || other.parts.len() > 0 && (
        other.parts[0] is Prefix || other.parts[0] is Verbatim),
    ensures
        base.joined(other) == other,
{
}

/// Following a relative path from a directory leads on from it, component by component; a
/// leading `.` stays where it is, and a path from the root keeps the drive.
pub proof fn law_joining_leads_on(base: PathView, other: PathView)
    requires
        !other.absolute,
        base.parts.len() > 0,
        !(base.parts[0] is Verbatim),
    ensures
        other.parts.len() == 0 ==> base.joined(other) == base,
        other.parts.len() > 0 && (other.parts[0] is Normal || other.parts[0] is ParentDir)
            ==> base.joined(other).parts == base.parts + other.parts && base.joined(other).absolute
            == base.absolute,
        other.parts.len() > 0 && other.parts[0] is CurDir ==> base.joined(other).parts == base.parts
            + other.parts.skip(1) && base.joined(other).absolute == base.absolute,
        other.parts.len() > 0 && other.parts[0] is RootDir ==> base.joined(other).absolute
            == base.absolute && base.joined(other).parts == (if base.parts[0] is Prefix {
            seq![base.parts[0]] + other.parts
        } else {
            other.parts
        }),
{
    assert(base.parts.take(1) =~= seq![base.parts[0]]);
    assert(Seq::<PathPart<Seq<u8>>>::empty() + other.parts =~= other.parts);
    if other.parts.len() > 0 {
        assert(other.parts.drop_first() =~= other.parts.skip(1));
    }
}

/// From a directory with a verbatim prefix, each component more is taken at once: a name
/// leads on, `..` leads back over a name, and the root leads to the prefix.
pub proof fn law_joining_verbatim_goes_step_by_step(
    base: PathView,
    parts: Seq<PathPart<Seq<u8>>>,
    part: PathPart<Seq<u8>>,
)
    requires
        base.parts.len() > 0,
        base.parts[0] is Verbatim,
        forall|i: int|
            0 <= i < parts.len() ==> !((#[trigger] parts[i]) is Prefix) && !(parts[i] is Verbatim),
        !(part is Prefix),
        !(part is Verbatim),
    ensures
        ({
            let here = base.joined(PathView { absolute: false, parts });
            let there = base.joined(PathView { absolute: false, parts: parts.push(part) });
            &&& parts.len() == 0 ==> here == base
            &&& there.absolute == here.absolute
            &&& part is Normal ==> there.parts == here.parts.push(part)
            &&& part is CurDir ==> there.parts == here.parts
            &&& part is RootDir ==> there.parts == seq![here.parts[0], part]
            &&& part is ParentDir && here.parts.last() is Normal ==> there.parts
                == here.parts.drop_last()
            &&& part is ParentDir && !(here.parts.last() is Normal) ==> there.parts == here.parts
        }),
{
    let longer = parts.push(part);
    assert(longer.drop_last() =~= parts);
    if parts.len() > 0 {
        assert(longer[0] == parts[0]);
    }
    lemma_verbatim_prefix_stays(base, parts);
    let here = base.verbatim_joined(parts);
    assert(here.parts.take(1).push(part) =~= seq![here.parts[0], part]);
}

} // verus!
