//! From one place in a tree to another by a relative path.

use crate::error::PathError;
use crate::path::{has_parent, join_spec, Part, PartView, SitePath};
use vstd::prelude::*;

verus! {

/// How many components the walk from `base` towards the root drops until what
/// is left is a prefix of `target`, or cannot lose another component.
pub open spec fn walk_count(base: Seq<PartView>, target: Seq<PartView>) -> nat
    decreases base.len(),
{
    if base.is_prefix_of(target) || !has_parent(base) {
        0
    } else {
        1 + walk_count(base.drop_last(), target)
    }
}

/// Where the walk from `base` stops.
pub open spec fn walk_end(base: Seq<PartView>, target: Seq<PartView>) -> Seq<PartView> {
    base.take(base.len() - walk_count(base, target))
}

/// A path of `count` steps to the parent directory.
pub open spec fn ascent(count: nat) -> Seq<PartView> {
    Seq::new(count, |i: int| PartView::Parent)
}

/// The directory that holds a document: the path of the document without its
/// last component. A path that has no component to lose stands for itself.
pub open spec fn folder_of(base: Seq<PartView>) -> Seq<PartView> {
    if has_parent(base) {
        base.drop_last()
    } else {
        base
    }
}

/// The path from `base` to `target`.
///
/// A path to itself is the marker `.`. Otherwise the first step leaves the
/// document at `base` for the directory that holds it, and climbs nothing.
/// From there the walk goes towards the root until it is at a prefix of
/// `target`; each step of it is one `..`. Behind them comes what `target`
/// holds beyond the place the walk stopped at. There is no such path only
/// where the walk ends at a root that `target` does not lie under.
pub open spec fn relative_spec(base: Seq<PartView>, target: Seq<PartView>) -> Result<
    Seq<PartView>,
    PathError,
> {
    let folder = folder_of(base);
    let climbs = walk_count(folder, target);
    let end = walk_end(folder, target);
    if base == target {
        Ok(seq![PartView::Current])
    } else if !end.is_prefix_of(target) {
        Err(PathError::NoCommonAncestor)
    } else {
        Ok(join_spec(ascent(climbs), target.skip(end.len() as int)))
    }
}

/// A path without `.` and without any `..` that follows a name: each such
/// `..` takes the name before it away.
pub open spec fn normalize(path: Seq<PartView>) -> Seq<PartView>
    decreases path.len(),
{
    if path.len() == 0 {
        path
    } else {
        let front = normalize(path.drop_last());
        match path.last() {
            PartView::Parent => if front.len() > 0 && front.last() is Normal {
                front.drop_last()
            } else {
                front.push(PartView::Parent)
            },
            PartView::Current => front,
            part => front.push(part),
        }
    }
}

/// The place that a relative path leads to when it is followed from the
/// document at `base`: the marker `.` leads to the document itself, any other
/// path is followed from the directory that holds the document.
pub open spec fn resolve_spec(base: Seq<PartView>, relative: Seq<PartView>) -> Seq<PartView> {
    if relative == seq![PartView::Current] {
        base
    } else {
        normalize(join_spec(folder_of(base), relative))
    }
}

/// Whether a path can be that of a document in a tree: it has a name, and
/// holds names only.
pub open spec fn is_document_path(path: Seq<PartView>) -> bool {
    path.len() > 0 && forall|i: int| 0 <= i < path.len() ==> path[i] is Normal
}

/// Whether a path holds neither a root nor a prefix: it leads on from
/// wherever it is followed from.
pub open spec fn is_rootless(path: Seq<PartView>) -> bool {
    forall|i: int| 0 <= i < path.len() ==> !(path[i] is Root) && !(path[i] is Prefix)
}

/// The path from `base` to `target`, both taken as places in one tree.
///
/// `base` is not looked up anywhere: it is taken to be a document, and the
/// directory that holds it is where the path starts.
pub fn relativise_path(base: &SitePath, target: &SitePath) -> (relative: Result<
    SitePath,
    PathError,
>)
    ensures
        match relative {
            Ok(path) => relative_spec(base@, target@) == Ok::<Seq<PartView>, PathError>(path@),
            Err(error) => relative_spec(base@, target@) == Err::<Seq<PartView>, PathError>(error),
        },
{
    if base.same(target) {
        return Ok(SitePath::current());
    }
    let mut anchor = base.clone();
    anchor.pop();
    let ghost folder = anchor@;
    let mut climbs: usize = 0;
    assert(folder.take(folder.len() as int) =~= folder);
    loop
        invariant
            folder == folder_of(base@),
            climbs <= folder.len(),
            anchor@ == folder.take(folder.len() - climbs),
            walk_count(folder, target@) == climbs + walk_count(anchor@, target@),
        ensures
            folder == folder_of(base@),
            climbs <= folder.len(),
            anchor@ == folder.take(folder.len() - climbs),
            walk_count(folder, target@) == climbs,
        decreases folder.len() - climbs,
    {
        if target.starts_with(&anchor) {
            break ;
        }
        let ghost before = anchor@;
        if !anchor.pop() {
            break ;
        }
        assert(folder.len() <= base.parts.len());
        assert(before.drop_last() =~= folder.take(folder.len() - (climbs + 1)));
        climbs += 1;
    }
    match target.strip_prefix(&anchor) {
        None => Err(PathError::NoCommonAncestor),
        Some(rest) => {
            let mut relative = SitePath::new();
            let mut climbed: usize = 0;
            while climbed < climbs
                invariant
                    climbed <= climbs,
                    relative@ == ascent(climbed as nat),
                decreases climbs - climbed,
            {
                relative.push_part(Part::Parent);
                climbed += 1;
            }
            relative.push(&rest);
            Ok(relative)
        },
    }
}

/// Takes `.` and every `..` that follows a name out of a path.
pub fn normalize_path(path: &SitePath) -> (plain: SitePath)
    ensures
        plain@ == normalize(path@),
{
    let mut plain = SitePath::new();
    let mut i: usize = 0;
    while i < path.parts.len()
        invariant
            i <= path.parts.len(),
            plain@ == normalize(path@.take(i as int)),
        decreases path.parts.len() - i,
    {
        assert(path@.take(i + 1).drop_last() =~= path@.take(i as int));
        match &path.parts[i] {
            Part::Parent => {
                let n: usize = plain.parts.len();
                let climbs = if n > 0 {
                    match &plain.parts[n - 1] {
                        Part::Normal(_) => true,
                        _ => false,
                    }
                } else {
                    false
                };
                if climbs {
                    plain.pop();
                } else {
                    plain.push_part(Part::Parent);
                }
            },
            Part::Current => {},
            part => {
                plain.push_part(part.clone());
            },
        }
        i += 1;
    }
    assert(path@.take(path.parts.len() as int) =~= path@);
    plain
}

/// The place that a relative path leads to when it is followed from the
/// document at `base`.
pub fn resolve_path(base: &SitePath, relative: &SitePath) -> (place: SitePath)
    ensures
        place@ == resolve_spec(base@, relative@),
{
    let marker = SitePath::current();
    if relative.same(&marker) {
        return base.clone();
    }
    let mut folder = base.clone();
    folder.pop();
    let joined = folder.join(relative);
    normalize_path(&joined)
}

/// The path from a place to itself is the marker `.`.
pub proof fn lemma_relative_to_itself(base: Seq<PartView>)
    ensures
        relative_spec(base, base) == Ok::<Seq<PartView>, PathError>(seq![PartView::Current]),
{
}

proof fn lemma_normalize_names(path: Seq<PartView>)
    requires
        forall|i: int| 0 <= i < path.len() ==> path[i] is Normal,
    ensures
        normalize(path) == path,
    decreases path.len(),
{
    if path.len() > 0 {
        lemma_normalize_names(path.drop_last());
    }
}

proof fn lemma_normalize_ascent(front: Seq<PartView>, count: nat)
    requires
        forall|i: int| 0 <= i < front.len() ==> front[i] is Normal,
        count <= front.len(),
    ensures
        normalize(front + ascent(count)) == front.take(front.len() - count),
    decreases count,
{
    if count == 0 {
        lemma_normalize_names(front);
    } else {
        assert((front + ascent(count)).drop_last() =~= front + ascent((count - 1) as nat));
        lemma_normalize_ascent(front, (count - 1) as nat);
    }
}

proof fn lemma_normalize_tail_names(front: Seq<PartView>, tail: Seq<PartView>)
    requires
        forall|i: int| 0 <= i < tail.len() ==> tail[i] is Normal,
    ensures
        normalize(front + tail) == normalize(front) + tail,
    decreases tail.len(),
{
    if tail.len() > 0 {
        assert((front + tail).drop_last() =~= front + tail.drop_last());
        lemma_normalize_tail_names(front, tail.drop_last());
    }
}

proof fn lemma_walk(base: Seq<PartView>, target: Seq<PartView>)
    requires
        is_rootless(base),
    ensures
        walk_count(base, target) <= base.len(),
        walk_end(base, target).is_prefix_of(target),
    decreases base.len(),
{
    if !base.is_prefix_of(target) && has_parent(base) {
        lemma_walk(base.drop_last(), target);
    }
}

/// From a place whose path holds neither a root nor a prefix there is a
/// path to every place: the walk towards the root can always go on to the
/// empty path, which every path starts with.
pub proof fn lemma_relative_exists(base: Seq<PartView>, target: Seq<PartView>)
    requires
        is_rootless(base),
    ensures
        relative_spec(base, target) is Ok,
{
    lemma_walk(folder_of(base), target);
}

/// Following the path from one document to another leads to that other
/// document.
pub proof fn lemma_resolve_relative(base: Seq<PartView>, target: Seq<PartView>)
    requires
        is_document_path(base),
        is_document_path(target),
    ensures
        relative_spec(base, target) is Ok,
        resolve_spec(base, relative_spec(base, target)->Ok_0) == target,
{
    if base != target {
        let folder = base.drop_last();
        lemma_walk(folder, target);
        let climbs = walk_count(folder, target);
        let end = walk_end(folder, target);
        let rest = target.skip(end.len() as int);
        let climb = ascent(climbs);
        let relative = join_spec(climb, rest);
        assert(relative =~= climb + rest);
        assert(relative != seq![PartView::Current]) by {
            if relative.len() == 1 {
                if climb.len() == 1 {
                    assert(relative[0] == climb[0]);
                } else {
                    assert(relative[0] == rest[0]);
                    assert(rest[0] == target[end.len() as int]);
                }
            }
        }
        assert(join_spec(folder, relative) =~= (folder + climb) + rest);
        lemma_normalize_ascent(folder, climbs);
        lemma_normalize_tail_names(folder + climb, rest);
        assert(end + rest =~= target);
    }
}

/// Taking the path from one document to another, following it, and taking the
/// path to where it led gives the first path again.
pub proof fn lemma_relative_idempotent(base: Seq<PartView>, target: Seq<PartView>)
    requires
        is_document_path(base),
        is_document_path(target),
    ensures
        relative_spec(base, target) is Ok,
        relative_spec(base, resolve_spec(base, relative_spec(base, target)->Ok_0))
            == relative_spec(base, target),
{
    lemma_resolve_relative(base, target);
}

} // verus!
