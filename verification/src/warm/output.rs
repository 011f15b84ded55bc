//! The order in which the directories of a site are made.

use crate::path::{PartView, SitePath};
use crate::warm::assemble::{all_rendered, dir_rendered};
use crate::warm::site::Environment;
use crate::warm::tree::{Directory, DirectoryView};
use vstd::prelude::*;

verus! {

/// How deep below nothing a directory is written: the number of components
/// of the path it is written to.
pub open spec fn depth_of(dir: DirectoryView) -> nat {
    dir.paths.outpath.len()
}

/// Whether directories stand in the order of their depth, the shallowest
/// first.
pub open spec fn ascending(dirs: Seq<DirectoryView>) -> bool {
    forall|i: int, j: int| 0 <= i <= j < dirs.len() ==> depth_of(dirs[i]) <= depth_of(dirs[j])
}

/// Where a directory of the given depth goes into directories in ascending
/// order: behind the last one that is not deeper.
pub open spec fn insertion_point(sorted: Seq<DirectoryView>, depth: nat) -> int
    decreases sorted.len(),
{
    if sorted.len() == 0 {
        0
    } else if depth_of(sorted.last()) > depth {
        insertion_point(sorted.drop_last(), depth)
    } else {
        sorted.len() as int
    }
}

/// Directories in ascending order with one more put in its place.
pub open spec fn sorted_insert(sorted: Seq<DirectoryView>, dir: DirectoryView) -> Seq<
    DirectoryView,
> {
    sorted.insert(insertion_point(sorted, depth_of(dir)), dir)
}

/// The directories in the order of their depth, the shallowest first;
/// directories of one depth stay in the order they were in.
pub open spec fn sorted_by_depth(dirs: Seq<DirectoryView>) -> Seq<DirectoryView>
    decreases dirs.len(),
{
    if dirs.len() == 0 {
        dirs
    } else {
        sorted_insert(sorted_by_depth(dirs.drop_last()), dirs.last())
    }
}

/// The paths of the directories that are to be made, in the order of the
/// directories: all but the root that the site is written to.
pub open spec fn to_create(dirs: Seq<DirectoryView>, outdir: Seq<PartView>) -> Seq<Seq<PartView>>
    decreases dirs.len(),
{
    if dirs.len() == 0 {
        Seq::empty()
    } else if dirs.last().paths.outpath == outdir {
        to_create(dirs.drop_last(), outdir)
    } else {
        to_create(dirs.drop_last(), outdir).push(dirs.last().paths.outpath)
    }
}

proof fn lemma_insertion_point(sorted: Seq<DirectoryView>, depth: nat)
    ensures
        0 <= insertion_point(sorted, depth) <= sorted.len(),
        forall|k: int|
            insertion_point(sorted, depth) <= k < sorted.len() ==> depth_of(sorted[k]) > depth,
        insertion_point(sorted, depth) > 0 ==> depth_of(
            sorted[insertion_point(sorted, depth) - 1],
        ) <= depth,
    decreases sorted.len(),
{
    if sorted.len() > 0 && depth_of(sorted.last()) > depth {
        lemma_insertion_point(sorted.drop_last(), depth);
        let at = insertion_point(sorted, depth);
        assert forall|k: int| at <= k < sorted.len() implies depth_of(sorted[k]) > depth by {
            if k < sorted.len() - 1 {
                assert(sorted.drop_last()[k] == sorted[k]);
            }
        }
    }
}

/// Putting one more directory in its place keeps the order.
pub proof fn lemma_insert_ascending(sorted: Seq<DirectoryView>, dir: DirectoryView)
    requires
        ascending(sorted),
    ensures
        ascending(sorted_insert(sorted, dir)),
{
    lemma_insertion_point(sorted, depth_of(dir));
}

/// What [`sorted_by_depth`] gives is in ascending order, and holds the
/// directories it was given, each as often as it was given.
pub proof fn lemma_sorted_by_depth(dirs: Seq<DirectoryView>)
    ensures
        ascending(sorted_by_depth(dirs)),
        sorted_by_depth(dirs).len() == dirs.len(),
        sorted_by_depth(dirs).to_multiset() == dirs.to_multiset(),
    decreases dirs.len(),
{
    if dirs.len() > 0 {
        let front = sorted_by_depth(dirs.drop_last());
        lemma_sorted_by_depth(dirs.drop_last());
        lemma_insert_ascending(front, dirs.last());
        lemma_insertion_point(front, depth_of(dirs.last()));
        vstd::seq_lib::to_multiset_insert(
            front,
            insertion_point(front, depth_of(dirs.last())),
            dirs.last(),
        );
        vstd::seq_lib::to_multiset_build(dirs.drop_last(), dirs.last());
        assert(dirs.drop_last().push(dirs.last()) =~= dirs);
    }
}

/// Putting the directories in order changes no document: where every
/// document was rendered before, every document is rendered afterwards.
pub proof fn lemma_sorted_rendered(dirs: Seq<DirectoryView>)
    requires
        all_rendered(dirs),
    ensures
        all_rendered(sorted_by_depth(dirs)),
    decreases dirs.len(),
{
    if dirs.len() > 0 {
        let front = sorted_by_depth(dirs.drop_last());
        assert(all_rendered(dirs.drop_last())) by {
            assert forall|d: int| 0 <= d < dirs.drop_last().len() implies dir_rendered(
                #[trigger] dirs.drop_last()[d],
            ) by {
                assert(dirs.drop_last()[d] == dirs[d]);
            }
        }
        lemma_sorted_rendered(dirs.drop_last());
        lemma_insertion_point(front, depth_of(dirs.last()));
        let at = insertion_point(front, depth_of(dirs.last()));
        let out = sorted_insert(front, dirs.last());
        assert forall|d: int| 0 <= d < out.len() implies dir_rendered(#[trigger] out[d]) by {
            if d < at {
                assert(out[d] == front[d]);
            } else if d == at {
                assert(out[d] == dirs[dirs.len() - 1]);
            } else {
                assert(out[d] == front[d - 1]);
            }
        }
    }
}

/// The paths that [`to_create`] gives are paths of the directories, in their
/// order.
proof fn lemma_to_create(dirs: Seq<DirectoryView>, outdir: Seq<PartView>, k: int) -> (at: int)
    requires
        0 <= k < to_create(dirs, outdir).len(),
    ensures
        0 <= at < dirs.len(),
        to_create(dirs, outdir)[k] == dirs[at].paths.outpath,
        forall|m: int|
            k < m < to_create(dirs, outdir).len() ==> exists|later: int|
                at < later < dirs.len() && #[trigger] to_create(dirs, outdir)[m]
                    == dirs[later].paths.outpath,
    decreases dirs.len(),
{
    let front = to_create(dirs.drop_last(), outdir);
    let whole = to_create(dirs, outdir);
    if dirs.last().paths.outpath == outdir {
        let at = lemma_to_create(dirs.drop_last(), outdir, k);
        assert forall|m: int| k < m < whole.len() implies exists|later: int|
            at < later < dirs.len() && #[trigger] whole[m] == dirs[later].paths.outpath by {
            let later = choose|later: int|
                at < later < dirs.drop_last().len() && front[m]
                    == dirs.drop_last()[later].paths.outpath;
            assert(dirs[later] == dirs.drop_last()[later]);
        }
        at
    } else if k < front.len() {
        let at = lemma_to_create(dirs.drop_last(), outdir, k);
        assert forall|m: int| k < m < whole.len() implies exists|later: int|
            at < later < dirs.len() && #[trigger] whole[m] == dirs[later].paths.outpath by {
            if m < front.len() {
                let later = choose|later: int|
                    at < later < dirs.drop_last().len() && front[m]
                        == dirs.drop_last()[later].paths.outpath;
                assert(dirs[later] == dirs.drop_last()[later]);
            } else {
                assert(whole[m] == dirs[dirs.len() - 1].paths.outpath);
            }
        }
        at
    } else {
        dirs.len() - 1
    }
}

/// Of the directories that are to be made, none comes before a directory
/// that is less deep. So a directory is made before any directory in it, and
/// before the pages in it are written.
pub proof fn lemma_created_in_order(
    dirs: Seq<DirectoryView>,
    outdir: Seq<PartView>,
    first: int,
    second: int,
)
    requires
        ascending(dirs),
        0 <= first < second < to_create(dirs, outdir).len(),
    ensures
        to_create(dirs, outdir)[first].len() <= to_create(dirs, outdir)[second].len(),
        !(to_create(dirs, outdir)[second].is_prefix_of(to_create(dirs, outdir)[first])
            && to_create(dirs, outdir)[second] != to_create(dirs, outdir)[first]),
{
    let list = to_create(dirs, outdir);
    let at = lemma_to_create(dirs, outdir, first);
    let later = choose|later: int|
        at < later < dirs.len() && list[second] == dirs[later].paths.outpath;
    assert(depth_of(dirs[at]) <= depth_of(dirs[later]));
    if list[second].is_prefix_of(list[first]) {
        assert(list[first].subrange(0, list[second].len() as int) =~= list[first]);
    }
}

impl Environment {
    /// Puts the directories of the site in the order of their depth, and
    /// gives the paths of those that are to be made, in that order: all but
    /// the root that the site is written to.
    pub fn prepare_output(&mut self) -> (created: Vec<SitePath>)
        ensures
            final(self).warm == old(self).warm,
            final(self)@ == sorted_by_depth(old(self)@),
            created.deep_view() == to_create(final(self)@, old(self).warm.outdir@),
            all_rendered(old(self)@) ==> all_rendered(final(self)@),
    {
        proof {
            if all_rendered(self@) {
                lemma_sorted_rendered(self@);
            }
        }
        let ghost start = self@;
        let mut pending: Vec<Directory> = Vec::new();
        std::mem::swap(&mut pending, &mut self.dirs);
        let ghost mut done: int = 0;
        while pending.len() > 0
            invariant
                0 <= done <= start.len(),
                self.warm == old(self).warm,
                pending.deep_view() == start.skip(done),
                self@ == sorted_by_depth(start.take(done)),
            decreases pending.len(),
        {
            let ghost waiting = pending.deep_view();
            let dir = pending.remove(0);
            assert(waiting.remove(0) =~= start.skip(done + 1));
            assert(waiting[0] == start.skip(done)[0]);
            let depth: usize = dir.paths.outpath.depth();
            let ghost sorted = self@;
            let mut at: usize = self.dirs.len();
            assert(sorted.take(at as int) =~= sorted);
            loop
                invariant
                    at <= self.dirs.len(),
                    sorted == self@,
                    depth == depth_of(dir@),
                    insertion_point(sorted, depth as nat) == insertion_point(
                        sorted.take(at as int),
                        depth as nat,
                    ),
                ensures
                    at <= self.dirs.len(),
                    insertion_point(sorted, depth as nat) == at,
                decreases at,
            {
                if at == 0 {
                    break ;
                }
                assert(sorted.take(at as int).drop_last() =~= sorted.take(at - 1));
                if self.dirs[at - 1].paths.outpath.depth() <= depth {
                    break ;
                }
                at -= 1;
            }
            self.dirs.insert(at, dir);
            proof {
                assert(start.take(done + 1).drop_last() =~= start.take(done));
                done = done + 1;
            }
        }
        assert(start.take(start.len() as int) =~= start);
        let mut created: Vec<SitePath> = Vec::new();
        let mut i: usize = 0;
        while i < self.dirs.len()
            invariant
                i <= self.dirs.len(),
                self.warm == old(self).warm,
                self@ == sorted_by_depth(start),
                created.deep_view() == to_create(self@.take(i as int), self.warm.outdir@),
            decreases self.dirs.len() - i,
        {
            assert(self@.take(i + 1).drop_last() =~= self@.take(i as int));
            if !self.dirs[i].paths.outpath.same(&self.warm.outdir) {
                created.push(self.dirs[i].paths.outpath.clone());
            }
            i += 1;
        }
        assert(self@.take(self.dirs.len() as int) =~= self@);
        created
    }
}

} // verus!
