//! The site as rendering changes it: documents get backlinks and content,
//! and keep their paths.

use crate::path::{PartView, SitePath};
use crate::warm::site::{doc_at, has_doc, member_matches, site_matches, DocRef, Environment, Slot};
use crate::warm::tree::{Content, ContentView, Directory, DirectoryView, FileView};
use vstd::prelude::*;

verus! {

/// A document with one more backlink.
pub open spec fn file_with_backlink(file: FileView, path: Seq<PartView>) -> FileView {
    FileView { backlinks: file.backlinks.push(path), ..file }
}

/// A document with other content.
pub open spec fn file_with_content(file: FileView, content: Option<ContentView>) -> FileView {
    FileView { content, ..file }
}

/// A site in which the document at `doc` is replaced.
pub open spec fn with_doc(site: Seq<DirectoryView>, doc: DocRef, file: FileView) -> Seq<
    DirectoryView,
> {
    let dir = site[doc.dir as int];
    site.update(
        doc.dir as int,
        match doc.slot {
            Slot::Dirfile => DirectoryView { dirfile: Some(file), ..dir },
            Slot::Member(i) => DirectoryView { files: dir.files.update(i as int, file), ..dir },
        },
    )
}

/// A site in which the document at `doc` has one more backlink.
pub open spec fn with_backlink(site: Seq<DirectoryView>, doc: DocRef, path: Seq<PartView>) -> Seq<
    DirectoryView,
> {
    with_doc(site, doc, file_with_backlink(doc_at(site, doc), path))
}

/// A site after each of the given backlinks has been added, in order.
pub open spec fn with_backlinks(
    site: Seq<DirectoryView>,
    backlinks: Seq<(DocRef, Seq<PartView>)>,
) -> Seq<DirectoryView>
    decreases backlinks.len(),
{
    if backlinks.len() == 0 {
        site
    } else {
        with_backlink(
            with_backlinks(site, backlinks.drop_last()),
            backlinks.last().0,
            backlinks.last().1,
        )
    }
}

/// A site in which the document at `doc` has other content.
pub open spec fn with_content(
    site: Seq<DirectoryView>,
    doc: DocRef,
    content: Option<ContentView>,
) -> Seq<DirectoryView> {
    with_doc(site, doc, file_with_content(doc_at(site, doc), content))
}

/// Whether two sites have the same directories and documents at the same
/// paths, whatever the documents hold.
pub open spec fn same_paths(a: Seq<DirectoryView>, b: Seq<DirectoryView>) -> bool {
    &&& a.len() == b.len()
    &&& forall|d: int|
        0 <= d < a.len() ==> {
            &&& (#[trigger] a[d]).paths == b[d].paths
            &&& a[d].files.len() == b[d].files.len()
            &&& (a[d].dirfile is Some <==> b[d].dirfile is Some)
            &&& (a[d].dirfile is Some ==> a[d].dirfile->0.paths == b[d].dirfile->0.paths)
            &&& forall|i: int|
                0 <= i < a[d].files.len() ==> (#[trigger] a[d].files[i]).paths
                    == b[d].files[i].paths
        }
}

/// Sites with the same paths are sites with the same directories and
/// documents, so a reference names the same places in both.
pub proof fn lemma_same_paths_matches(
    a: Seq<DirectoryView>,
    b: Seq<DirectoryView>,
    reference: Seq<PartView>,
)
    requires
        same_paths(a, b),
    ensures
        site_matches(a, reference) == site_matches(b, reference),
    decreases a.len(),
{
    if a.len() > 0 {
        assert(same_paths(a.drop_last(), b.drop_last()));
        lemma_same_paths_matches(a.drop_last(), b.drop_last(), reference);
        let last = a.len() - 1;
        lemma_same_paths_members(a[last].files, b[last].files, last as usize, reference);
    }
}

proof fn lemma_same_paths_members(
    a: Seq<FileView>,
    b: Seq<FileView>,
    dir: usize,
    reference: Seq<PartView>,
)
    requires
        a.len() == b.len(),
        forall|i: int| 0 <= i < a.len() ==> (#[trigger] a[i]).paths == b[i].paths,
    ensures
        member_matches(a, dir, reference) == member_matches(
            b,
            dir,
            reference,
        ),
    decreases a.len(),
{
    if a.len() > 0 {
        lemma_same_paths_members(a.drop_last(), b.drop_last(), dir, reference);
    }
}

/// Replacing a document by one with the same paths leaves the paths of the
/// site as they are.
pub proof fn lemma_with_doc_same_paths(site: Seq<DirectoryView>, doc: DocRef, file: FileView)
    requires
        has_doc(site, doc),
        file.paths == doc_at(site, doc).paths,
    ensures
        same_paths(with_doc(site, doc, file), site),
        forall|other: DocRef| has_doc(site, other) <==> has_doc(with_doc(site, doc, file), other),
{
}

/// Two sites with the same paths have the same documents at the same places.
pub proof fn lemma_same_paths_docs(a: Seq<DirectoryView>, b: Seq<DirectoryView>, doc: DocRef)
    requires
        same_paths(a, b),
    ensures
        has_doc(a, doc) <==> has_doc(b, doc),
        has_doc(a, doc) ==> doc_at(a, doc).paths == doc_at(b, doc).paths,
{
}

/// Having the same paths carries over from one pair of sites to the next.
pub proof fn lemma_same_paths_chain(
    a: Seq<DirectoryView>,
    b: Seq<DirectoryView>,
    c: Seq<DirectoryView>,
)
    requires
        same_paths(a, b),
        same_paths(b, c),
    ensures
        same_paths(a, c),
{
}

/// Whether a site is one that fits into memory: its directories and the
/// documents of each can be counted.
pub open spec fn bounded(site: Seq<DirectoryView>) -> bool {
    site.len() <= usize::MAX && forall|d: int|
        0 <= d < site.len() ==> (#[trigger] site[d]).files.len() <= usize::MAX
}

/// Whether every one of the given backlinks goes to a document of the site.
pub open spec fn deliverable(site: Seq<DirectoryView>, backlinks: Seq<(DocRef, Seq<PartView>)>) -> bool {
    forall|k: int| 0 <= k < backlinks.len() ==> has_doc(site, (#[trigger] backlinks[k]).0)
}

/// The document at `at` after the document at `doc` has been replaced.
pub proof fn lemma_doc_after_with_doc(
    site: Seq<DirectoryView>,
    doc: DocRef,
    file: FileView,
    at: DocRef,
)
    requires
        has_doc(site, doc),
        has_doc(site, at),
    ensures
        has_doc(with_doc(site, doc, file), at),
        doc_at(with_doc(site, doc, file), at) == if at == doc {
            file
        } else {
            doc_at(site, at)
        },
{
}

/// Adding backlinks leaves the paths of a site as they are.
pub proof fn lemma_with_backlinks_same_paths(
    site: Seq<DirectoryView>,
    backlinks: Seq<(DocRef, Seq<PartView>)>,
)
    requires
        deliverable(site, backlinks),
    ensures
        same_paths(with_backlinks(site, backlinks), site),
    decreases backlinks.len(),
{
    if backlinks.len() > 0 {
        let front = backlinks.drop_last();
        assert(deliverable(site, front));
        lemma_with_backlinks_same_paths(site, front);
        let middle = with_backlinks(site, front);
        let last = backlinks.last();
        lemma_same_paths_docs(middle, site, last.0);
        lemma_with_doc_same_paths(
            middle,
            last.0,
            file_with_backlink(doc_at(middle, last.0), last.1),
        );
        lemma_same_paths_chain(with_backlinks(site, backlinks), middle, site);
    }
}

/// Adding backlinks changes the content of no document.
pub proof fn lemma_with_backlinks_content(
    site: Seq<DirectoryView>,
    backlinks: Seq<(DocRef, Seq<PartView>)>,
    at: DocRef,
)
    requires
        deliverable(site, backlinks),
        has_doc(site, at),
    ensures
        has_doc(with_backlinks(site, backlinks), at),
        doc_at(with_backlinks(site, backlinks), at).content == doc_at(site, at).content,
        doc_at(with_backlinks(site, backlinks), at).paths == doc_at(site, at).paths,
    decreases backlinks.len(),
{
    if backlinks.len() > 0 {
        let front = backlinks.drop_last();
        assert(deliverable(site, front));
        lemma_with_backlinks_content(site, front, at);
        let middle = with_backlinks(site, front);
        let last = backlinks.last();
        lemma_with_backlinks_content(site, front, last.0);
        lemma_doc_after_with_doc(
            middle,
            last.0,
            file_with_backlink(doc_at(middle, last.0), last.1),
            at,
        );
    }
}

/// Adding two runs of backlinks one after the other is adding them in one.
pub proof fn lemma_with_backlinks_concat(
    site: Seq<DirectoryView>,
    first: Seq<(DocRef, Seq<PartView>)>,
    second: Seq<(DocRef, Seq<PartView>)>,
)
    ensures
        with_backlinks(with_backlinks(site, first), second) == with_backlinks(site, first + second),
    decreases second.len(),
{
    if second.len() > 0 {
        lemma_with_backlinks_concat(site, first, second.drop_last());
        assert((first + second).drop_last() =~= first + second.drop_last());
    }
}

/// Adds a backlink to the document at the given place among the directories.
pub fn add_backlink_to(dirs: &mut Vec<Directory>, doc: DocRef, path: SitePath)
    requires
        has_doc(old(dirs).deep_view(), doc),
    ensures
        final(dirs).deep_view() == with_backlink(old(dirs).deep_view(), doc, path@),
{
    match doc.slot {
        Slot::Dirfile => {
            match &mut dirs[doc.dir].dirfile {
                Some(file) => {
                    file.backlinks.push(path);
                },
                None => {},
            }
        },
        Slot::Member(i) => {
            dirs[doc.dir].files[i].backlinks.push(path);
        },
    }
    proof {
        let before = old(dirs).deep_view();
        let after = with_backlink(before, doc, path@);
        assert forall|d: int| 0 <= d < dirs.deep_view().len() implies dirs.deep_view()[d]
            == after[d] by {
            if d == doc.dir {
                match doc.slot {
                    Slot::Dirfile => {
                        assert(dirs[d].dirfile->0.backlinks.deep_view() =~= old(
                            dirs,
                        )[d].dirfile->0.backlinks.deep_view().push(path@));
                    },
                    Slot::Member(i) => {
                        assert(dirs[d].files[i as int].backlinks.deep_view() =~= old(
                            dirs,
                        )[d].files[i as int].backlinks.deep_view().push(path@));
                        assert(dirs[d].files.deep_view() =~= old(dirs)[d].files.deep_view().update(
                            i as int,
                            file_with_backlink(old(dirs)[d].files[i as int]@, path@),
                        ));
                    },
                }
            }
        }
        assert(dirs.deep_view() =~= after);
    }
}

impl Environment {
    /// Adds a backlink to the document at the given place.
    pub fn add_backlink(&mut self, doc: DocRef, path: SitePath)
        requires
            has_doc(old(self)@, doc),
        ensures
            final(self)@ == with_backlink(old(self)@, doc, path@),
            final(self).warm == old(self).warm,
    {
        add_backlink_to(&mut self.dirs, doc, path);
    }

    /// A site in memory can be counted.
    pub proof fn lemma_bounded(&self)
        ensures
            bounded(self@),
    {
        assert(self@.len() == self.dirs.len());
        assert forall|d: int| 0 <= d < self@.len() implies (#[trigger] self@[d]).files.len()
            <= usize::MAX by {
            assert(self@[d].files.len() == self.dirs[d].files.len());
        }
    }

    /// Takes out what the document at the given place holds.
    pub fn take_content(&mut self, doc: DocRef) -> (taken: Option<Content>)
        requires
            has_doc(old(self)@, doc),
        ensures
            taken.deep_view() == doc_at(old(self)@, doc).content,
            final(self)@ == with_content(old(self)@, doc, None),
            final(self).warm == old(self).warm,
    {
        let taken = match doc.slot {
            Slot::Dirfile => {
                match &mut self.dirs[doc.dir].dirfile {
                    Some(file) => file.content.take(),
                    None => None,
                }
            },
            Slot::Member(i) => self.dirs[doc.dir].files[i].content.take(),
        };
        proof {
            let before = old(self)@;
            let after = with_content(before, doc, None);
            assert forall|d: int| 0 <= d < self@.len() implies self@[d] == after[d] by {
                if let Slot::Member(i) = doc.slot {
                    if d == doc.dir {
                        assert(self.dirs[d].files.deep_view() =~= old(
                            self,
                        ).dirs[d].files.deep_view().update(
                            i as int,
                            file_with_content(old(self).dirs[d].files[i as int]@, None),
                        ));
                    }
                }
            }
        }
        taken
    }

    /// Gives the document at the given place something to hold.
    pub fn put_content(&mut self, doc: DocRef, content: Option<Content>)
        requires
            has_doc(old(self)@, doc),
        ensures
            final(self)@ == with_content(old(self)@, doc, content.deep_view()),
            final(self).warm == old(self).warm,
    {
        let ghost held = content.deep_view();
        match doc.slot {
            Slot::Dirfile => {
                match &mut self.dirs[doc.dir].dirfile {
                    Some(file) => {
                        file.content = content;
                    },
                    None => {},
                }
            },
            Slot::Member(i) => {
                self.dirs[doc.dir].files[i].content = content;
            },
        }
        proof {
            let before = old(self)@;
            let after = with_content(before, doc, held);
            assert forall|d: int| 0 <= d < self@.len() implies self@[d] == after[d] by {
                if let Slot::Member(i) = doc.slot {
                    if d == doc.dir {
                        assert(self.dirs[d].files.deep_view() =~= old(
                            self,
                        ).dirs[d].files.deep_view().update(
                            i as int,
                            file_with_content(old(self).dirs[d].files[i as int]@, held),
                        ));
                    }
                }
            }
        }
    }
}

} // verus!
