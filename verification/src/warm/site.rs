//! The whole site, and the way a reference finds its document in it.

use crate::job::Warm;
use crate::path::{path_components, with_extension_spec, PartView, SitePath};
use crate::warm::tree::{input_relative, Directory, DirectoryView, File, FileView};
use vstd::prelude::*;

verus! {

/// The place of a document inside its directory.
#[derive(Clone, Copy, Debug, PartialEq, Eq, Structural)]
pub enum Slot {
    /// The document that stands for the directory.
    Dirfile,
    /// One of the other documents, by its position.
    Member(usize),
}

/// The place of a document in a site: the position of its directory, and its
/// place in there.
#[derive(Clone, Copy, Debug, PartialEq, Eq, Structural)]
pub struct DocRef {
    pub dir: usize,
    pub slot: Slot,
}

/// A site: the job that builds it, and its directories.
#[derive(Debug)]
pub struct Environment {
    pub warm: Warm,
    pub dirs: Vec<Directory>,
}

impl View for Environment {
    type V = Seq<DirectoryView>;

    open spec fn view(&self) -> Seq<DirectoryView> {
        self.dirs.deep_view()
    }
}

/// Whether a site has a document at the given place.
pub open spec fn has_doc(site: Seq<DirectoryView>, doc: DocRef) -> bool {
    doc.dir < site.len() && match doc.slot {
        Slot::Dirfile => site[doc.dir as int].dirfile is Some,
        Slot::Member(i) => i < site[doc.dir as int].files.len(),
    }
}

/// The document at the given place of a site.
pub open spec fn doc_at(site: Seq<DirectoryView>, doc: DocRef) -> FileView {
    match doc.slot {
        Slot::Dirfile => site[doc.dir as int].dirfile->0,
        Slot::Member(i) => site[doc.dir as int].files[i as int],
    }
}

/// The path under which references find a document: the path it is read
/// from, as seen from the input root and without the extension.
pub open spec fn match_path(file: FileView) -> Seq<PartView> {
    with_extension_spec(input_relative(file.paths), Seq::empty())
}

/// Whether a reference names a document by its own path: the reference is a
/// suffix of that path, whole components only.
pub open spec fn file_matches(file: FileView, reference: Seq<PartView>) -> bool {
    reference.is_suffix_of(match_path(file))
}

/// Whether a reference names the document that stands for a directory: by the
/// document's own path, or by the path of the directory as seen from the
/// input root.
pub open spec fn dirfile_matches(dir: DirectoryView, reference: Seq<PartView>) -> bool {
    dir.dirfile is Some && (reference.is_suffix_of(input_relative(dir.paths)) || file_matches(
        dir.dirfile->0,
        reference,
    ))
}

/// The places of the documents among `files` that a reference names, in
/// order; `dir` is the position of their directory.
pub open spec fn member_matches(files: Seq<FileView>, dir: usize, reference: Seq<PartView>) -> Seq<
    DocRef,
>
    decreases files.len(),
{
    if files.len() == 0 {
        Seq::empty()
    } else {
        let front = member_matches(files.drop_last(), dir, reference);
        if file_matches(files.last(), reference) {
            front.push(DocRef { dir, slot: Slot::Member((files.len() - 1) as usize) })
        } else {
            front
        }
    }
}

/// The places of the documents of one directory that a reference names: the
/// document that stands for the directory first, then the others in order.
pub open spec fn dir_matches(dir: DirectoryView, at: usize, reference: Seq<PartView>) -> Seq<
    DocRef,
> {
    let first = if dirfile_matches(dir, reference) {
        seq![DocRef { dir: at, slot: Slot::Dirfile }]
    } else {
        Seq::empty()
    };
    first + member_matches(dir.files, at, reference)
}

/// The places of all documents of a site that a reference names, directory
/// by directory.
pub open spec fn site_matches(site: Seq<DirectoryView>, reference: Seq<PartView>) -> Seq<DocRef>
    decreases site.len(),
{
    if site.len() == 0 {
        Seq::empty()
    } else {
        site_matches(site.drop_last(), reference) + dir_matches(
            site.last(),
            (site.len() - 1) as usize,
            reference,
        )
    }
}

/// Every place that [`member_matches`] gives holds a document that the
/// reference names.
pub proof fn lemma_member_matches(
    files: Seq<FileView>,
    dir: usize,
    reference: Seq<PartView>,
    k: int,
)
    requires
        0 <= k < member_matches(files, dir, reference).len(),
        files.len() <= usize::MAX,
    ensures
        member_matches(files, dir, reference)[k].dir == dir,
        member_matches(files, dir, reference)[k].slot matches Slot::Member(i) && i < files.len()
            && file_matches(files[i as int], reference),
    decreases files.len(),
{
    if files.len() > 0 {
        let front = member_matches(files.drop_last(), dir, reference);
        if k < front.len() {
            lemma_member_matches(files.drop_last(), dir, reference, k);
        }
    }
}

/// Every place that [`site_matches`] gives holds a document of the site.
pub proof fn lemma_site_matches(site: Seq<DirectoryView>, reference: Seq<PartView>, k: int)
    requires
        0 <= k < site_matches(site, reference).len(),
        site.len() <= usize::MAX,
        forall|d: int| 0 <= d < site.len() ==> (#[trigger] site[d]).files.len() <= usize::MAX,
    ensures
        has_doc(site, site_matches(site, reference)[k]),
    decreases site.len(),
{
    if site.len() > 0 {
        let front = site_matches(site.drop_last(), reference);
        let last = dir_matches(site.last(), (site.len() - 1) as usize, reference);
        if k < front.len() {
            lemma_site_matches(site.drop_last(), reference, k);
        } else {
            let j = k - front.len();
            let dir = site.last();
            if dirfile_matches(dir, reference) {
                if j > 0 {
                    lemma_member_matches(dir.files, (site.len() - 1) as usize, reference, j - 1);
                }
            } else {
                lemma_member_matches(dir.files, (site.len() - 1) as usize, reference, j);
            }
        }
    }
}

/// Whether a reference names a document.
pub fn path_matches(file: &File, reference: &SitePath) -> (found: bool)
    ensures
        found == file_matches(file@, reference@),
{
    proof {
        reveal_strlit("");
    }
    assert(""@ =~= Seq::<char>::empty());
    let stripped = file.paths.input_relative().with_extension("");
    stripped.ends_with(reference)
}

/// The document at the given place among the directories.
pub fn file_at(dirs: &Vec<Directory>, doc: DocRef) -> (file: &File)
    requires
        has_doc(dirs.deep_view(), doc),
    ensures
        file@ == doc_at(dirs.deep_view(), doc),
{
    match doc.slot {
        Slot::Dirfile => {
            let found = dirs[doc.dir].dirfile.as_ref();
            found.unwrap()
        },
        Slot::Member(i) => &dirs[doc.dir].files[i],
    }
}

impl Environment {
    /// A site without directories.
    pub fn new(warm: Warm) -> (site: Environment)
        ensures
            site@ == Seq::<DirectoryView>::empty(),
            site.warm == warm,
    {
        let site = Environment { warm, dirs: Vec::new() };
        site
    }

    /// Takes a directory into the site, behind those that are there.
    pub fn add_directory(&mut self, dir: Directory)
        ensures
            final(self)@ == old(self)@.push(dir@),
            final(self).warm == old(self).warm,
    {
        self.dirs.push(dir);
    }

    /// The document at the given place.
    pub fn file(&self, doc: DocRef) -> (file: &File)
        requires
            has_doc(self@, doc),
        ensures
            file@ == doc_at(self@, doc),
    {
        file_at(&self.dirs, doc)
    }

    /// The places of all documents that the given reference names.
    pub fn find_matching(&self, reference: &SitePath) -> (found: Vec<DocRef>)
        ensures
            found@ == site_matches(self@, reference@),
            forall|k: int| 0 <= k < found@.len() ==> has_doc(self@, #[trigger] found@[k]),
    {
        let mut found: Vec<DocRef> = Vec::new();
        let mut d: usize = 0;
        while d < self.dirs.len()
            invariant
                d <= self.dirs.len(),
                found@ == site_matches(self@.take(d as int), reference@),
            decreases self.dirs.len() - d,
        {
            let dir = &self.dirs[d];
            let ghost upto = self@.take(d + 1);
            assert(upto.drop_last() =~= self@.take(d as int));
            match &dir.dirfile {
                Some(file) => {
                    if dir.paths.input_relative().ends_with(reference) || path_matches(
                        file,
                        reference,
                    ) {
                        found.push(DocRef { dir: d, slot: Slot::Dirfile });
                    }
                },
                None => {},
            }
            let ghost first = found@;
            let mut i: usize = 0;
            while i < dir.files.len()
                invariant
                    i <= dir.files.len(),
                    dir@.files == dir.files.deep_view(),
                    found@ == first + member_matches(dir@.files.take(i as int), d, reference@),
                decreases dir.files.len() - i,
            {
                let ghost some = dir@.files.take(i + 1);
                assert(some.drop_last() =~= dir@.files.take(i as int));
                if path_matches(&dir.files[i], reference) {
                    found.push(DocRef { dir: d, slot: Slot::Member(i) });
                }
                i += 1;
            }
            assert(dir@.files.take(dir.files.len() as int) =~= dir@.files);
            d += 1;
        }
        assert(self@.take(self.dirs.len() as int) =~= self@);
        assert forall|k: int| 0 <= k < found@.len() implies has_doc(self@, #[trigger] found@[k]) by {
            assert forall|e: int| 0 <= e < self@.len() implies (#[trigger] self@[e]).files.len()
                <= usize::MAX by {
                assert(self@[e].files.len() == self.dirs[e].files.len());
            }
            lemma_site_matches(self@, reference@, k);
        }
        found
    }

    /// The places of all documents that a reference, as it is written in a
    /// document, names.
    pub fn find_shortest_path(&self, reflink: &str) -> (found: Vec<DocRef>)
        ensures
            found@ == site_matches(self@, path_components(reflink@)),
            forall|k: int| 0 <= k < found@.len() ==> has_doc(self@, #[trigger] found@[k]),
    {
        let reference = SitePath::parse(reflink);
        self.find_matching(&reference)
    }
}

} // verus!
