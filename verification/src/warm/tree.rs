//! The tree of a site: its directories and the documents in them.

use crate::error::PathError;
use crate::job::Warm;
use crate::markup::{Markup, MarkupView};
use crate::path::{
    join_spec, name_spec, separator_free, set_extension_spec, stem_spec, Part, PartView, SitePath,
};
use vstd::multiset::Multiset;
use vstd::prelude::*;

verus! {

/// The three paths of a directory or a document: where it is read from, where
/// it is written to, and the part that the two have in common.
#[derive(Debug)]
pub struct PathStuff {
    pub inpath: SitePath,
    pub outpath: SitePath,
    pub relpath: SitePath,
}

/// The mathematical value of a [`PathStuff`].
pub struct PathStuffView {
    pub inpath: Seq<PartView>,
    pub outpath: Seq<PartView>,
    pub relpath: Seq<PartView>,
}

impl View for PathStuff {
    type V = PathStuffView;

    open spec fn view(&self) -> PathStuffView {
        PathStuffView { inpath: self.inpath@, outpath: self.outpath@, relpath: self.relpath@ }
    }
}

impl DeepView for PathStuff {
    type V = PathStuffView;

    open spec fn deep_view(&self) -> PathStuffView {
        self@
    }
}

/// The paths of what is read from `inpath`, for a site that is read from
/// `indir` and written to `outdir`: what lies under the input root is written
/// to the same place under the output root. The input root itself is written
/// to the output root, and its common part is empty.
pub open spec fn paths_spec(
    inpath: Seq<PartView>,
    indir: Seq<PartView>,
    outdir: Seq<PartView>,
) -> Result<PathStuffView, PathError> {
    if indir.is_prefix_of(inpath) {
        Ok(
            PathStuffView {
                inpath,
                outpath: join_spec(outdir, inpath.skip(indir.len() as int)),
                relpath: inpath.skip(indir.len() as int),
            },
        )
    } else {
        Err(PathError::OutsideRoot)
    }
}

/// The input root is written to the output root.
pub proof fn lemma_root_paths(indir: Seq<PartView>, outdir: Seq<PartView>)
    ensures
        paths_spec(indir, indir, outdir) == Ok::<PathStuffView, PathError>(
            PathStuffView { inpath: indir, outpath: outdir, relpath: Seq::empty() },
        ),
{
    assert(indir.subrange(0, indir.len() as int) =~= indir);
    assert(indir.skip(indir.len() as int) =~= Seq::<PartView>::empty());
    assert(join_spec(outdir, Seq::<PartView>::empty()) =~= outdir);
}

/// The path that something is read from, as it is seen from the input root:
/// the end of the input path that is as long as the common part.
pub open spec fn input_relative(paths: PathStuffView) -> Seq<PartView> {
    if paths.relpath.len() <= paths.inpath.len() {
        paths.inpath.skip(paths.inpath.len() - paths.relpath.len())
    } else {
        paths.inpath
    }
}

/// The name that a directory or a document goes by: the last component of
/// its common part, or of the path it is read from where the common part is
/// empty, as it is for the input root.
pub open spec fn name_of(paths: PathStuffView) -> Option<Seq<char>> {
    if paths.relpath.len() > 0 {
        name_spec(paths.relpath)
    } else {
        name_spec(paths.inpath)
    }
}

/// Of paths that were made for something under the input root, the path as
/// seen from the input root is the input path without the input root, also
/// after the extension of what is written has been replaced.
pub proof fn lemma_input_relative(
    inpath: Seq<PartView>,
    indir: Seq<PartView>,
    outdir: Seq<PartView>,
    extension: Seq<char>,
)
    requires
        indir.is_prefix_of(inpath),
    ensures
        input_relative(paths_spec(inpath, indir, outdir)->Ok_0) == inpath.skip(indir.len() as int),
        input_relative(paths_with_extension(paths_spec(inpath, indir, outdir)->Ok_0, extension))
            == inpath.skip(indir.len() as int),
{
}

/// The paths after the extension of what is written has been replaced.
pub open spec fn paths_with_extension(paths: PathStuffView, extension: Seq<char>) -> PathStuffView {
    PathStuffView {
        inpath: paths.inpath,
        outpath: set_extension_spec(paths.outpath, extension),
        relpath: set_extension_spec(paths.relpath, extension),
    }
}

impl PathStuff {
    /// The paths of what is read from `path`.
    pub fn new(path: SitePath, warm: &Warm) -> (made: Result<PathStuff, PathError>)
        ensures
            match made {
                Ok(paths) => paths_spec(path@, warm.indir@, warm.outdir@) == Ok::<
                    PathStuffView,
                    PathError,
                >(paths@),
                Err(error) => paths_spec(path@, warm.indir@, warm.outdir@) == Err::<
                    PathStuffView,
                    PathError,
                >(error),
            },
    {
        let relpath = match path.strip_prefix(&warm.indir) {
            Some(rest) => rest,
            None => {
                return Err(PathError::OutsideRoot);
            },
        };
        let outpath = warm.outdir.join(&relpath);
        Ok(PathStuff { inpath: path, outpath, relpath })
    }

    /// Replaces the extension of what is written.
    pub fn set_extension(&mut self, ext: &str)
        requires
            separator_free(ext@),
        ensures
            final(self)@ == paths_with_extension(old(self)@, ext@),
    {
        self.outpath.set_extension(ext);
        self.relpath.set_extension(ext);
    }

    /// The name of the directory or document.
    pub fn name(&self) -> (name: Option<String>)
        ensures
            name.deep_view() == name_of(self@),
    {
        if self.relpath.depth() > 0 {
            self.relpath.file_name()
        } else {
            self.inpath.file_name()
        }
    }

    /// The path that the directory or document is read from, as it is seen
    /// from the input root.
    pub fn input_relative(&self) -> (seen: SitePath)
        ensures
            seen@ == input_relative(self@),
    {
        let total: usize = self.inpath.depth();
        let kept: usize = self.relpath.depth();
        if kept > total {
            return self.inpath.clone();
        }
        let mut parts: Vec<Part> = Vec::new();
        let mut i: usize = total - kept;
        while i < total
            invariant
                kept <= total,
                total == self.inpath.parts.len(),
                total - kept <= i <= total,
                parts.len() == i - (total - kept),
                forall|k: int|
                    0 <= k < parts.len() ==> parts[k]@ == self.inpath@[total - kept + k],
            decreases total - i,
        {
            parts.push(self.inpath.parts[i].clone());
            i += 1;
        }
        let seen = SitePath::from_parts(parts);
        assert(seen@ =~= self.inpath@.skip(total - kept));
        seen
    }

    /// The name of the directory or document without its extension.
    pub fn stem(&self) -> (stem: Option<String>)
        ensures
            stem.deep_view() == stem_spec(self@.relpath),
    {
        self.relpath.file_stem()
    }
}

/// What a document holds, by the phase it is in.
#[derive(Debug)]
pub enum Content {
    /// The text as it was read.
    Unparsed(String),
    /// The document after parsing.
    Quark(Markup),
    /// The page, without the template around it.
    IncompleteHtml(String),
}

/// The mathematical value of a [`Content`].
pub enum ContentView {
    Unparsed(Seq<char>),
    Quark(MarkupView),
    IncompleteHtml(Seq<char>),
}

impl View for Content {
    type V = ContentView;

    open spec fn view(&self) -> ContentView {
        match self {
            Content::Unparsed(t) => ContentView::Unparsed(t@),
            Content::Quark(m) => ContentView::Quark(m@),
            Content::IncompleteHtml(h) => ContentView::IncompleteHtml(h@),
        }
    }
}

impl DeepView for Content {
    type V = ContentView;

    open spec fn deep_view(&self) -> ContentView {
        self@
    }
}

/// One document of the site.
#[derive(Debug)]
pub struct File {
    pub paths: PathStuff,
    /// What the document holds; nothing only while it is being rendered.
    pub content: Option<Content>,
    /// For each reference to this document that was found so far, the path
    /// from this document back to the one that refers to it.
    pub backlinks: Vec<SitePath>,
}

/// The mathematical value of a [`File`].
pub struct FileView {
    pub paths: PathStuffView,
    pub content: Option<ContentView>,
    pub backlinks: Seq<Seq<PartView>>,
}

impl View for File {
    type V = FileView;

    open spec fn view(&self) -> FileView {
        FileView {
            paths: self.paths@,
            content: self.content.deep_view(),
            backlinks: self.backlinks.deep_view(),
        }
    }
}

impl DeepView for File {
    type V = FileView;

    open spec fn deep_view(&self) -> FileView {
        self@
    }
}

/// The document that is read from `inpath` and written as a page, before
/// anything refers to it.
pub open spec fn file_spec(
    inpath: Seq<PartView>,
    content: ContentView,
    indir: Seq<PartView>,
    outdir: Seq<PartView>,
) -> Result<FileView, PathError> {
    match paths_spec(inpath, indir, outdir) {
        Ok(paths) => Ok(
            FileView {
                paths: paths_with_extension(paths, "html"@),
                content: Some(content),
                backlinks: Seq::empty(),
            },
        ),
        Err(error) => Err(error),
    }
}

impl File {
    fn with_content(path: SitePath, content: Content, warm: &Warm) -> (made: Result<
        File,
        PathError,
    >)
        ensures
            match made {
                Ok(file) => file_spec(path@, content@, warm.indir@, warm.outdir@) == Ok::<
                    FileView,
                    PathError,
                >(file@),
                Err(error) => file_spec(path@, content@, warm.indir@, warm.outdir@) == Err::<
                    FileView,
                    PathError,
                >(error),
            },
    {
        let mut paths = match PathStuff::new(path, warm) {
            Ok(paths) => paths,
            Err(error) => {
                return Err(error);
            },
        };
        proof {
            reveal_strlit("html");
        }
        paths.set_extension("html");
        let file = File { paths, content: Some(content), backlinks: Vec::new() };
        assert(file.backlinks.deep_view() =~= Seq::empty());
        Ok(file)
    }

    /// The document read from `path` with the text `raw`, not yet parsed.
    pub fn load(path: SitePath, raw: String, warm: &Warm) -> (made: Result<File, PathError>)
        ensures
            match made {
                Ok(file) => file_spec(
                    path@,
                    ContentView::Unparsed(raw@),
                    warm.indir@,
                    warm.outdir@,
                ) == Ok::<FileView, PathError>(file@),
                Err(error) => file_spec(
                    path@,
                    ContentView::Unparsed(raw@),
                    warm.indir@,
                    warm.outdir@,
                ) == Err::<FileView, PathError>(error),
            },
    {
        File::with_content(path, Content::Unparsed(raw), warm)
    }

    /// The document read from `path`, already parsed.
    pub fn new(path: SitePath, markup: Markup, warm: &Warm) -> (made: Result<File, PathError>)
        ensures
            match made {
                Ok(file) => file_spec(
                    path@,
                    ContentView::Quark(markup@),
                    warm.indir@,
                    warm.outdir@,
                ) == Ok::<FileView, PathError>(file@),
                Err(error) => file_spec(
                    path@,
                    ContentView::Quark(markup@),
                    warm.indir@,
                    warm.outdir@,
                ) == Err::<FileView, PathError>(error),
            },
    {
        File::with_content(path, Content::Quark(markup), warm)
    }

    /// The text of a document that is not yet parsed.
    pub fn raw(&self) -> (raw: Option<&String>)
        ensures
            match raw {
                Some(text) => self@.content == Some(ContentView::Unparsed(text@)),
                None => !(self@.content matches Some(ContentView::Unparsed(_))),
            },
    {
        match &self.content {
            Some(Content::Unparsed(text)) => Some(text),
            _ => None,
        }
    }

    /// Takes a document from the first phase to the second: what its parser
    /// made of its text takes the place of the text.
    pub fn set_markup(&mut self, markup: Markup)
        requires
            old(self)@.content matches Some(ContentView::Unparsed(_)),
        ensures
            final(self)@ == (FileView { content: Some(ContentView::Quark(markup@)), ..old(self)@ }),
    {
        self.content = Some(Content::Quark(markup));
    }

    /// The page of a document that has been rendered.
    pub fn html(&self) -> (page: Option<&String>)
        ensures
            match page {
                Some(text) => self@.content == Some(ContentView::IncompleteHtml(text@)),
                None => !(self@.content matches Some(ContentView::IncompleteHtml(_))),
            },
    {
        match &self.content {
            Some(Content::IncompleteHtml(text)) => Some(text),
            _ => None,
        }
    }
}

/// One directory of the site.
#[derive(Debug)]
pub struct Directory {
    pub paths: PathStuff,
    /// The documents of the directory, but for the one that stands for it.
    pub files: Vec<File>,
    /// The document that stands for the directory itself.
    pub dirfile: Option<File>,
}

/// The mathematical value of a [`Directory`].
pub struct DirectoryView {
    pub paths: PathStuffView,
    pub files: Seq<FileView>,
    pub dirfile: Option<FileView>,
}

impl View for Directory {
    type V = DirectoryView;

    open spec fn view(&self) -> DirectoryView {
        DirectoryView {
            paths: self.paths@,
            files: self.files.deep_view(),
            dirfile: self.dirfile.deep_view(),
        }
    }
}

impl DeepView for Directory {
    type V = DirectoryView;

    open spec fn deep_view(&self) -> DirectoryView {
        self@
    }
}

/// Whether a document is an index by its name.
pub open spec fn is_index(file: FileView) -> bool {
    stem_spec(file.paths.relpath) == Some("index"@)
}

/// Whether a document has the name of the directory.
pub open spec fn is_namesake(dir: DirectoryView, file: FileView) -> bool {
    name_of(dir.paths) is Some && stem_spec(file.paths.relpath) == name_of(dir.paths)
}

/// Whether a document that comes into a directory stands for the directory
/// from then on: an index always does, a namesake of the directory unless an
/// index already stands for it.
pub open spec fn promotes(dir: DirectoryView, file: FileView) -> bool {
    is_index(file) || (is_namesake(dir, file) && !(dir.dirfile is Some && is_index(
        dir.dirfile->0,
    )))
}

/// The directory after a document has come into it. A document that another
/// one takes the place of as the one that stands for the directory becomes
/// one of the other documents of the directory, behind those that are there.
pub open spec fn with_file(dir: DirectoryView, file: FileView) -> DirectoryView {
    if promotes(dir, file) {
        DirectoryView {
            dirfile: Some(file),
            files: if dir.dirfile is Some {
                dir.files.push(dir.dirfile->0)
            } else {
                dir.files
            },
            ..dir
        }
    } else {
        DirectoryView { files: dir.files.push(file), ..dir }
    }
}

/// The documents of a directory, each as often as the directory holds it:
/// the one that stands for it, and the others.
pub open spec fn documents(dir: DirectoryView) -> Multiset<FileView> {
    if dir.dirfile is Some {
        dir.files.to_multiset().insert(dir.dirfile->0)
    } else {
        dir.files.to_multiset()
    }
}

/// A document that comes into a directory is in the directory afterwards, and
/// so is every document that was there: none is lost, whichever of them
/// stands for the directory.
pub proof fn lemma_with_file_keeps(dir: DirectoryView, file: FileView)
    ensures
        documents(with_file(dir, file)) == documents(dir).insert(file),
{
    broadcast use vstd::multiset::group_multiset_axioms;

    vstd::seq_lib::to_multiset_build(dir.files, file);
    if dir.dirfile is Some {
        vstd::seq_lib::to_multiset_build(dir.files, dir.dirfile->0);
    }
    assert(documents(with_file(dir, file)) =~= documents(dir).insert(file));
}

/// Whether an entry of a directory is hidden: its name starts with a dot.
/// Hidden entries are no part of a site.
pub open spec fn is_hidden_spec(name: Seq<char>) -> bool {
    name.len() > 0 && name[0] == '.'
}

/// Whether an entry of a directory is hidden.
pub fn is_hidden(name: &str) -> (hidden: bool)
    ensures
        hidden == is_hidden_spec(name@),
{
    let mut letters = name.chars();
    match letters.next() {
        Some(first) => first == '.',
        None => false,
    }
}

impl Directory {
    /// The directory that is read from `path`, still empty.
    pub fn new(path: SitePath, warm: &Warm) -> (made: Result<Directory, PathError>)
        ensures
            match made {
                Ok(dir) => paths_spec(path@, warm.indir@, warm.outdir@) == Ok::<
                    PathStuffView,
                    PathError,
                >(dir@.paths) && dir@.files == Seq::<FileView>::empty() && dir@.dirfile is None,
                Err(error) => paths_spec(path@, warm.indir@, warm.outdir@) == Err::<
                    PathStuffView,
                    PathError,
                >(error),
            },
    {
        match PathStuff::new(path, warm) {
            Ok(paths) => {
                let dir = Directory { paths, files: Vec::new(), dirfile: None };
                Ok(dir)
            },
            Err(error) => Err(error),
        }
    }

    fn stands_as_index(&self) -> (index: bool)
        ensures
            index == (self@.dirfile is Some && is_index(self@.dirfile->0)),
    {
        match &self.dirfile {
            Some(file) => {
                let index = "index".to_owned();
                match file.paths.stem() {
                    Some(stem) => stem.eq(&index),
                    None => false,
                }
            },
            None => false,
        }
    }

    /// Takes a document into the directory, as the one that stands for the
    /// directory or as one of the others.
    pub fn add_file(&mut self, file: File)
        ensures
            final(self)@ == with_file(old(self)@, file@),
    {
        let index = "index".to_owned();
        let promoted = match file.paths.stem() {
            Some(stem) => {
                if stem.eq(&index) {
                    true
                } else {
                    match self.paths.name() {
                        Some(name) => name.eq(&stem) && !self.stands_as_index(),
                        None => false,
                    }
                }
            },
            None => false,
        };
        if promoted {
            let ghost before = self@.files;
            match self.dirfile.take() {
                Some(displaced) => {
                    self.files.push(displaced);
                    assert(self@.files =~= before.push(displaced@));
                },
                None => {},
            }
            self.dirfile = Some(file);
        } else {
            let ghost before = self@.files;
            self.files.push(file);
            assert(self@.files =~= before.push(file@));
        }
    }
}

} // verus!
