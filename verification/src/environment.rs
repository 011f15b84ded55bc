//! A site as a queue of documents without directories: every document is
//! rendered against all the others, in the order of the queue.

use crate::error::{PathError, SiteError};
use crate::job::{Job, Warm};
use crate::markup::{Inline, Markup, References};
use crate::path::{path_components, PartView, SitePath};
use crate::warm::assemble::{
    fill_pages, first_unfilled, is_rendered, lemma_members_failed, make_page, member_pages,
    path_failure, written_as, Output, Page, PageView,
};
use crate::warm::document::Run;
use crate::warm::render::{
    inlines_outcome, lemma_inlines_same_paths, lemma_tokens_same_paths, tokens_outcome, Diagnostic,
    DiagnosticView,
};
use crate::warm::state::{
    bounded, lemma_with_backlinks_content, lemma_with_backlinks_same_paths, with_backlinks,
};
use crate::warm::site::{
    dir_matches, doc_at, has_doc, lemma_site_matches, member_matches, path_matches, site_matches,
    DocRef, Slot,
};
use crate::warm::tree::{
    input_relative, Content, ContentView, Directory, DirectoryView, File, FileView, PathStuff,
    PathStuffView,
};
use std::collections::VecDeque;
use vstd::std_specs::vecdeque::VecDequeAdditionalSpecFns;
use vstd::prelude::*;

verus! {

/// A site as a queue of documents.
#[derive(Debug)]
pub struct Environment {
    /// The job, and the one directory that the documents are rendered in. It
    /// holds documents only while one of them is rendered.
    site: crate::warm::Environment,
    /// The documents, in the order of the queue.
    files: VecDeque<File>,
}

impl View for Environment {
    type V = Seq<DirectoryView>;

    closed spec fn view(&self) -> Seq<DirectoryView> {
        with_files(self.site@, self.files.deep_view())
    }
}

/// Whether a site is a queue: one directory that no document stands for.
pub open spec fn is_queue(site: Seq<DirectoryView>) -> bool {
    site.len() == 1 && site[0].dirfile is None
}

/// The queue with other documents in it.
pub open spec fn with_files(site: Seq<DirectoryView>, files: Seq<FileView>) -> Seq<DirectoryView> {
    seq![DirectoryView { files, ..site[0] }]
}

/// Whether a document waits to be rendered.
pub open spec fn waits(file: FileView) -> bool {
    file.content matches Some(ContentView::Quark(_))
}

/// The document that is read from `inpath` and written to `outpath`, for a
/// site that is read from `indir` and written to `outdir`; both paths must
/// lie under their roots, and equally deep.
pub open spec fn queued_file(
    inpath: Seq<PartView>,
    outpath: Seq<PartView>,
    markup: crate::markup::MarkupView,
    indir: Seq<PartView>,
    outdir: Seq<PartView>,
) -> Result<FileView, PathError> {
    if !indir.is_prefix_of(inpath) || !outdir.is_prefix_of(outpath) {
        Err(PathError::OutsideRoot)
    } else if inpath.len() - indir.len() != outpath.len() - outdir.len() {
        Err(PathError::NotMirrored)
    } else {
        Ok(
            FileView {
                paths: PathStuffView {
                    inpath,
                    outpath,
                    relpath: outpath.skip(outdir.len() as int),
                },
                content: Some(ContentView::Quark(markup)),
                backlinks: Seq::empty(),
            },
        )
    }
}

/// A document that was taken into the queue is found by references under
/// the path it is read from, as seen from the input root.
pub proof fn lemma_queued_file(
    inpath: Seq<PartView>,
    outpath: Seq<PartView>,
    markup: crate::markup::MarkupView,
    indir: Seq<PartView>,
    outdir: Seq<PartView>,
)
    requires
        queued_file(inpath, outpath, markup, indir, outdir) is Ok,
    ensures
        input_relative(queued_file(inpath, outpath, markup, indir, outdir)->Ok_0.paths)
            == inpath.skip(indir.len() as int),
{
}

/// The run after the document at the head of the queue has been rendered
/// against the others. The document goes to the end of the queue with its
/// page, or, where rendering it fails, as it was.
pub open spec fn run_step(run: Run) -> Run {
    let files = run.site[0].files;
    let head = files[0];
    let markup = head.content->0->Quark_0;
    let rest = with_files(run.site, files.skip(1));
    let outcome = tokens_outcome(rest, head.paths.relpath, markup.references, markup.tokens);
    let linked = with_backlinks(rest, outcome.backlinks);
    Run {
        site: with_files(
            linked,
            linked[0].files.push(
                FileView {
                    content: if outcome.error is Some {
                        head.content
                    } else {
                        Some(ContentView::IncompleteHtml(outcome.html))
                    },
                    ..head
                },
            ),
        ),
        diagnostics: run.diagnostics + outcome.diagnostics,
        error: outcome.error,
    }
}

/// The run in which the queue is worked off: as long as the document at the
/// head waits to be rendered, it is rendered and goes to the end. A document
/// at the head that does not wait goes to the end as it is, and the work is
/// done. `budget` bounds the number of documents that are taken.
pub open spec fn run_queue(run: Run, budget: nat) -> Run
    decreases budget,
{
    let files = run.site[0].files;
    if budget == 0 || files.len() == 0 {
        run
    } else if waits(files[0]) {
        let next = run_step(run);
        if next.error is Some {
            next
        } else {
            run_queue(next, (budget - 1) as nat)
        }
    } else {
        Run { site: with_files(run.site, files.skip(1).push(files[0])), ..run }
    }
}

impl Environment {
    /// Whether the site is in order: it is a queue.
    pub closed spec fn wf(&self) -> bool {
        is_queue(self.site@) && self.site@[0].files.len() == 0
    }

    /// The documents of the queue, in order.
    pub closed spec fn files(&self) -> Seq<FileView> {
        self.files.deep_view()
    }

    /// The job that builds the site.
    pub closed spec fn warm(&self) -> Warm {
        self.site.warm
    }

    /// A queue is a site of one directory that holds its documents.
    pub proof fn lemma_queue(&self)
        requires
            self.wf(),
        ensures
            is_queue(self@),
            self@[0].files == self.files(),
            bounded(self@),
    {
        assert(self.files.deep_view().len() == self.files.len());
    }

    /// Moves the documents from the queue into the directory that they are
    /// rendered in, in order.
    fn spread(&mut self)
        requires
            old(self).wf(),
        ensures
            final(self).site.warm == old(self).site.warm,
            final(self).site@ == old(self)@,
            final(self).files@.len() == 0,
    {
        let ghost whole = self.files.deep_view();
        assert(self.site@[0].files + self.files.deep_view() =~= whole);
        while self.files.len() > 0
            invariant
                self.site.warm == old(self).site.warm,
                self.site@.len() == 1,
                self.site@[0].paths == old(self).site@[0].paths,
                self.site@[0].dirfile == old(self).site@[0].dirfile,
                self.site@[0].files + self.files.deep_view() == whole,
                whole == old(self).files.deep_view(),
            decreases self.files@.len(),
        {
            let ghost moved = self.site@[0].files;
            let ghost waiting = self.files.deep_view();
            match self.files.pop_front() {
                Some(file) => {
                    self.site.dirs[0].files.push(file);
                    assert(self.site@[0].files =~= moved.push(file@));
                    assert(self.files.deep_view() =~= waiting.skip(1));
                    assert(moved.push(file@) + waiting.skip(1) =~= moved + waiting);
                },
                None => {},
            }
        }
        assert(self.files.deep_view() =~= Seq::<FileView>::empty());
        assert(self.site@[0].files =~= whole);
        assert(self.site@ =~= with_files(old(self).site@, whole));
    }

    /// Moves the documents from the directory that they were rendered in back
    /// into the queue, in order.
    fn gather(&mut self)
        requires
            is_queue(old(self).site@),
            old(self).files@.len() == 0,
        ensures
            final(self).wf(),
            final(self).site.warm == old(self).site.warm,
            final(self)@ == old(self).site@,
    {
        let ghost whole = self.site@[0].files;
        assert(self.site@[0].files + self.files.deep_view() =~= whole);
        while self.site.dirs[0].files.len() > 0
            invariant
                self.site.warm == old(self).site.warm,
                self.site@.len() == 1,
                self.site@[0].paths == old(self).site@[0].paths,
                self.site@[0].dirfile is None,
                self.site@[0].files + self.files.deep_view() == whole,
                whole == old(self).site@[0].files,
            decreases self.site@[0].files.len(),
        {
            let ghost waiting = self.site@[0].files;
            let ghost moved = self.files.deep_view();
            match self.site.dirs[0].files.pop() {
                Some(file) => {
                    self.files.push_front(file);
                    assert(self.site@[0].files =~= waiting.drop_last());
                    assert(self.files.deep_view() =~= seq![file@] + moved);
                    assert(waiting.drop_last() + (seq![file@] + moved) =~= waiting + moved);
                },
                None => {},
            }
        }
        assert(self.site@[0].files =~= Seq::<FileView>::empty());
        assert(self.files.deep_view() =~= whole);
        assert(with_files(self.site@, whole) =~= old(self).site@);
    }

    /// An empty queue for the given job.
    pub fn new(job: Job) -> (made: Environment)
        ensures
            made.wf(),
            made.files() == Seq::<FileView>::empty(),
            job matches Job::Warm(warm) && made.warm() == warm,
    {
        match job {
            Job::Warm(warm) => {
                let holder = Directory {
                    paths: PathStuff {
                        inpath: warm.indir.clone(),
                        outpath: warm.outdir.clone(),
                        relpath: SitePath::new(),
                    },
                    files: Vec::new(),
                    dirfile: None,
                };
                assert(holder@.files =~= Seq::<FileView>::empty());
                let mut site = crate::warm::Environment::new(warm);
                site.add_directory(holder);
                let files: VecDeque<File> = VecDeque::new();
                assert(files.deep_view() =~= Seq::<FileView>::empty());
                Environment { site, files }
            },
        }
    }

    /// The job that builds the site.
    pub fn job(&self) -> (warm: &Warm)
        ensures
            *warm == self.warm(),
    {
        &self.site.warm
    }

    /// How many documents the queue holds.
    pub fn len(&self) -> (count: usize)
        requires
            self.wf(),
        ensures
            count == self.files().len(),
    {
        self.files.len()
    }

    /// The document at the given position of the queue.
    pub fn get(&self, position: usize) -> (file: &File)
        requires
            self.wf(),
            position < self.files().len(),
        ensures
            file@ == self.files()[position as int],
    {
        &self.files[position]
    }

    /// Takes a parsed document into the queue, at its end.
    pub fn file(&mut self, inpath: SitePath, outpath: SitePath, markup: Markup) -> (taken: Result<
        (),
        PathError,
    >)
        requires
            old(self).wf(),
        ensures
            final(self).wf(),
            final(self).warm() == old(self).warm(),
            match queued_file(
                inpath@,
                outpath@,
                markup@,
                old(self).warm().indir@,
                old(self).warm().outdir@,
            ) {
                Ok(file) => taken is Ok && final(self).files() == old(self).files().push(file),
                Err(error) => taken == Err::<(), PathError>(error) && final(self).files() == old(
                    self,
                ).files(),
            },
    {
        if !inpath.starts_with(&self.site.warm.indir) {
            return Err(PathError::OutsideRoot);
        }
        let relpath = match outpath.strip_prefix(&self.site.warm.outdir) {
            Some(relpath) => relpath,
            None => {
                return Err(PathError::OutsideRoot);
            },
        };
        if inpath.depth() - self.site.warm.indir.depth() != relpath.depth() {
            return Err(PathError::NotMirrored);
        }
        let file = File {
            paths: PathStuff { inpath, outpath, relpath },
            content: Some(Content::Quark(markup)),
            backlinks: Vec::new(),
        };
        assert(file@.backlinks =~= Seq::<Seq<PartView>>::empty());
        let ghost before = self.files.deep_view();
        self.files.push_back(file);
        assert(self.files.deep_view() =~= before.push(file@));
        Ok(())
    }

    /// The places in the queue of all documents that a reference, as it is
    /// written in a document, names.
    pub fn find_shortest_path(&self, reflink: &str) -> (found: Vec<DocRef>)
        requires
            self.wf(),
        ensures
            found@ == site_matches(self@, path_components(reflink@)),
            forall|k: int| 0 <= k < found@.len() ==> has_doc(self@, #[trigger] found@[k]),
    {
        let reference = SitePath::parse(reflink);
        let ghost queue = self.files.deep_view();
        let mut found: Vec<DocRef> = Vec::new();
        assert(queue.take(0) =~= Seq::<FileView>::empty());
        let mut i: usize = 0;
        while i < self.files.len()
            invariant
                i <= self.files.len(),
                queue == self.files.deep_view(),
                found@ == member_matches(queue.take(i as int), 0, reference@),
            decreases self.files.len() - i,
        {
            assert(queue.take(i + 1).drop_last() =~= queue.take(i as int));
            if path_matches(&self.files[i], &reference) {
                found.push(DocRef { dir: 0, slot: Slot::Member(i) });
            }
            i += 1;
        }
        proof {
            assert(queue.take(self.files.len() as int) =~= queue);
            assert(self@.drop_last() =~= Seq::<DirectoryView>::empty());
            assert(dir_matches(self@.last(), 0, reference@) =~= member_matches(
                queue,
                0,
                reference@,
            ));
            assert(site_matches(self@.drop_last(), reference@) =~= Seq::<DocRef>::empty());
            assert(site_matches(self@, reference@) =~= found@);
            assert forall|k: int| 0 <= k < found@.len() implies has_doc(
                self@,
                #[trigger] found@[k],
            ) by {
                lemma_site_matches(self@, reference@, k);
            }
        }
        found
    }

    /// Renders a run of inline pieces of a document with the common path
    /// `file_relpath` against the documents of the queue.
    pub fn html_inlines(
        &mut self,
        file_relpath: &SitePath,
        inlines: &Vec<Inline>,
        references: &References,
        diagnostics: &mut Vec<Diagnostic>,
    ) -> (rendered: Result<String, SiteError>)
        requires
            old(self).wf(),
        ensures
            final(self).wf(),
            final(self).warm() == old(self).warm(),
            ({
                let outcome = inlines_outcome(
                    old(self)@,
                    file_relpath@,
                    references@,
                    inlines.deep_view(),
                );
                &&& final(self)@ == with_backlinks(old(self)@, outcome.backlinks)
                &&& final(diagnostics).deep_view() == old(diagnostics).deep_view()
                    + outcome.diagnostics
                &&& match rendered {
                    Ok(html) => outcome.error is None && html@ == outcome.html,
                    Err(failure) => outcome.error == Some(failure@),
                }
            }),
    {
        self.spread();
        proof {
            self.site.lemma_bounded();
            lemma_inlines_same_paths(
                self.site@,
                self.site@,
                file_relpath@,
                references@,
                inlines.deep_view(),
            );
            lemma_with_backlinks_same_paths(
                self.site@,
                inlines_outcome(
                    self.site@,
                    file_relpath@,
                    references@,
                    inlines.deep_view(),
                ).backlinks,
            );
        }
        let rendered = self.site.html_inline(file_relpath, references, inlines, diagnostics);
        self.gather();
        rendered
    }

    /// Renders a parsed document with the common path `file_relpath` against
    /// the documents of the queue.
    pub fn html(
        &mut self,
        file_relpath: &SitePath,
        markup: &Markup,
        diagnostics: &mut Vec<Diagnostic>,
    ) -> (rendered: Result<String, SiteError>)
        requires
            old(self).wf(),
        ensures
            final(self).wf(),
            final(self).warm() == old(self).warm(),
            ({
                let outcome = tokens_outcome(
                    old(self)@,
                    file_relpath@,
                    markup@.references,
                    markup@.tokens,
                );
                &&& final(self)@ == with_backlinks(old(self)@, outcome.backlinks)
                &&& final(diagnostics).deep_view() == old(diagnostics).deep_view()
                    + outcome.diagnostics
                &&& match rendered {
                    Ok(html) => outcome.error is None && html@ == outcome.html,
                    Err(failure) => outcome.error == Some(failure@),
                }
            }),
    {
        self.spread();
        proof {
            self.site.lemma_bounded();
            lemma_tokens_same_paths(
                self.site@,
                self.site@,
                file_relpath@,
                markup@.references,
                markup@.tokens,
            );
            lemma_with_backlinks_same_paths(
                self.site@,
                tokens_outcome(
                    self.site@,
                    file_relpath@,
                    markup@.references,
                    markup@.tokens,
                ).backlinks,
            );
        }
        let rendered = self.site.render_tokens(
            file_relpath,
            &markup.references,
            &markup.tokens,
            diagnostics,
        );
        self.gather();
        rendered
    }

    /// Works the queue off: as long as the document at its head waits to be
    /// rendered, renders it against the others and puts it at the end. A
    /// document that fails stops the work and goes to the end as it was.
    /// Gives back
    /// what notice was given of on the way.
    #[verifier::rlimit(100)]
    pub fn run_files(&mut self) -> (rendered: Result<Vec<Diagnostic>, SiteError>)
        requires
            old(self).wf(),
        ensures
            final(self).wf(),
            final(self).warm() == old(self).warm(),
            ({
                let run = run_queue(
                    Run { site: old(self)@, diagnostics: Seq::empty(), error: None },
                    old(self).files().len() + 1,
                );
                &&& final(self)@ == run.site
                &&& match rendered {
                    Ok(notes) => run.error is None && notes.deep_view() == run.diagnostics,
                    Err(failure) => run.error == Some(failure@),
                }
            }),
    {
        let ghost start = Run { site: self@, diagnostics: Seq::empty(), error: None };
        let ghost total = self.files.deep_view().len();
        assert(total == self.files.len());
        let mut diagnostics: Vec<Diagnostic> = Vec::new();
        assert(diagnostics.deep_view() =~= Seq::<DiagnosticView>::empty());
        let mut done: usize = 0;
        loop
            invariant
                self.wf(),
                self.site.warm == old(self).site.warm,
                start == (Run { site: old(self)@, diagnostics: Seq::empty(), error: None }),
                total == old(self)@[0].files.len(),
                self.files.deep_view().len() == total,
                total <= usize::MAX,
                done <= total,
                forall|i: int|
                    total - done <= i < total ==> !waits(#[trigger] self.files.deep_view()[i]),
                run_queue(start, total + 1) == run_queue(
                    Run { site: self@, diagnostics: diagnostics.deep_view(), error: None },
                    (total + 1 - done) as nat,
                ),
            decreases total - done,
        {
            let ghost here = Run { site: self@, diagnostics: diagnostics.deep_view(), error: None };
            let ghost files = self.files.deep_view();
            let ghost before = self@;
            let mut file = match self.files.pop_front() {
                Some(file) => file,
                None => {
                    return Ok(diagnostics);
                },
            };
            proof {
                assert(self.files.deep_view() =~= files.skip(1));
                assert(file@ == files[0]);
            }
            let waiting = match &file.content {
                Some(Content::Quark(_)) => true,
                _ => false,
            };
            if !waiting {
                self.files.push_back(file);
                assert(self.files.deep_view() =~= files.skip(1).push(files[0]));
                assert(self@ =~= with_files(before, files.skip(1).push(files[0])));
                return Ok(diagnostics);
            }
            assert(done < total);
            self.spread();
            let ghost rest = self.site@;
            proof {
                assert(rest =~= with_files(before, files.skip(1)));
                self.site.lemma_bounded();
            }
            let current = file.paths.relpath.clone();
            let taken = file.content.take();
            match taken {
                Some(Content::Quark(markup)) => {
                    let ghost outcome = tokens_outcome(
                        rest,
                        current@,
                        markup@.references,
                        markup@.tokens,
                    );
                    proof {
                        lemma_tokens_same_paths(
                            rest,
                            rest,
                            current@,
                            markup@.references,
                            markup@.tokens,
                        );
                        lemma_with_backlinks_same_paths(rest, outcome.backlinks);
                        assert forall|i: int| 0 <= i < rest[0].files.len() implies doc_at(
                            with_backlinks(rest, outcome.backlinks),
                            DocRef { dir: 0, slot: Slot::Member(i as usize) },
                        ).content == rest[0].files[i].content by {
                            lemma_with_backlinks_content(
                                rest,
                                outcome.backlinks,
                                DocRef { dir: 0, slot: Slot::Member(i as usize) },
                            );
                        }
                    }
                    let rendered = self.site.render_tokens(
                        &current,
                        &markup.references,
                        &markup.tokens,
                        &mut diagnostics,
                    );
                    let ghost linked = self.site@;
                    self.gather();
                    match rendered {
                        Ok(html) => {
                            file.content = Some(Content::IncompleteHtml(html));
                            self.files.push_back(file);
                            proof {
                                assert(self.files.deep_view() =~= linked[0].files.push(file@));
                                assert(self@ =~= with_files(linked, linked[0].files.push(file@)));
                                assert(self@ == run_step(here).site);
                                assert forall|i: int| total - (done + 1) <= i < total implies !waits(
                                    #[trigger] self.files.deep_view()[i],
                                ) by {
                                    if i < total - 1 {
                                        assert(self.files.deep_view()[i] == linked[0].files[i]);
                                        assert(linked[0].files[i].content == rest[0].files[i].content);
                                        assert(rest[0].files[i] == files[i + 1]);
                                    }
                                }
                            }
                            done += 1;
                        },
                        Err(failure) => {
                            file.content = Some(Content::Quark(markup));
                            self.files.push_back(file);
                            proof {
                                assert(self.files.deep_view() =~= linked[0].files.push(file@));
                                assert(self@ =~= with_files(linked, linked[0].files.push(file@)));
                                assert(self@ == run_step(here).site);
                            }
                            return Err(failure);
                        },
                    }
                },
                _ => {
                    assert(false);
                    return Ok(diagnostics);
                },
            }
        }
    }

    /// What goes into the template for each document of the queue, in order,
    /// up to the first that fails. The documents have no friends.
    pub fn pages(&self) -> (made: Result<Vec<Page>, PathError>)
        requires
            self.wf(),
            forall|i: int| 0 <= i < self.files().len() ==> is_rendered(#[trigger] self.files()[i]),
        ensures
            match made {
                Ok(pages) => member_pages(self.files(), Seq::empty(), self.warm().outdir@) == Ok::<
                    Seq<PageView>,
                    PathError,
                >(pages.deep_view()),
                Err(error) => member_pages(self.files(), Seq::empty(), self.warm().outdir@) == Err::<
                    Seq<PageView>,
                    PathError,
                >(error),
            },
    {
        let friends: Vec<SitePath> = Vec::new();
        assert(friends.deep_view() =~= Seq::<Seq<PartView>>::empty());
        let files = &self.files;
        let ghost queue = self.files.deep_view();
        let ghost root = self.site.warm.outdir@;
        let mut pages: Vec<Page> = Vec::new();
        assert(pages.deep_view() =~= Seq::<PageView>::empty());
        assert(queue.take(0) =~= Seq::<FileView>::empty());
        let mut i: usize = 0;
        while i < files.len()
            invariant
                i <= files.len(),
                *files == self.files,
                queue == files.deep_view(),
                root == self.site.warm.outdir@,
                friends.deep_view() == Seq::<Seq<PartView>>::empty(),
                forall|k: int| 0 <= k < queue.len() ==> is_rendered(#[trigger] queue[k]),
                member_pages(queue.take(i as int), Seq::empty(), root) == Ok::<
                    Seq<PageView>,
                    PathError,
                >(pages.deep_view()),
            decreases files.len() - i,
        {
            assert(queue.take(i + 1).drop_last() =~= queue.take(i as int));
            assert(queue.take(i + 1).last() == files[i as int]@);
            assert(is_rendered(queue[i as int]));
            match make_page(&files[i], &friends, &self.site.warm.outdir) {
                Ok(page) => {
                    let ghost before = pages.deep_view();
                    pages.push(page);
                    assert(pages.deep_view() =~= before.push(page@));
                },
                Err(error) => {
                    proof {
                        lemma_members_failed(queue, Seq::empty(), root, i + 1);
                    }
                    return Err(error);
                },
            }
            i += 1;
        }
        assert(queue.take(files.len() as int) =~= queue);
        Ok(pages)
    }

    /// Makes the pages of all documents of the queue, in order. Where a
    /// computation on paths fails for any document, no page is made;
    /// otherwise the first page that the template cannot be filled for stops
    /// the work.
    pub fn finish(self) -> (written: Result<Vec<Output>, SiteError>)
        requires
            self.wf(),
            forall|i: int| 0 <= i < self.files().len() ==> is_rendered(#[trigger] self.files()[i]),
        ensures
            match written {
                Ok(outputs) => {
                    &&& member_pages(self.files(), Seq::empty(), self.warm().outdir@) matches Ok(
                        pages,
                    )
                    &&& outputs.len() == pages.len()
                    &&& forall|i: int|
                        0 <= i < outputs.len() ==> written_as(
                            self.warm(),
                            pages[i],
                            #[trigger] outputs[i],
                        )
                },
                Err(error) => match member_pages(
                    self.files(),
                    Seq::empty(),
                    self.warm().outdir@,
                ) {
                    Err(failure) => error@ == path_failure(failure),
                    Ok(pages) => first_unfilled(self.warm(), pages, error@),
                },
            },
    {
        match self.pages() {
            Ok(pages) => fill_pages(&self.site.warm, &pages),
            Err(error) => Err(SiteError::Path(error)),
        }
    }

    /// Whether every document of the queue has been rendered.
    pub fn finished(&self) -> (done: bool)
        requires
            self.wf(),
        ensures
            done == forall|i: int|
                0 <= i < self.files().len() ==> is_rendered(#[trigger] self.files()[i]),
    {
        let files = &self.files;
        let mut i: usize = 0;
        while i < files.len()
            invariant
                i <= files.len(),
                *files == self.files,
                forall|k: int| 0 <= k < i ==> is_rendered(#[trigger] files.deep_view()[k]),
            decreases files.len() - i,
        {
            match &files[i].content {
                Some(Content::IncompleteHtml(_)) => {},
                _ => {
                    assert(self.files()[i as int] == files[i as int]@);
                    assert(!is_rendered(self.files()[i as int]));
                    return false;
                },
            }
            i += 1;
        }
        true
    }
}

} // verus!
