//! Rendering whole documents, and all documents of a site.

use crate::error::{SiteError, SiteErrorView};
use crate::warm::assemble::{all_rendered, dir_rendered, is_rendered};
use crate::warm::render::{lemma_tokens_same_paths, tokens_outcome, Diagnostic, DiagnosticView, Outcome};
use crate::warm::site::{doc_at, has_doc, DocRef, Environment, Slot};
use crate::warm::state::{
    bounded, deliverable, file_with_content, lemma_doc_after_with_doc, lemma_same_paths_chain,
    lemma_same_paths_docs, lemma_with_backlinks_content, lemma_with_backlinks_same_paths,
    lemma_with_doc_same_paths, same_paths, with_backlinks, with_content,
};
use crate::warm::tree::{Content, ContentView, DirectoryView};
use vstd::prelude::*;

verus! {

/// What rendering the document at `doc` comes to.
pub open spec fn doc_outcome(site: Seq<DirectoryView>, doc: DocRef) -> Outcome {
    let file = doc_at(site, doc);
    let markup = file.content->0->Quark_0;
    tokens_outcome(site, file.paths.relpath, markup.references, markup.tokens)
}

/// What a document holds after it has been rendered: its page, or, where
/// rendering failed, what it held before.
pub open spec fn rendered_content(before: Option<ContentView>, outcome: Outcome) -> Option<
    ContentView,
> {
    if outcome.error is None {
        Some(ContentView::IncompleteHtml(outcome.html))
    } else {
        before
    }
}

/// The site after the document at `doc` has been rendered: its content is
/// taken out, the backlinks it leaves are added, also to itself, and its page
/// is put in its place.
pub open spec fn after_render(site: Seq<DirectoryView>, doc: DocRef) -> Seq<DirectoryView> {
    with_content(
        with_backlinks(with_content(site, doc, None), doc_outcome(site, doc).backlinks),
        doc,
        rendered_content(doc_at(site, doc).content, doc_outcome(site, doc)),
    )
}

/// Whether the document at `doc` is there and waits to be rendered.
pub open spec fn is_parsed(site: Seq<DirectoryView>, doc: DocRef) -> bool {
    has_doc(site, doc) && doc_at(site, doc).content matches Some(ContentView::Quark(_))
}

/// Rendering one document leaves the paths of the site as they are, and
/// leaves every other document what it holds.
pub proof fn lemma_after_render(site: Seq<DirectoryView>, doc: DocRef, at: DocRef)
    requires
        bounded(site),
        has_doc(site, doc),
        has_doc(site, at),
    ensures
        same_paths(after_render(site, doc), site),
        has_doc(after_render(site, doc), at),
        at != doc ==> doc_at(after_render(site, doc), at).content == doc_at(site, at).content,
        doc_at(after_render(site, doc), doc).content == rendered_content(
            doc_at(site, doc).content,
            doc_outcome(site, doc),
        ),
{
    let file = doc_at(site, doc);
    let markup = file.content->0->Quark_0;
    let outcome = doc_outcome(site, doc);
    let taken = with_content(site, doc, None);
    lemma_with_doc_same_paths(site, doc, file_with_content(file, None));
    lemma_tokens_same_paths(site, taken, file.paths.relpath, markup.references, markup.tokens);
    assert(deliverable(taken, outcome.backlinks)) by {
        assert forall|k: int| 0 <= k < outcome.backlinks.len() implies has_doc(
            taken,
            (#[trigger] outcome.backlinks[k]).0,
        ) by {
            lemma_same_paths_docs(taken, site, outcome.backlinks[k].0);
        }
    }
    let linked = with_backlinks(taken, outcome.backlinks);
    lemma_with_backlinks_same_paths(taken, outcome.backlinks);
    lemma_same_paths_docs(taken, site, doc);
    lemma_same_paths_docs(taken, site, at);
    lemma_with_backlinks_content(taken, outcome.backlinks, doc);
    lemma_with_backlinks_content(taken, outcome.backlinks, at);
    lemma_doc_after_with_doc(site, doc, file_with_content(file, None), at);
    let page = file_with_content(doc_at(linked, doc), rendered_content(file.content, outcome));
    lemma_with_doc_same_paths(linked, doc, page);
    lemma_doc_after_with_doc(linked, doc, page, at);
    lemma_doc_after_with_doc(linked, doc, page, doc);
    lemma_same_paths_chain(after_render(site, doc), linked, taken);
    lemma_same_paths_chain(after_render(site, doc), taken, site);
}

/// How far a build has come.
pub struct Run {
    /// The site as it is.
    pub site: Seq<DirectoryView>,
    /// What notice was given of so far.
    pub diagnostics: Seq<DiagnosticView>,
    /// Why the build stopped, if it did.
    pub error: Option<SiteErrorView>,
}

/// The run after one more document has been rendered. A run that has stopped
/// renders nothing more.
pub open spec fn render_step(run: Run, doc: DocRef) -> Run {
    if run.error is Some {
        run
    } else {
        Run {
            site: after_render(run.site, doc),
            diagnostics: run.diagnostics + doc_outcome(run.site, doc).diagnostics,
            error: doc_outcome(run.site, doc).error,
        }
    }
}

/// The run after the first `count` plain documents of a directory have been
/// rendered.
pub open spec fn render_members(run: Run, dir: usize, count: nat) -> Run
    decreases count,
{
    if count == 0 {
        run
    } else {
        render_step(
            render_members(run, dir, (count - 1) as nat),
            DocRef { dir, slot: Slot::Member((count - 1) as usize) },
        )
    }
}

/// The run after a directory has been rendered: its plain documents in
/// order, then the document that stands for it.
pub open spec fn render_dir(run: Run, dir: usize) -> Run {
    let members = render_members(run, dir, run.site[dir as int].files.len());
    if run.site[dir as int].dirfile is Some {
        render_step(members, DocRef { dir, slot: Slot::Dirfile })
    } else {
        members
    }
}

/// The run after the first `count` directories have been rendered.
pub open spec fn render_dirs(run: Run, count: nat) -> Run
    decreases count,
{
    if count == 0 {
        run
    } else {
        render_dir(render_dirs(run, (count - 1) as nat), (count - 1) as usize)
    }
}

/// The run in which every document of a site is rendered, directory by
/// directory, up to the first document that fails.
pub open spec fn render_site(site: Seq<DirectoryView>) -> Run {
    render_dirs(Run { site, diagnostics: Seq::empty(), error: None }, site.len())
}

/// Whether every document of a site waits to be rendered.
pub open spec fn all_parsed(site: Seq<DirectoryView>) -> bool {
    forall|doc: DocRef| has_doc(site, doc) ==> is_parsed(site, doc)
}

/// Whether the documents of a site that a run has come to are rendered:
/// those of the directories before `dir`, and the first `done` plain
/// documents of the directory `dir`.
pub open spec fn done_rendered(site: Seq<DirectoryView>, dir: usize, done: usize) -> bool {
    forall|doc: DocRef|
        has_doc(site, doc) && (doc.dir < dir || (doc.dir == dir && match doc.slot {
            Slot::Dirfile => false,
            Slot::Member(i) => i < done,
        })) ==> is_rendered(doc_at(site, doc))
}

/// Whether the documents of a site that a run has not come to yet wait to be
/// rendered: those of the directories from `dir` on, but for the first
/// `done` plain documents of the directory `dir`.
pub open spec fn rest_parsed(site: Seq<DirectoryView>, dir: usize, done: usize) -> bool {
    forall|doc: DocRef|
        has_doc(site, doc) && (doc.dir > dir || (doc.dir == dir && match doc.slot {
            Slot::Dirfile => true,
            Slot::Member(i) => i >= done,
        })) ==> is_parsed(site, doc)
}

/// A run that has stopped stays as it is, however many plain documents of a
/// directory are still to come.
pub proof fn lemma_members_stopped(run: Run, dir: usize, done: nat, count: nat)
    requires
        done <= count,
        render_members(run, dir, done).error is Some,
    ensures
        render_members(run, dir, count) == render_members(run, dir, done),
    decreases count,
{
    if done < count {
        lemma_members_stopped(run, dir, done, (count - 1) as nat);
    }
}

/// A run that has stopped stays as it is through a whole directory.
pub proof fn lemma_dir_stopped(run: Run, dir: usize)
    requires
        run.error is Some,
    ensures
        render_dir(run, dir) == run,
{
    assert(render_members(run, dir, 0) == run);
    lemma_members_stopped(run, dir, 0, run.site[dir as int].files.len());
}

/// A run that has stopped stays as it is, however many directories are still
/// to come.
pub proof fn lemma_dirs_stopped(run: Run, done: nat, count: nat)
    requires
        done <= count,
        render_dirs(run, done).error is Some,
    ensures
        render_dirs(run, count) == render_dirs(run, done),
    decreases count,
{
    if done < count {
        lemma_dirs_stopped(run, done, (count - 1) as nat);
        lemma_dir_stopped(render_dirs(run, (count - 1) as nat), (count - 1) as usize);
    }
}

impl Environment {
    /// Renders the document at the given place: its page takes the place of
    /// what its parser made of it, and every document it refers to gets a
    /// backlink. Where rendering fails, the document holds afterwards what it
    /// held before; the backlinks that were left up to the failure stay.
    #[verifier::rlimit(100)]
    pub fn html(&mut self, doc: DocRef, diagnostics: &mut Vec<Diagnostic>) -> (rendered: Result<
        (),
        SiteError,
    >)
        requires
            is_parsed(old(self)@, doc),
        ensures
            final(self).warm == old(self).warm,
            final(self)@ == after_render(old(self)@, doc),
            final(diagnostics).deep_view() == old(diagnostics).deep_view() + doc_outcome(
                old(self)@,
                doc,
            ).diagnostics,
            match rendered {
                Ok(_) => doc_outcome(old(self)@, doc).error is None,
                Err(failure) => doc_outcome(old(self)@, doc).error == Some(failure@),
            },
    {
        let ghost start = self@;
        let ghost file = doc_at(start, doc);
        let ghost markup_view = file.content->0->Quark_0;
        let current = self.file(doc).paths.relpath.clone();
        let taken = self.take_content(doc);
        let ghost emptied = self@;
        proof {
            self.lemma_bounded();
            lemma_with_doc_same_paths(start, doc, file_with_content(file, None));
            lemma_tokens_same_paths(
                emptied,
                start,
                current@,
                markup_view.references,
                markup_view.tokens,
            );
            lemma_same_paths_docs(emptied, start, doc);
        }
        match taken {
            Some(Content::Quark(markup)) => {
                let rendered = self.render_tokens(
                    &current,
                    &markup.references,
                    &markup.tokens,
                    diagnostics,
                );
                proof {
                    lemma_with_backlinks_content(
                        emptied,
                        doc_outcome(start, doc).backlinks,
                        doc,
                    );
                    lemma_doc_after_with_doc(start, doc, file_with_content(file, None), doc);
                }
                match rendered {
                    Ok(page) => {
                        self.put_content(doc, Some(Content::IncompleteHtml(page)));
                        Ok(())
                    },
                    Err(failure) => {
                        self.put_content(doc, Some(Content::Quark(markup)));
                        Err(failure)
                    },
                }
            },
            _ => {
                assert(false);
                Ok(())
            },
        }
    }

    /// Whether every document of the site waits to be rendered.
    pub fn ready(&self) -> (ready: bool)
        ensures
            ready == all_parsed(self@),
    {
        let mut d: usize = 0;
        while d < self.dirs.len()
            invariant
                d <= self.dirs.len(),
                forall|doc: DocRef| has_doc(self@, doc) && doc.dir < d ==> is_parsed(self@, doc),
            decreases self.dirs.len() - d,
        {
            let dir = &self.dirs[d];
            match &dir.dirfile {
                Some(file) => {
                    match &file.content {
                        Some(Content::Quark(_)) => {},
                        _ => {
                            assert(!is_parsed(self@, DocRef { dir: d, slot: Slot::Dirfile }));
                            return false;
                        },
                    }
                },
                None => {},
            }
            let mut i: usize = 0;
            while i < dir.files.len()
                invariant
                    i <= dir.files.len(),
                    d < self.dirs.len(),
                    *dir == self.dirs[d as int],
                    forall|doc: DocRef|
                        has_doc(self@, doc) && doc.dir == d && (doc.slot matches Slot::Member(m)
                            && m < i) ==> is_parsed(self@, doc),
                decreases dir.files.len() - i,
            {
                match &dir.files[i].content {
                    Some(Content::Quark(_)) => {},
                    _ => {
                        assert(!is_parsed(self@, DocRef { dir: d, slot: Slot::Member(i) }));
                        return false;
                    },
                }
                i += 1;
            }
            assert forall|doc: DocRef| has_doc(self@, doc) && doc.dir < d + 1 implies is_parsed(
                self@,
                doc,
            ) by {
                if doc.dir == d {
                    match doc.slot {
                        Slot::Dirfile => {},
                        Slot::Member(m) => {},
                    }
                }
            }
            d += 1;
        }
        true
    }

    /// Renders every document of the site, directory by directory, and
    /// within a directory the plain documents before the one that stands for
    /// it. The first document that fails stops the work. Gives back what
    /// notice was given of on the way.
    #[verifier::rlimit(100)]
    pub fn parse_files(&mut self) -> (rendered: Result<Vec<Diagnostic>, SiteError>)
        requires
            all_parsed(old(self)@),
        ensures
            final(self).warm == old(self).warm,
            final(self)@ == render_site(old(self)@).site,
            match rendered {
                Ok(notes) => render_site(old(self)@).error is None && notes.deep_view()
                    == render_site(old(self)@).diagnostics,
                Err(failure) => render_site(old(self)@).error == Some(failure@),
            },
            rendered is Ok ==> all_rendered(final(self)@),
    {
        let ghost start = self@;
        let ghost first = Run { site: start, diagnostics: Seq::empty(), error: None };
        let mut diagnostics: Vec<Diagnostic> = Vec::new();
        assert(diagnostics.deep_view() =~= Seq::<DiagnosticView>::empty());
        proof {
            self.lemma_bounded();
        }
        let mut d: usize = 0;
        while d < self.dirs.len()
            invariant
                d <= self.dirs.len(),
                self.dirs.len() == start.len(),
                start == old(self)@,
                first == (Run { site: start, diagnostics: Seq::empty(), error: None }),
                self.warm == old(self).warm,
                same_paths(self@, start),
                rest_parsed(self@, d, 0),
                done_rendered(self@, d, 0),
                render_dirs(first, d as nat).error is None,
                render_dirs(first, d as nat).site == self@,
                render_dirs(first, d as nat).diagnostics == diagnostics.deep_view(),
            decreases self.dirs.len() - d,
        {
            let ghost base = render_dirs(first, d as nat);
            let count: usize = self.dirs[d].files.len();
            assert(count == base.site[d as int].files.len());
            let mut i: usize = 0;
            while i < count
                invariant
                    i <= count,
                    d < self.dirs.len(),
                    self.dirs.len() == start.len(),
                    start == old(self)@,
                    first == (Run { site: start, diagnostics: Seq::empty(), error: None }),
                    base == render_dirs(first, d as nat),
                    base.error is None,
                    count == base.site[d as int].files.len(),
                    self.warm == old(self).warm,
                    same_paths(self@, start),
                    same_paths(self@, base.site),
                    rest_parsed(self@, d, i),
                    done_rendered(self@, d, i),
                    render_members(base, d, i as nat).error is None,
                    render_members(base, d, i as nat).site == self@,
                    render_members(base, d, i as nat).diagnostics == diagnostics.deep_view(),
                decreases count - i,
            {
                let doc = DocRef { dir: d, slot: Slot::Member(i) };
                let ghost here = self@;
                proof {
                    self.lemma_bounded();
                    assert(has_doc(here, doc));
                    assert forall|at: DocRef| has_doc(here, at) implies {
                        &&& same_paths(after_render(here, doc), here)
                        &&& has_doc(after_render(here, doc), at)
                        &&& (at != doc ==> doc_at(after_render(here, doc), at).content == doc_at(
                            here,
                            at,
                        ).content)
                    } by {
                        lemma_after_render(here, doc, at);
                    }
                    lemma_after_render(here, doc, doc);
                    lemma_same_paths_chain(after_render(here, doc), here, start);
                    lemma_same_paths_chain(after_render(here, doc), here, base.site);
                }
                let rendered = self.html(doc, &mut diagnostics);
                proof {
                    assert(rest_parsed(self@, d, (i + 1) as usize)) by {
                        assert forall|at: DocRef|
                            has_doc(self@, at) && (at.dir > d || (at.dir == d && match at.slot {
                                Slot::Dirfile => true,
                                Slot::Member(m) => m >= i + 1,
                            })) implies is_parsed(self@, at) by {
                            lemma_same_paths_docs(self@, here, at);
                        }
                    }
                }
                match rendered {
                    Ok(_) => {
                        assert(done_rendered(self@, d, (i + 1) as usize)) by {
                            assert forall|at: DocRef|
                                has_doc(self@, at) && (at.dir < d || (at.dir == d && match at.slot {
                                    Slot::Dirfile => false,
                                    Slot::Member(m) => m < i + 1,
                                })) implies is_rendered(doc_at(self@, at)) by {
                                lemma_same_paths_docs(self@, here, at);
                            }
                        }
                    },
                    Err(failure) => {
                        proof {
                            lemma_members_stopped(base, d, (i + 1) as nat, count as nat);
                            lemma_dirs_stopped(first, (d + 1) as nat, start.len());
                        }
                        return Err(failure);
                    },
                }
                i += 1;
            }
            if self.dirs[d].dirfile.is_some() {
                let doc = DocRef { dir: d, slot: Slot::Dirfile };
                let ghost here = self@;
                proof {
                    self.lemma_bounded();
                    lemma_same_paths_docs(here, base.site, doc);
                    assert(has_doc(here, doc));
                    assert forall|at: DocRef| has_doc(here, at) implies {
                        &&& same_paths(after_render(here, doc), here)
                        &&& has_doc(after_render(here, doc), at)
                        &&& (at != doc ==> doc_at(after_render(here, doc), at).content == doc_at(
                            here,
                            at,
                        ).content)
                    } by {
                        lemma_after_render(here, doc, at);
                    }
                    lemma_after_render(here, doc, doc);
                    lemma_same_paths_chain(after_render(here, doc), here, start);
                }
                let rendered = self.html(doc, &mut diagnostics);
                proof {
                    assert(rest_parsed(self@, (d + 1) as usize, 0)) by {
                        assert forall|at: DocRef| has_doc(self@, at) && at.dir > d implies is_parsed(
                            self@,
                            at,
                        ) by {
                            lemma_same_paths_docs(self@, here, at);
                        }
                    }
                }
                match rendered {
                    Ok(_) => {
                        assert(done_rendered(self@, (d + 1) as usize, 0)) by {
                            assert forall|at: DocRef|
                                has_doc(self@, at) && at.dir < d + 1 implies is_rendered(
                                    doc_at(self@, at),
                                ) by {
                                lemma_same_paths_docs(self@, here, at);
                            }
                        }
                    },
                    Err(failure) => {
                        proof {
                            lemma_dirs_stopped(first, (d + 1) as nat, start.len());
                        }
                        return Err(failure);
                    },
                }
            } else {
                proof {
                    lemma_same_paths_docs(
                        self@,
                        base.site,
                        DocRef { dir: d, slot: Slot::Dirfile },
                    );
                    assert(done_rendered(self@, (d + 1) as usize, 0));
                }
            }
            d += 1;
        }
        proof {
            let site = self@;
            assert forall|k: int| 0 <= k < site.len() implies dir_rendered(#[trigger] site[k]) by {
                let at = DocRef { dir: k as usize, slot: Slot::Dirfile };
                if site[k].dirfile is Some {
                    assert(has_doc(site, at));
                    assert(is_rendered(doc_at(site, at)));
                }
                assert forall|i: int| 0 <= i < site[k].files.len() implies is_rendered(
                    #[trigger] site[k].files[i],
                ) by {
                    assert(site[k].files.len() == self.dirs[k].files.len());
                    let member = DocRef { dir: k as usize, slot: Slot::Member(i as usize) };
                    assert(has_doc(site, member));
                    assert(is_rendered(doc_at(site, member)));
                }
            }
        }
        Ok(diagnostics)
    }
}

} // verus!
