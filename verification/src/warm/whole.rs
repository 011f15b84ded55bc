//! What holds of rendering a whole site.

use crate::markup::{InlineView, LinkView, TokenView};
use crate::path::path_components;
use crate::text::trimmed;
use crate::warm::document::{
    after_render, doc_outcome, is_parsed, lemma_after_render, lemma_dir_stopped,
    lemma_dirs_stopped, lemma_members_stopped, render_dir, render_dirs, render_members,
    render_site, render_step, rendered_content, Run,
};
use crate::warm::interlink::{
    inner_of, lemma_ambiguous_document, lemma_tidy_inline, lemma_tidy_tokens, tidy,
};
use crate::warm::render::{inlines_outcome, lemma_tokens_same_paths, tokens_outcome};
use crate::warm::site::{doc_at, has_doc, site_matches, DocRef, Slot};
use crate::path::PartView;
use crate::warm::state::{
    bounded, deliverable, file_with_backlink, file_with_content, lemma_doc_after_with_doc,
    lemma_same_paths_chain, lemma_same_paths_docs, lemma_with_backlinks_content,
    lemma_with_doc_same_paths, same_paths, with_backlinks, with_content,
};
use crate::warm::tree::{ContentView, DirectoryView};
use vstd::prelude::*;

verus! {

/// Whether a run that has come to the first `done` plain documents of the
/// directory `dir` has yet to come to the document at `at`.
pub open spec fn waiting(at: DocRef, dir: usize, done: usize) -> bool {
    at.dir > dir || (at.dir == dir && match at.slot {
        Slot::Dirfile => true,
        Slot::Member(i) => i >= done,
    })
}

/// Whether a run has left a site as far as it was at the start: the paths
/// are the same, and every document that the run has yet to come to holds
/// what it held.
pub open spec fn untouched(
    start: Seq<DirectoryView>,
    site: Seq<DirectoryView>,
    dir: usize,
    done: usize,
) -> bool {
    &&& same_paths(site, start)
    &&& forall|at: DocRef|
        has_doc(start, at) && waiting(at, dir, done) ==> (#[trigger] doc_at(site, at)).content
            == doc_at(start, at).content
}

proof fn lemma_same_paths_bounded(site: Seq<DirectoryView>, start: Seq<DirectoryView>)
    requires
        bounded(start),
        same_paths(site, start),
    ensures
        bounded(site),
{
    assert forall|d: int| 0 <= d < site.len() implies (#[trigger] site[d]).files.len()
        <= usize::MAX by {
        assert(site[d].files.len() == start[d].files.len());
    }
}

/// A document that a run has yet to come to comes to the same in the run as
/// it did at the start.
pub proof fn lemma_outcome_untouched(
    start: Seq<DirectoryView>,
    site: Seq<DirectoryView>,
    doc: DocRef,
)
    requires
        bounded(start),
        same_paths(site, start),
        has_doc(start, doc),
        doc_at(site, doc).content == doc_at(start, doc).content,
    ensures
        doc_outcome(site, doc) == doc_outcome(start, doc),
{
    lemma_same_paths_bounded(site, start);
    lemma_same_paths_docs(site, start, doc);
    let file = doc_at(start, doc);
    let markup = file.content->0->Quark_0;
    lemma_tokens_same_paths(site, start, file.paths.relpath, markup.references, markup.tokens);
}

proof fn lemma_step_untouched(
    start: Seq<DirectoryView>,
    run: Run,
    doc: DocRef,
    dir: usize,
    done: usize,
    next_dir: usize,
    next_done: usize,
)
    requires
        bounded(start),
        has_doc(start, doc),
        untouched(start, run.site, dir, done),
        forall|at: DocRef| waiting(at, next_dir, next_done) ==> waiting(at, dir, done) && at != doc,
    ensures
        untouched(start, render_step(run, doc).site, next_dir, next_done),
{
    if run.error is None {
        let site = run.site;
        let after = after_render(site, doc);
        lemma_same_paths_bounded(site, start);
        lemma_same_paths_docs(site, start, doc);
        lemma_after_render(site, doc, doc);
        lemma_same_paths_chain(after, site, start);
        assert forall|at: DocRef| has_doc(start, at) && waiting(at, next_dir, next_done) implies (
        #[trigger] doc_at(after, at)).content == doc_at(start, at).content by {
            lemma_same_paths_docs(site, start, at);
            lemma_after_render(site, doc, at);
            assert(doc_at(site, at).content == doc_at(start, at).content);
        }
    }
}

proof fn lemma_members_untouched(start: Seq<DirectoryView>, run: Run, dir: usize, count: nat)
    requires
        bounded(start),
        dir < start.len(),
        count <= start[dir as int].files.len(),
        untouched(start, run.site, dir, 0),
    ensures
        untouched(start, render_members(run, dir, count).site, dir, count as usize),
    decreases count,
{
    if count > 0 {
        lemma_members_untouched(start, run, dir, (count - 1) as nat);
        let doc = DocRef { dir, slot: Slot::Member((count - 1) as usize) };
        lemma_step_untouched(
            start,
            render_members(run, dir, (count - 1) as nat),
            doc,
            dir,
            (count - 1) as usize,
            dir,
            count as usize,
        );
    }
}

proof fn lemma_dir_untouched(start: Seq<DirectoryView>, run: Run, dir: usize)
    requires
        bounded(start),
        dir < start.len(),
        untouched(start, run.site, dir, 0),
    ensures
        untouched(start, render_dir(run, dir).site, (dir + 1) as usize, 0),
{
    let count = start[dir as int].files.len();
    assert(run.site[dir as int].files.len() == count);
    lemma_members_untouched(start, run, dir, count);
    let members = render_members(run, dir, count);
    let dirfile = DocRef { dir, slot: Slot::Dirfile };
    if run.site[dir as int].dirfile is Some {
        lemma_same_paths_docs(run.site, start, dirfile);
        lemma_step_untouched(start, members, dirfile, dir, count as usize, (dir + 1) as usize, 0);
    } else {
        assert forall|at: DocRef| has_doc(start, at) && waiting(at, (dir + 1) as usize, 0) implies (
        #[trigger] doc_at(members.site, at)).content == doc_at(start, at).content by {
            assert(waiting(at, dir, count as usize));
        }
    }
}

proof fn lemma_dirs_untouched(start: Seq<DirectoryView>, count: nat)
    requires
        bounded(start),
        count <= start.len(),
    ensures
        untouched(
            start,
            render_dirs(
                Run { site: start, diagnostics: Seq::empty(), error: None },
                count,
            ).site,
            count as usize,
            0,
        ),
    decreases count,
{
    let first = Run { site: start, diagnostics: Seq::empty(), error: None };
    if count > 0 {
        lemma_dirs_untouched(start, (count - 1) as nat);
        lemma_dir_untouched(start, render_dirs(first, (count - 1) as nat), (count - 1) as usize);
    }
}

/// Whether rendering the document at `doc` alone, in the site as it is,
/// fails.
pub open spec fn fails_alone(site: Seq<DirectoryView>, doc: DocRef) -> bool {
    doc_outcome(site, doc).error is Some
}

proof fn lemma_step_fails(start: Seq<DirectoryView>, run: Run, doc: DocRef, dir: usize, done: usize)
    requires
        bounded(start),
        has_doc(start, doc),
        waiting(doc, dir, done),
        untouched(start, run.site, dir, done),
        fails_alone(start, doc),
    ensures
        render_step(run, doc).error is Some,
{
    if run.error is None {
        lemma_outcome_untouched(start, run.site, doc);
    }
}

/// A site in which one document fails alone does not render: the run stops
/// at that document, if not before.
pub proof fn lemma_site_stops(site: Seq<DirectoryView>, doc: DocRef)
    requires
        bounded(site),
        has_doc(site, doc),
        fails_alone(site, doc),
    ensures
        render_site(site).error is Some,
{
    let first = Run { site, diagnostics: Seq::empty(), error: None };
    let dir = doc.dir;
    let before = render_dirs(first, dir as nat);
    lemma_dirs_untouched(site, dir as nat);
    let count = site[dir as int].files.len();
    assert(before.site[dir as int].files.len() == count);
    match doc.slot {
        Slot::Member(i) => {
            lemma_members_untouched(site, before, dir, i as nat);
            lemma_step_fails(site, render_members(before, dir, i as nat), doc, dir, i);
            assert(render_members(before, dir, (i + 1) as nat).error is Some);
            lemma_members_stopped(before, dir, (i + 1) as nat, count);
        },
        Slot::Dirfile => {
            lemma_members_untouched(site, before, dir, count);
            lemma_same_paths_docs(before.site, site, doc);
            lemma_step_fails(site, render_members(before, dir, count), doc, dir, count as usize);
        },
    }
    assert(render_dir(before, dir).error is Some);
    assert(render_dirs(first, (dir + 1) as nat).error is Some);
    lemma_dirs_stopped(first, (dir + 1) as nat, site.len());
}

/// A site in which a document holds a reference that names several
/// documents does not render: `parse_files` fails on it, and the document
/// with the reference gets no page.
pub proof fn lemma_ambiguous_site(
    site: Seq<DirectoryView>,
    doc: DocRef,
    block: int,
    piece: int,
    link: LinkView,
)
    requires
        bounded(site),
        is_parsed(site, doc),
        0 <= block < doc_at(site, doc).content->0->Quark_0.tokens.len(),
        0 <= piece < inner_of(doc_at(site, doc).content->0->Quark_0.tokens[block]).len(),
        inner_of(doc_at(site, doc).content->0->Quark_0.tokens[block])[piece]
            == InlineView::Interlink(link),
        site_matches(site, path_components(trimmed(link.location))).len() >= 2,
    ensures
        render_site(site).error is Some,
{
    lemma_ambiguous_document(site, doc, block, piece, link);
    lemma_site_stops(site, doc);
}

proof fn lemma_members_render(start: Seq<DirectoryView>, run: Run, dir: usize, count: nat)
    requires
        bounded(start),
        dir < start.len(),
        count <= start[dir as int].files.len(),
        untouched(start, run.site, dir, 0),
        run.error is None,
        forall|at: DocRef|
            has_doc(start, at) && !waiting(at, dir, count as usize) ==> !fails_alone(start, at),
    ensures
        render_members(run, dir, count).error is None,
    decreases count,
{
    if count > 0 {
        lemma_members_render(start, run, dir, (count - 1) as nat);
        lemma_members_untouched(start, run, dir, (count - 1) as nat);
        let doc = DocRef { dir, slot: Slot::Member((count - 1) as usize) };
        assert(has_doc(start, doc));
        assert(waiting(doc, dir, (count - 1) as usize));
        lemma_outcome_untouched(start, render_members(run, dir, (count - 1) as nat).site, doc);
    }
}

proof fn lemma_dirs_render(start: Seq<DirectoryView>, count: nat)
    requires
        bounded(start),
        count <= start.len(),
        forall|at: DocRef|
            has_doc(start, at) && !waiting(at, count as usize, 0) ==> !fails_alone(start, at),
    ensures
        render_dirs(Run { site: start, diagnostics: Seq::empty(), error: None }, count).error
            is None,
    decreases count,
{
    let first = Run { site: start, diagnostics: Seq::empty(), error: None };
    if count > 0 {
        let dir = (count - 1) as usize;
        lemma_dirs_render(start, (count - 1) as nat);
        lemma_dirs_untouched(start, (count - 1) as nat);
        let before = render_dirs(first, (count - 1) as nat);
        let files = start[dir as int].files.len();
        assert(before.site[dir as int].files.len() == files);
        lemma_members_render(start, before, dir, files);
        lemma_members_untouched(start, before, dir, files);
        let dirfile = DocRef { dir, slot: Slot::Dirfile };
        if before.site[dir as int].dirfile is Some {
            lemma_same_paths_docs(before.site, start, dirfile);
            assert(has_doc(start, dirfile));
            assert(waiting(dirfile, dir, files as usize));
            lemma_outcome_untouched(start, render_members(before, dir, files).site, dirfile);
        }
    }
}

/// A site in which no document fails alone renders: documents do not stand
/// in each other's way.
pub proof fn lemma_site_renders(site: Seq<DirectoryView>)
    requires
        bounded(site),
        forall|at: DocRef| has_doc(site, at) ==> !fails_alone(site, at),
    ensures
        render_site(site).error is None,
{
    lemma_dirs_render(site, site.len());
}

/// Whether the document at `at` is rendered before the one at `doc`: the
/// directories are taken in order, and in each the plain documents in order,
/// then the document that stands for the directory.
pub open spec fn comes_before(at: DocRef, doc: DocRef) -> bool {
    at.dir < doc.dir || (at.dir == doc.dir && match at.slot {
        Slot::Dirfile => false,
        Slot::Member(i) => match doc.slot {
            Slot::Dirfile => true,
            Slot::Member(j) => i < j,
        },
    })
}

/// A build stops at the first document, in the order of rendering, that
/// fails alone, and for the reason that this document fails for.
pub proof fn lemma_first_failure(site: Seq<DirectoryView>, doc: DocRef)
    requires
        bounded(site),
        has_doc(site, doc),
        fails_alone(site, doc),
        forall|at: DocRef| has_doc(site, at) && comes_before(at, doc) ==> !fails_alone(site, at),
    ensures
        render_site(site).error == doc_outcome(site, doc).error,
{
    let first = Run { site, diagnostics: Seq::empty(), error: None };
    let dir = doc.dir;
    let before = render_dirs(first, dir as nat);
    lemma_dirs_untouched(site, dir as nat);
    assert forall|at: DocRef| has_doc(site, at) && !waiting(at, dir, 0) implies !fails_alone(
        site,
        at,
    ) by {
        assert(comes_before(at, doc));
    }
    lemma_dirs_render(site, dir as nat);
    let count = site[dir as int].files.len();
    assert(before.site[dir as int].files.len() == count);
    let upto: nat = match doc.slot {
        Slot::Member(i) => i as nat,
        Slot::Dirfile => count,
    };
    assert forall|at: DocRef|
        has_doc(site, at) && !waiting(at, dir, upto as usize) implies !fails_alone(site, at) by {
        assert(comes_before(at, doc));
    }
    lemma_members_render(site, before, dir, upto);
    lemma_members_untouched(site, before, dir, upto);
    let ready = render_members(before, dir, upto);
    match doc.slot {
        Slot::Member(i) => {
            lemma_outcome_untouched(site, ready.site, doc);
            assert(render_members(before, dir, (i + 1) as nat) == render_step(ready, doc));
            lemma_members_stopped(before, dir, (i + 1) as nat, count);
            assert(render_dir(before, dir).error == doc_outcome(site, doc).error);
        },
        Slot::Dirfile => {
            lemma_same_paths_docs(before.site, site, doc);
            lemma_outcome_untouched(site, ready.site, doc);
            assert(render_dir(before, dir) == render_step(ready, doc));
        },
    }
    assert(render_dirs(first, (dir + 1) as nat) == render_dir(before, dir));
    lemma_dirs_stopped(first, (dir + 1) as nat, site.len());
}

/// Whether no reference in the given blocks names several documents.
pub open spec fn unambiguous(site: Seq<DirectoryView>, tokens: Seq<TokenView>) -> bool {
    forall|block: int, piece: int|
        0 <= block < tokens.len() && 0 <= piece < inner_of(tokens[block]).len() ==> (
        #[trigger] inner_of(tokens[block])[piece] matches InlineView::Interlink(link)
            ==> site_matches(site, path_components(trimmed(link.location))).len() <= 1)
}

/// In a tidy site a run of inline pieces in which no reference names several
/// documents renders without failure, whatever references name no document.
pub proof fn lemma_inlines_calm(
    site: Seq<DirectoryView>,
    doc: DocRef,
    references: Map<Seq<char>, Seq<char>>,
    inlines: Seq<InlineView>,
)
    requires
        bounded(site),
        tidy(site),
        has_doc(site, doc),
        forall|piece: int|
            0 <= piece < inlines.len() ==> (#[trigger] inlines[piece] matches InlineView::Interlink(
                link,
            ) ==> site_matches(site, path_components(trimmed(link.location))).len() <= 1),
    ensures
        inlines_outcome(site, doc_at(site, doc).paths.relpath, references, inlines).error is None,
    decreases inlines.len(),
{
    if inlines.len() > 0 {
        let front = inlines.drop_last();
        assert forall|piece: int| 0 <= piece < front.len() implies (
        #[trigger] front[piece] matches InlineView::Interlink(link) ==> site_matches(
            site,
            path_components(trimmed(link.location)),
        ).len() <= 1) by {
            assert(front[piece] == inlines[piece]);
        }
        lemma_inlines_calm(site, doc, references, front);
        lemma_tidy_inline(site, doc, references, inlines.last());
        assert(inlines.last() == inlines[inlines.len() - 1]);
    }
}

/// In a tidy site a document in which no reference names several documents
/// renders without failure.
pub proof fn lemma_tokens_calm(
    site: Seq<DirectoryView>,
    doc: DocRef,
    references: Map<Seq<char>, Seq<char>>,
    tokens: Seq<TokenView>,
)
    requires
        bounded(site),
        tidy(site),
        has_doc(site, doc),
        unambiguous(site, tokens),
    ensures
        tokens_outcome(site, doc_at(site, doc).paths.relpath, references, tokens).error is None,
    decreases tokens.len(),
{
    if tokens.len() > 0 {
        let front = tokens.drop_last();
        assert(unambiguous(site, front)) by {
            assert forall|block: int, piece: int|
                0 <= block < front.len() && 0 <= piece < inner_of(front[block]).len() implies (
            #[trigger] inner_of(front[block])[piece] matches InlineView::Interlink(link)
                ==> site_matches(site, path_components(trimmed(link.location))).len() <= 1) by {
                assert(front[block] == tokens[block]);
                assert(inner_of(tokens[block])[piece] == inner_of(front[block])[piece]);
            }
        }
        lemma_tokens_calm(site, doc, references, front);
        let last = tokens.len() - 1;
        let inner = inner_of(tokens[last]);
        assert forall|piece: int| 0 <= piece < inner.len() implies (
        #[trigger] inner[piece] matches InlineView::Interlink(link) ==> site_matches(
            site,
            path_components(trimmed(link.location)),
        ).len() <= 1) by {
            assert(inner_of(tokens[last])[piece] == inner[piece]);
        }
        lemma_inlines_calm(site, doc, references, inner);
        assert(tokens.last() == tokens[last]);
    }
}

/// A tidy site in which no reference names several documents renders,
/// whatever references name no document at all: an unresolved reference does
/// not stop the build.
pub proof fn lemma_unambiguous_site(site: Seq<DirectoryView>)
    requires
        bounded(site),
        tidy(site),
        forall|at: DocRef|
            has_doc(site, at) ==> is_parsed(site, at) && unambiguous(
                site,
                doc_at(site, at).content->0->Quark_0.tokens,
            ),
    ensures
        render_site(site).error is None,
{
    assert forall|at: DocRef| has_doc(site, at) implies !fails_alone(site, at) by {
        let markup = doc_at(site, at).content->0->Quark_0;
        lemma_tokens_calm(site, at, markup.references, markup.tokens);
    }
    lemma_site_renders(site);
}

/// In a tidy site nothing but a reference that names several documents
/// stops the build.
pub proof fn lemma_tidy_site_failure(site: Seq<DirectoryView>, doc: DocRef)
    requires
        bounded(site),
        tidy(site),
        has_doc(site, doc),
    ensures
        doc_outcome(site, doc).error matches Some(error) ==> error is LinkAmbiguity,
{
    let markup = doc_at(site, doc).content->0->Quark_0;
    lemma_tidy_tokens(site, doc, markup.references, markup.tokens);
}

/// Of the given backlinks, in order, the paths of those that go to the
/// document at `doc`.
pub open spec fn sent_to(backlinks: Seq<(DocRef, Seq<PartView>)>, doc: DocRef) -> Seq<
    Seq<PartView>,
>
    decreases backlinks.len(),
{
    if backlinks.len() == 0 {
        Seq::empty()
    } else if backlinks.last().0 == doc {
        sent_to(backlinks.drop_last(), doc).push(backlinks.last().1)
    } else {
        sent_to(backlinks.drop_last(), doc)
    }
}

/// Adding backlinks to a site gives each document those that go to it,
/// behind the backlinks it has.
pub proof fn lemma_with_backlinks_received(
    site: Seq<DirectoryView>,
    backlinks: Seq<(DocRef, Seq<PartView>)>,
    at: DocRef,
)
    requires
        deliverable(site, backlinks),
        has_doc(site, at),
    ensures
        doc_at(with_backlinks(site, backlinks), at).backlinks == doc_at(site, at).backlinks
            + sent_to(backlinks, at),
    decreases backlinks.len(),
{
    if backlinks.len() == 0 {
        assert(doc_at(site, at).backlinks + Seq::<Seq<PartView>>::empty() =~= doc_at(
            site,
            at,
        ).backlinks);
    } else {
        let front = backlinks.drop_last();
        let last = backlinks.last();
        assert(deliverable(site, front)) by {
            assert forall|k: int| 0 <= k < front.len() implies has_doc(
                site,
                (#[trigger] front[k]).0,
            ) by {
                assert(front[k] == backlinks[k]);
            }
        }
        assert(has_doc(site, backlinks[backlinks.len() - 1].0));
        lemma_with_backlinks_received(site, front, at);
        lemma_with_backlinks_received(site, front, last.0);
        lemma_with_backlinks_content(site, front, at);
        lemma_with_backlinks_content(site, front, last.0);
        let middle = with_backlinks(site, front);
        lemma_doc_after_with_doc(
            middle,
            last.0,
            file_with_backlink(doc_at(middle, last.0), last.1),
            at,
        );
        if last.0 == at {
            assert((doc_at(site, at).backlinks + sent_to(front, at)).push(last.1) =~= doc_at(
                site,
                at,
            ).backlinks + sent_to(front, at).push(last.1));
        }
    }
}

/// Rendering a document gives each document of the site the backlinks that
/// the rendered document leaves for it, behind the backlinks it has.
pub proof fn lemma_after_render_received(site: Seq<DirectoryView>, doc: DocRef, at: DocRef)
    requires
        bounded(site),
        has_doc(site, doc),
        has_doc(site, at),
    ensures
        doc_at(after_render(site, doc), at).backlinks == doc_at(site, at).backlinks + sent_to(
            doc_outcome(site, doc).backlinks,
            at,
        ),
{
    let file = doc_at(site, doc);
    let markup = file.content->0->Quark_0;
    let outcome = doc_outcome(site, doc);
    let taken = with_content(site, doc, None);
    lemma_with_doc_same_paths(site, doc, file_with_content(file, None));
    lemma_tokens_same_paths(site, taken, file.paths.relpath, markup.references, markup.tokens);
    assert(deliverable(taken, outcome.backlinks)) by {
        assert forall|k: int| 0 <= k < outcome.backlinks.len() implies has_doc(
            taken,
            (#[trigger] outcome.backlinks[k]).0,
        ) by {
            lemma_same_paths_docs(taken, site, outcome.backlinks[k].0);
        }
    }
    lemma_same_paths_docs(taken, site, at);
    lemma_same_paths_docs(taken, site, doc);
    lemma_doc_after_with_doc(site, doc, file_with_content(file, None), at);
    let linked = with_backlinks(taken, outcome.backlinks);
    lemma_with_backlinks_received(taken, outcome.backlinks, at);
    lemma_with_backlinks_content(taken, outcome.backlinks, at);
    lemma_with_backlinks_content(taken, outcome.backlinks, doc);
    lemma_after_render(site, doc, doc);
    lemma_doc_after_with_doc(
        linked,
        doc,
        file_with_content(
            doc_at(linked, doc),
            rendered_content(file.content, outcome),
        ),
        at,
    );
}

/// The backlinks of the document at `at` after the first `count` plain
/// documents of a directory have been rendered, where it had `before`.
pub open spec fn members_received(
    start: Seq<DirectoryView>,
    before: Seq<Seq<PartView>>,
    dir: usize,
    count: nat,
    at: DocRef,
) -> Seq<Seq<PartView>>
    decreases count,
{
    if count == 0 {
        before
    } else {
        members_received(start, before, dir, (count - 1) as nat, at) + sent_to(
            doc_outcome(start, DocRef { dir, slot: Slot::Member((count - 1) as usize) }).backlinks,
            at,
        )
    }
}

/// The backlinks of the document at `at` after a directory has been
/// rendered, where it had `before`.
pub open spec fn dir_received(
    start: Seq<DirectoryView>,
    before: Seq<Seq<PartView>>,
    dir: usize,
    at: DocRef,
) -> Seq<Seq<PartView>> {
    let members = members_received(start, before, dir, start[dir as int].files.len(), at);
    if start[dir as int].dirfile is Some {
        members + sent_to(doc_outcome(start, DocRef { dir, slot: Slot::Dirfile }).backlinks, at)
    } else {
        members
    }
}

/// The backlinks of the document at `at` after the first `count`
/// directories of a site have been rendered: those it had, and behind them,
/// in the order of rendering, the backlinks that each document leaves for it
/// when it is rendered in the site as it was at the start.
pub open spec fn site_received(start: Seq<DirectoryView>, count: nat, at: DocRef) -> Seq<
    Seq<PartView>,
>
    decreases count,
{
    if count == 0 {
        doc_at(start, at).backlinks
    } else {
        dir_received(start, site_received(start, (count - 1) as nat, at), (count - 1) as usize, at)
    }
}

proof fn lemma_step_received(
    start: Seq<DirectoryView>,
    run: Run,
    doc: DocRef,
    dir: usize,
    done: usize,
    at: DocRef,
)
    requires
        bounded(start),
        has_doc(start, doc),
        has_doc(start, at),
        waiting(doc, dir, done),
        untouched(start, run.site, dir, done),
        render_step(run, doc).error is None,
    ensures
        doc_at(render_step(run, doc).site, at).backlinks == doc_at(run.site, at).backlinks
            + sent_to(doc_outcome(start, doc).backlinks, at),
{
    lemma_same_paths_bounded(run.site, start);
    lemma_same_paths_docs(run.site, start, doc);
    lemma_same_paths_docs(run.site, start, at);
    lemma_outcome_untouched(start, run.site, doc);
    lemma_after_render_received(run.site, doc, at);
}

proof fn lemma_members_received(
    start: Seq<DirectoryView>,
    run: Run,
    dir: usize,
    count: nat,
    at: DocRef,
)
    requires
        bounded(start),
        dir < start.len(),
        count <= start[dir as int].files.len(),
        has_doc(start, at),
        untouched(start, run.site, dir, 0),
        render_members(run, dir, count).error is None,
    ensures
        doc_at(render_members(run, dir, count).site, at).backlinks == members_received(
            start,
            doc_at(run.site, at).backlinks,
            dir,
            count,
            at,
        ),
    decreases count,
{
    if count > 0 {
        let doc = DocRef { dir, slot: Slot::Member((count - 1) as usize) };
        lemma_members_received(start, run, dir, (count - 1) as nat, at);
        lemma_members_untouched(start, run, dir, (count - 1) as nat);
        lemma_step_received(
            start,
            render_members(run, dir, (count - 1) as nat),
            doc,
            dir,
            (count - 1) as usize,
            at,
        );
    }
}

proof fn lemma_dirs_received(start: Seq<DirectoryView>, count: nat, at: DocRef)
    requires
        bounded(start),
        count <= start.len(),
        has_doc(start, at),
        render_dirs(Run { site: start, diagnostics: Seq::empty(), error: None }, count).error
            is None,
    ensures
        doc_at(
            render_dirs(Run { site: start, diagnostics: Seq::empty(), error: None }, count).site,
            at,
        ).backlinks == site_received(start, count, at),
    decreases count,
{
    let first = Run { site: start, diagnostics: Seq::empty(), error: None };
    if count > 0 {
        let dir = (count - 1) as usize;
        let before = render_dirs(first, (count - 1) as nat);
        let files = start[dir as int].files.len();
        lemma_dirs_untouched(start, (count - 1) as nat);
        assert(before.site[dir as int].files.len() == files);
        let members = render_members(before, dir, files);
        if before.error is Some {
            lemma_dir_stopped(before, dir);
        }
        lemma_dirs_received(start, (count - 1) as nat, at);
        lemma_members_untouched(start, before, dir, files);
        lemma_members_received(start, before, dir, files, at);
        let dirfile = DocRef { dir, slot: Slot::Dirfile };
        lemma_same_paths_docs(before.site, start, dirfile);
        if start[dir as int].dirfile is Some {
            lemma_step_received(start, members, dirfile, dir, files as usize, at);
        }
    }
}

/// After a whole site has been rendered, each document has the backlinks it
/// had, and behind them, in the order of rendering, what every document left
/// for it: one backlink for each reference that names it, whether the
/// document with the reference was rendered before it or after it.
pub proof fn lemma_site_received(site: Seq<DirectoryView>, at: DocRef)
    requires
        bounded(site),
        has_doc(site, at),
        render_site(site).error is None,
    ensures
        doc_at(render_site(site).site, at).backlinks == site_received(site, site.len(), at),
{
    lemma_dirs_received(site, site.len(), at);
}

/// Whether every document that a run has come to holds its page: the page
/// that the document comes to when it is rendered alone in the site as it
/// was at the start.
pub open spec fn settled(
    start: Seq<DirectoryView>,
    site: Seq<DirectoryView>,
    dir: usize,
    done: usize,
) -> bool {
    forall|at: DocRef|
        has_doc(start, at) && !waiting(at, dir, done) ==> (#[trigger] doc_at(site, at)).content
            == Some(ContentView::IncompleteHtml(doc_outcome(start, at).html))
}

proof fn lemma_step_settled(
    start: Seq<DirectoryView>,
    run: Run,
    doc: DocRef,
    dir: usize,
    done: usize,
    next_dir: usize,
    next_done: usize,
)
    requires
        bounded(start),
        has_doc(start, doc),
        waiting(doc, dir, done),
        untouched(start, run.site, dir, done),
        settled(start, run.site, dir, done),
        render_step(run, doc).error is None,
        forall|at: DocRef|
            has_doc(start, at) && !waiting(at, next_dir, next_done) ==> at == doc || !waiting(
                at,
                dir,
                done,
            ),
    ensures
        settled(start, render_step(run, doc).site, next_dir, next_done),
{
    let site = run.site;
    let after = after_render(site, doc);
    lemma_same_paths_bounded(site, start);
    lemma_same_paths_docs(site, start, doc);
    lemma_outcome_untouched(start, site, doc);
    assert forall|at: DocRef| has_doc(start, at) && !waiting(at, next_dir, next_done) implies (
    #[trigger] doc_at(after, at)).content == Some(
        ContentView::IncompleteHtml(doc_outcome(start, at).html),
    ) by {
        lemma_same_paths_docs(site, start, at);
        lemma_after_render(site, doc, at);
        if at != doc {
            assert(doc_at(site, at).content == Some(
                ContentView::IncompleteHtml(doc_outcome(start, at).html),
            ));
        }
    }
}

proof fn lemma_members_settled(start: Seq<DirectoryView>, run: Run, dir: usize, count: nat)
    requires
        bounded(start),
        dir < start.len(),
        count <= start[dir as int].files.len(),
        untouched(start, run.site, dir, 0),
        settled(start, run.site, dir, 0),
        render_members(run, dir, count).error is None,
    ensures
        settled(start, render_members(run, dir, count).site, dir, count as usize),
    decreases count,
{
    if count > 0 {
        let doc = DocRef { dir, slot: Slot::Member((count - 1) as usize) };
        let most = render_members(run, dir, (count - 1) as nat);
        assert(render_members(run, dir, count) == render_step(most, doc));
        assert(most.error is None);
        lemma_members_settled(start, run, dir, (count - 1) as nat);
        lemma_members_untouched(start, run, dir, (count - 1) as nat);
        assert(has_doc(start, doc));
        assert(waiting(doc, dir, (count - 1) as usize));
        assert forall|at: DocRef|
            has_doc(start, at) && !waiting(at, dir, count as usize) implies at == doc || !waiting(
            at,
            dir,
            (count - 1) as usize,
        ) by {
            if at.dir == dir {
                match at.slot {
                    Slot::Member(i) => {
                        assert(i < count);
                    },
                    Slot::Dirfile => {},
                }
            }
        }
        lemma_step_settled(
            start,
            render_members(run, dir, (count - 1) as nat),
            doc,
            dir,
            (count - 1) as usize,
            dir,
            count as usize,
        );
    }
}

proof fn lemma_dirs_settled(start: Seq<DirectoryView>, count: nat)
    requires
        bounded(start),
        count <= start.len(),
        render_dirs(Run { site: start, diagnostics: Seq::empty(), error: None }, count).error
            is None,
    ensures
        settled(
            start,
            render_dirs(
                Run { site: start, diagnostics: Seq::empty(), error: None },
                count,
            ).site,
            count as usize,
            0,
        ),
    decreases count,
{
    let first = Run { site: start, diagnostics: Seq::empty(), error: None };
    if count > 0 {
        let dir = (count - 1) as usize;
        let before = render_dirs(first, (count - 1) as nat);
        let files = start[dir as int].files.len();
        lemma_dirs_untouched(start, (count - 1) as nat);
        assert(before.site[dir as int].files.len() == files);
        let members = render_members(before, dir, files);
        if before.error is Some {
            lemma_dir_stopped(before, dir);
        }
        lemma_dirs_settled(start, (count - 1) as nat);
        lemma_members_untouched(start, before, dir, files);
        lemma_members_settled(start, before, dir, files);
        let dirfile = DocRef { dir, slot: Slot::Dirfile };
        lemma_same_paths_docs(before.site, start, dirfile);
        if start[dir as int].dirfile is Some {
            lemma_step_settled(start, members, dirfile, dir, files as usize, count as usize, 0);
        } else {
            assert forall|at: DocRef|
                has_doc(start, at) && !waiting(at, count as usize, 0) implies !waiting(
                at,
                dir,
                files as usize,
            ) by {}
        }
    }
}

/// After a whole site has been rendered, each document holds the page that
/// it comes to when it is rendered alone in the site as it was at the start:
/// the order of rendering and the backlinks that were left on the way change
/// no page.
pub proof fn lemma_site_pages(site: Seq<DirectoryView>, at: DocRef)
    requires
        bounded(site),
        has_doc(site, at),
        render_site(site).error is None,
    ensures
        doc_at(render_site(site).site, at).content == Some(
            ContentView::IncompleteHtml(doc_outcome(site, at).html),
        ),
{
    lemma_dirs_settled(site, site.len());
}

} // verus!
