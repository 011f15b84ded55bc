//! A reference that names no document changes nothing around it.

use crate::markup::{InlineView, LinkView, MarkupView, TokenView};
use crate::path::{path_components, PartView};
use crate::text::{trimmed, wrapped};
use crate::warm::document::{doc_outcome, is_parsed, render_site};
use crate::warm::interlink::{inner_of, lemma_inlines_push};
use crate::warm::render::{
    after_inline, after_token, inline_effect, inlines_outcome, lemma_tokens_same_paths,
    token_outcome, tokens_outcome, DiagnosticView, Outcome,
};
use crate::warm::site::{doc_at, has_doc, site_matches, DocRef, Slot};
use crate::warm::state::{
    bounded, file_with_content, lemma_doc_after_with_doc, lemma_with_doc_same_paths, same_paths,
    with_content,
};
use crate::warm::tree::{ContentView, DirectoryView};
use crate::warm::whole::{
    dir_received, fails_alone, lemma_site_pages, lemma_site_received, lemma_site_renders,
    lemma_site_stops, members_received, site_received,
};
use vstd::prelude::*;

verus! {

/// A run of inline pieces comes to what its front comes to, followed by what
/// the rest comes to: every piece is rendered for itself.
pub proof fn lemma_inlines_concat(
    site: Seq<DirectoryView>,
    current: Seq<PartView>,
    references: Map<Seq<char>, Seq<char>>,
    front: Seq<InlineView>,
    back: Seq<InlineView>,
)
    ensures
        inlines_outcome(site, current, references, front + back) == after_token(
            inlines_outcome(site, current, references, front),
            inlines_outcome(site, current, references, back),
        ),
    decreases back.len(),
{
    let first = inlines_outcome(site, current, references, front);
    let second = inlines_outcome(site, current, references, back);
    let joined = after_token(first, second);
    if back.len() == 0 {
        assert(front + back =~= front);
        assert(joined.html =~= first.html);
        assert(joined.backlinks =~= first.backlinks);
        assert(joined.diagnostics =~= first.diagnostics);
    } else {
        let most = back.drop_last();
        assert((front + back).drop_last() =~= front + most);
        assert((front + back).last() == back.last());
        lemma_inlines_concat(site, current, references, front, most);
        let middle = inlines_outcome(site, current, references, most);
        let next = inline_effect(site, current, references, back.last());
        let whole = after_inline(after_token(first, middle), next);
        assert(whole.html =~= joined.html);
        assert(whole.backlinks =~= joined.backlinks);
        assert(whole.diagnostics =~= joined.diagnostics);
        assert(whole.error == joined.error);
    }
}

/// What a reference that names no document comes to: it is shown as it was
/// written, between braces, and notice is given of it.
pub open spec fn unresolved_outcome(link: LinkView) -> Outcome {
    Outcome {
        html: wrapped("{"@, link.raw, "}"@),
        backlinks: Seq::empty(),
        diagnostics: seq![DiagnosticView::UnresolvedInterlink { location: trimmed(link.location) }],
        error: None,
    }
}

/// A reference that names no document changes nothing around it. The pieces
/// before it and behind it come to what they come to without it: the run
/// fails or not as it does without the reference, and leaves the same
/// backlinks. The reference adds its own text to the page, and its notice.
pub proof fn lemma_unresolved_absent(
    site: Seq<DirectoryView>,
    current: Seq<PartView>,
    references: Map<Seq<char>, Seq<char>>,
    inlines: Seq<InlineView>,
    piece: int,
    link: LinkView,
)
    requires
        0 <= piece < inlines.len(),
        inlines[piece] == InlineView::Interlink(link),
        site_matches(site, path_components(trimmed(link.location))).len() == 0,
    ensures
        ({
            let with = inlines_outcome(site, current, references, inlines);
            let without = inlines_outcome(site, current, references, inlines.remove(piece));
            let before = inlines_outcome(site, current, references, inlines.take(piece));
            let behind = inlines_outcome(site, current, references, inlines.skip(piece + 1));
            &&& without == after_token(before, behind)
            &&& with == after_token(after_token(before, unresolved_outcome(link)), behind)
            &&& with.error == without.error
            &&& with.backlinks == without.backlinks
        }),
{
    let front = inlines.take(piece);
    let back = inlines.skip(piece + 1);
    let before = inlines_outcome(site, current, references, front);
    assert(inlines.remove(piece) =~= front + back);
    assert(inlines =~= front.push(inlines[piece]) + back);
    lemma_inlines_concat(site, current, references, front, back);
    lemma_inlines_concat(site, current, references, front.push(inlines[piece]), back);
    lemma_inlines_push(site, current, references, front, inlines[piece]);
    let one = after_inline(before, inline_effect(site, current, references, inlines[piece]));
    let other = after_token(before, unresolved_outcome(link));
    assert(one.html =~= other.html);
    assert(one.backlinks =~= other.backlinks);
    assert(one.diagnostics =~= other.diagnostics);
    assert(one.error == other.error);
    let with = after_token(other, inlines_outcome(site, current, references, back));
    let without = after_token(before, inlines_outcome(site, current, references, back));
    assert(with.backlinks =~= without.backlinks);
}

/// A block without one of its inline pieces.
pub open spec fn token_without(token: TokenView, piece: int) -> TokenView {
    match token {
        TokenView::Header { level, inner } => TokenView::Header {
            level,
            inner: inner.remove(piece),
        },
        TokenView::Paragraph { inner } => TokenView::Paragraph { inner: inner.remove(piece) },
        TokenView::CodeBlock { lang, code } => token,
    }
}

/// The blocks of a document without one inline piece of one block.
pub open spec fn tokens_without(tokens: Seq<TokenView>, block: int, piece: int) -> Seq<TokenView> {
    tokens.update(block, token_without(tokens[block], piece))
}

/// Blocks that fail alike and leave the same backlinks, one by one, make
/// documents that fail alike and leave the same backlinks.
proof fn lemma_tokens_alike(
    site: Seq<DirectoryView>,
    current: Seq<PartView>,
    references: Map<Seq<char>, Seq<char>>,
    a: Seq<TokenView>,
    b: Seq<TokenView>,
)
    requires
        a.len() == b.len(),
        forall|k: int|
            0 <= k < a.len() ==> {
                &&& (#[trigger] token_outcome(site, current, references, a[k])).error
                    == token_outcome(site, current, references, b[k]).error
                &&& token_outcome(site, current, references, a[k]).backlinks == token_outcome(
                    site,
                    current,
                    references,
                    b[k],
                ).backlinks
            },
    ensures
        tokens_outcome(site, current, references, a).error == tokens_outcome(
            site,
            current,
            references,
            b,
        ).error,
        tokens_outcome(site, current, references, a).backlinks == tokens_outcome(
            site,
            current,
            references,
            b,
        ).backlinks,
    decreases a.len(),
{
    if a.len() > 0 {
        let last = a.len() - 1;
        assert forall|k: int| 0 <= k < a.drop_last().len() implies {
            &&& (#[trigger] token_outcome(site, current, references, a.drop_last()[k])).error
                == token_outcome(site, current, references, b.drop_last()[k]).error
            &&& token_outcome(site, current, references, a.drop_last()[k]).backlinks
                == token_outcome(site, current, references, b.drop_last()[k]).backlinks
        } by {
            assert(a.drop_last()[k] == a[k]);
            assert(b.drop_last()[k] == b[k]);
        }
        lemma_tokens_alike(site, current, references, a.drop_last(), b.drop_last());
        assert(a.last() == a[last]);
        assert(b.last() == b[last]);
        assert(token_outcome(site, current, references, a[last]).error == token_outcome(
            site,
            current,
            references,
            b[last],
        ).error);
    }
}

/// A document with a reference that names no document fails or not as it
/// does without the reference, and leaves the same backlinks.
pub proof fn lemma_unresolved_document(
    site: Seq<DirectoryView>,
    current: Seq<PartView>,
    references: Map<Seq<char>, Seq<char>>,
    tokens: Seq<TokenView>,
    block: int,
    piece: int,
    link: LinkView,
)
    requires
        0 <= block < tokens.len(),
        0 <= piece < inner_of(tokens[block]).len(),
        inner_of(tokens[block])[piece] == InlineView::Interlink(link),
        site_matches(site, path_components(trimmed(link.location))).len() == 0,
    ensures
        tokens_outcome(site, current, references, tokens).error == tokens_outcome(
            site,
            current,
            references,
            tokens_without(tokens, block, piece),
        ).error,
        tokens_outcome(site, current, references, tokens).backlinks == tokens_outcome(
            site,
            current,
            references,
            tokens_without(tokens, block, piece),
        ).backlinks,
{
    let other = tokens_without(tokens, block, piece);
    lemma_unresolved_absent(site, current, references, inner_of(tokens[block]), piece, link);
    assert forall|k: int| 0 <= k < tokens.len() implies {
        &&& (#[trigger] token_outcome(site, current, references, tokens[k])).error
            == token_outcome(site, current, references, other[k]).error
        &&& token_outcome(site, current, references, tokens[k]).backlinks == token_outcome(
            site,
            current,
            references,
            other[k],
        ).backlinks
    } by {
        if k != block {
            assert(other[k] == tokens[k]);
        }
    }
    lemma_tokens_alike(site, current, references, tokens, other);
}

/// The site in which the document at `doc` lacks one inline piece of one of
/// its blocks.
pub open spec fn site_without(
    site: Seq<DirectoryView>,
    doc: DocRef,
    block: int,
    piece: int,
) -> Seq<DirectoryView> {
    let markup = doc_at(site, doc).content->0->Quark_0;
    with_content(
        site,
        doc,
        Some(
            ContentView::Quark(
                MarkupView { tokens: tokens_without(markup.tokens, block, piece), ..markup },
            ),
        ),
    )
}

proof fn lemma_members_alike(
    a: Seq<DirectoryView>,
    b: Seq<DirectoryView>,
    before: Seq<Seq<PartView>>,
    dir: usize,
    count: nat,
    at: DocRef,
)
    requires
        bounded(a),
        same_paths(a, b),
        dir < a.len(),
        count <= a[dir as int].files.len(),
        forall|d: DocRef|
            has_doc(a, d) ==> (#[trigger] doc_outcome(a, d)).backlinks == doc_outcome(
                b,
                d,
            ).backlinks,
    ensures
        members_received(a, before, dir, count, at) == members_received(b, before, dir, count, at),
    decreases count,
{
    if count > 0 {
        lemma_members_alike(a, b, before, dir, (count - 1) as nat, at);
        assert(has_doc(a, DocRef { dir, slot: Slot::Member((count - 1) as usize) }));
    }
}

proof fn lemma_received_alike(a: Seq<DirectoryView>, b: Seq<DirectoryView>, count: nat, at: DocRef)
    requires
        bounded(a),
        same_paths(a, b),
        count <= a.len(),
        doc_at(a, at).backlinks == doc_at(b, at).backlinks,
        forall|d: DocRef|
            has_doc(a, d) ==> (#[trigger] doc_outcome(a, d)).backlinks == doc_outcome(
                b,
                d,
            ).backlinks,
    ensures
        site_received(a, count, at) == site_received(b, count, at),
    decreases count,
{
    if count > 0 {
        let dir = (count - 1) as usize;
        lemma_received_alike(a, b, (count - 1) as nat, at);
        let before = site_received(a, (count - 1) as nat, at);
        lemma_members_alike(a, b, before, dir, a[dir as int].files.len(), at);
        if a[dir as int].dirfile is Some {
            assert(has_doc(a, DocRef { dir, slot: Slot::Dirfile }));
        }
        assert(dir_received(a, before, dir, at) == dir_received(b, before, dir, at));
    }
}

/// A site in which a document holds a reference that names no document is
/// built as it is without the reference. Every other document comes to
/// exactly what it comes to without it; the document with the reference
/// fails or not as without it and leaves the same backlinks; the build fails
/// or not as without it; and where it does not fail, every document has the
/// same backlinks afterwards, and every other document the same page.
pub proof fn lemma_unresolved_site(
    site: Seq<DirectoryView>,
    doc: DocRef,
    block: int,
    piece: int,
    link: LinkView,
    at: DocRef,
)
    requires
        bounded(site),
        is_parsed(site, doc),
        has_doc(site, at),
        0 <= block < doc_at(site, doc).content->0->Quark_0.tokens.len(),
        0 <= piece < inner_of(doc_at(site, doc).content->0->Quark_0.tokens[block]).len(),
        inner_of(doc_at(site, doc).content->0->Quark_0.tokens[block])[piece]
            == InlineView::Interlink(link),
        site_matches(site, path_components(trimmed(link.location))).len() == 0,
    ensures
        ({
            let other = site_without(site, doc, block, piece);
            &&& has_doc(other, at)
            &&& at != doc ==> doc_outcome(other, at) == doc_outcome(site, at)
            &&& doc_outcome(other, at).error == doc_outcome(site, at).error
            &&& doc_outcome(other, at).backlinks == doc_outcome(site, at).backlinks
            &&& render_site(other).error is None <==> render_site(site).error is None
            &&& render_site(site).error is None ==> doc_at(render_site(other).site, at).backlinks
                == doc_at(render_site(site).site, at).backlinks
            &&& render_site(site).error is None && at != doc ==> doc_at(
                render_site(other).site,
                at,
            ).content == doc_at(render_site(site).site, at).content
        }),
{
    let other = site_without(site, doc, block, piece);
    lemma_site_alike(site, doc, block, piece, link);
    assert(doc_outcome(site, at).backlinks == doc_outcome(other, at).backlinks);
    assert(bounded(other)) by {
        assert forall|d: int| 0 <= d < other.len() implies (#[trigger] other[d]).files.len()
            <= usize::MAX by {
            assert(other[d].files.len() == site[d].files.len());
        }
    }
    if exists|d: DocRef| has_doc(site, d) && fails_alone(site, d) {
        let d = choose|d: DocRef| has_doc(site, d) && fails_alone(site, d);
        assert(doc_outcome(site, d).backlinks == doc_outcome(other, d).backlinks);
        lemma_site_stops(site, d);
        lemma_site_stops(other, d);
    } else {
        assert forall|d: DocRef| has_doc(other, d) implies !fails_alone(other, d) by {
            assert(doc_outcome(site, d).backlinks == doc_outcome(other, d).backlinks);
        }
        lemma_site_renders(site);
        lemma_site_renders(other);
        lemma_site_received(site, at);
        lemma_site_received(other, at);
        lemma_received_alike(site, other, site.len(), at);
        lemma_site_pages(site, at);
        lemma_site_pages(other, at);
    }
}

/// In the site without the reference every document is where it was, with
/// the backlinks it had, and comes to what it came to; the document that
/// held the reference fails alike and leaves the same backlinks.
proof fn lemma_site_alike(
    site: Seq<DirectoryView>,
    doc: DocRef,
    block: int,
    piece: int,
    link: LinkView,
)
    requires
        bounded(site),
        is_parsed(site, doc),
        0 <= block < doc_at(site, doc).content->0->Quark_0.tokens.len(),
        0 <= piece < inner_of(doc_at(site, doc).content->0->Quark_0.tokens[block]).len(),
        inner_of(doc_at(site, doc).content->0->Quark_0.tokens[block])[piece]
            == InlineView::Interlink(link),
        site_matches(site, path_components(trimmed(link.location))).len() == 0,
    ensures
        same_paths(site, site_without(site, doc, block, piece)),
        forall|d: DocRef|
            has_doc(site, d) ==> {
                let other = site_without(site, doc, block, piece);
                &&& has_doc(other, d)
                &&& doc_at(other, d).backlinks == doc_at(site, d).backlinks
                &&& d != doc ==> doc_outcome(other, d) == doc_outcome(site, d)
                &&& doc_outcome(other, d).error == doc_outcome(site, d).error
                &&& (#[trigger] doc_outcome(site, d)).backlinks == doc_outcome(other, d).backlinks
            },
        forall|d: DocRef|
            has_doc(site_without(site, doc, block, piece), d) ==> has_doc(site, d),
{
    let other = site_without(site, doc, block, piece);
    let file = doc_at(site, doc);
    let markup = file.content->0->Quark_0;
    let less = MarkupView { tokens: tokens_without(markup.tokens, block, piece), ..markup };
    let changed = file_with_content(file, Some(ContentView::Quark(less)));
    lemma_with_doc_same_paths(site, doc, changed);
    assert forall|d: DocRef| has_doc(site, d) implies {
        &&& has_doc(other, d)
        &&& doc_at(other, d).backlinks == doc_at(site, d).backlinks
        &&& d != doc ==> doc_outcome(other, d) == doc_outcome(site, d)
        &&& doc_outcome(other, d).error == doc_outcome(site, d).error
        &&& (#[trigger] doc_outcome(site, d)).backlinks == doc_outcome(other, d).backlinks
    } by {
        lemma_doc_after_with_doc(site, doc, changed, d);
        let here = doc_at(other, d);
        let tokens = here.content->0->Quark_0.tokens;
        let references = here.content->0->Quark_0.references;
        lemma_tokens_same_paths(site, other, here.paths.relpath, references, tokens);
        if d == doc {
            lemma_unresolved_document(
                site,
                file.paths.relpath,
                markup.references,
                markup.tokens,
                block,
                piece,
                link,
            );
        }
    }
}

} // verus!
