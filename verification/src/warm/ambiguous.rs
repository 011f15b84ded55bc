//! Which reference stops a build.

use crate::error::SiteErrorView;
use crate::markup::{InlineView, LinkView, TokenView};
use crate::path::path_components;
use crate::text::trimmed;
use crate::warm::document::{doc_outcome, is_parsed, render_site};
use crate::warm::interlink::{inner_of, lemma_inlines_push, tidy};
use crate::warm::render::{
    inlines_outcome, lemma_inlines_failed, lemma_tokens_failed, tokens_outcome,
};
use crate::warm::site::{doc_at, has_doc, site_matches, DocRef};
use crate::warm::state::bounded;
use crate::warm::tree::DirectoryView;
use crate::warm::whole::{
    comes_before, fails_alone, lemma_first_failure, lemma_inlines_calm, lemma_tokens_calm,
    unambiguous,
};
use vstd::prelude::*;

verus! {

/// In a tidy site a run of inline pieces fails at the first reference that
/// names several documents, and the failure names the location of that
/// reference.
pub proof fn lemma_first_ambiguous(
    site: Seq<DirectoryView>,
    doc: DocRef,
    references: Map<Seq<char>, Seq<char>>,
    inlines: Seq<InlineView>,
    piece: int,
    link: LinkView,
)
    requires
        bounded(site),
        tidy(site),
        has_doc(site, doc),
        0 <= piece < inlines.len(),
        inlines[piece] == InlineView::Interlink(link),
        site_matches(site, path_components(trimmed(link.location))).len() >= 2,
        forall|k: int|
            0 <= k < piece ==> (#[trigger] inlines[k] matches InlineView::Interlink(other)
                ==> site_matches(site, path_components(trimmed(other.location))).len() <= 1),
    ensures
        inlines_outcome(site, doc_at(site, doc).paths.relpath, references, inlines).error == Some(
            SiteErrorView::LinkAmbiguity { reference: trimmed(link.location) },
        ),
{
    let current = doc_at(site, doc).paths.relpath;
    let front = inlines.take(piece);
    assert forall|k: int| 0 <= k < front.len() implies (
    #[trigger] front[k] matches InlineView::Interlink(other) ==> site_matches(
        site,
        path_components(trimmed(other.location)),
    ).len() <= 1) by {
        assert(front[k] == inlines[k]);
    }
    lemma_inlines_calm(site, doc, references, front);
    lemma_inlines_push(site, current, references, front, inlines[piece]);
    assert(inlines.take(piece + 1) =~= front.push(inlines[piece]));
    lemma_inlines_failed(site, current, references, inlines, piece + 1);
}

/// In a tidy site a document fails at the first reference, in reading
/// order, that names several documents, and the failure names the location
/// of that reference.
pub proof fn lemma_first_ambiguous_block(
    site: Seq<DirectoryView>,
    doc: DocRef,
    references: Map<Seq<char>, Seq<char>>,
    tokens: Seq<TokenView>,
    block: int,
    piece: int,
    link: LinkView,
)
    requires
        bounded(site),
        tidy(site),
        has_doc(site, doc),
        0 <= block < tokens.len(),
        0 <= piece < inner_of(tokens[block]).len(),
        inner_of(tokens[block])[piece] == InlineView::Interlink(link),
        site_matches(site, path_components(trimmed(link.location))).len() >= 2,
        unambiguous(site, tokens.take(block)),
        forall|k: int|
            0 <= k < piece ==> (#[trigger] inner_of(tokens[block])[k] matches InlineView::Interlink(
                other,
            ) ==> site_matches(site, path_components(trimmed(other.location))).len() <= 1),
    ensures
        tokens_outcome(site, doc_at(site, doc).paths.relpath, references, tokens).error == Some(
            SiteErrorView::LinkAmbiguity { reference: trimmed(link.location) },
        ),
{
    let current = doc_at(site, doc).paths.relpath;
    lemma_tokens_calm(site, doc, references, tokens.take(block));
    lemma_first_ambiguous(site, doc, references, inner_of(tokens[block]), piece, link);
    assert(tokens.take(block + 1).drop_last() =~= tokens.take(block));
    assert(tokens.take(block + 1).last() == tokens[block]);
    lemma_tokens_failed(site, current, references, tokens, block + 1);
}

/// In a tidy site the build fails at the first reference that names several
/// documents, and the failure names the location of that reference. The
/// first such reference is the first, in reading order, of the first
/// document, in the order of rendering, that holds one.
pub proof fn lemma_first_ambiguous_site(
    site: Seq<DirectoryView>,
    doc: DocRef,
    block: int,
    piece: int,
    link: LinkView,
)
    requires
        bounded(site),
        tidy(site),
        is_parsed(site, doc),
        0 <= block < doc_at(site, doc).content->0->Quark_0.tokens.len(),
        0 <= piece < inner_of(doc_at(site, doc).content->0->Quark_0.tokens[block]).len(),
        inner_of(doc_at(site, doc).content->0->Quark_0.tokens[block])[piece]
            == InlineView::Interlink(link),
        site_matches(site, path_components(trimmed(link.location))).len() >= 2,
        unambiguous(site, doc_at(site, doc).content->0->Quark_0.tokens.take(block)),
        forall|k: int|
            0 <= k < piece ==> (#[trigger] inner_of(
                doc_at(site, doc).content->0->Quark_0.tokens[block],
            )[k] matches InlineView::Interlink(other) ==> site_matches(
                site,
                path_components(trimmed(other.location)),
            ).len() <= 1),
        forall|at: DocRef|
            has_doc(site, at) && comes_before(at, doc) ==> unambiguous(
                site,
                (#[trigger] doc_at(site, at)).content->0->Quark_0.tokens,
            ),
    ensures
        render_site(site).error == Some(
            SiteErrorView::LinkAmbiguity { reference: trimmed(link.location) },
        ),
{
    let markup = doc_at(site, doc).content->0->Quark_0;
    lemma_first_ambiguous_block(site, doc, markup.references, markup.tokens, block, piece, link);
    assert(doc_outcome(site, doc).error == Some(
        SiteErrorView::LinkAmbiguity { reference: trimmed(link.location) },
    ));
    assert forall|at: DocRef| has_doc(site, at) && comes_before(at, doc) implies !fails_alone(
        site,
        at,
    ) by {
        let other = doc_at(site, at).content->0->Quark_0;
        lemma_tokens_calm(site, at, other.references, other.tokens);
    }
    lemma_first_failure(site, doc);
}

} // verus!
