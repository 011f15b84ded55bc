//! What holds of references between documents.

use crate::error::SiteErrorView;
use crate::markup::{InlineView, LinkView, TokenView};
use crate::path::{path_components, PartView};
use crate::text::{anchor, trimmed};
use crate::warm::document::{after_render, doc_outcome, is_parsed, lemma_after_render};
use crate::warm::relative::{is_rootless, lemma_relative_exists, relative_spec};
use crate::warm::render::{
    after_inline, inline_effect, inlines_outcome, lemma_inlines_failed, lemma_tokens_failed,
    path_text, shown_name, token_outcome, tokens_outcome, with_effect, DiagnosticView, Effect,
};
use crate::warm::site::{doc_at, has_doc, lemma_site_matches, site_matches, DocRef};
use crate::warm::state::{bounded, file_with_backlink, lemma_doc_after_with_doc};
use crate::warm::tree::DirectoryView;
use vstd::prelude::*;

verus! {

/// A reference that names no document does not stop the build: it is shown as
/// it was written, between braces, it leaves no backlink, and notice is given
/// of it.
pub proof fn lemma_unresolved_interlink(
    site: Seq<DirectoryView>,
    current: Seq<PartView>,
    references: Map<Seq<char>, Seq<char>>,
    link: LinkView,
)
    requires
        site_matches(site, path_components(trimmed(link.location))).len() == 0,
    ensures
        inline_effect(site, current, references, InlineView::Interlink(link)) == Ok::<
            Effect,
            SiteErrorView,
        >(
            Effect {
                html: "{"@ + link.raw + "}"@,
                backlink: None,
                diagnostic: Some(
                    DiagnosticView::UnresolvedInterlink { location: trimmed(link.location) },
                ),
            },
        ),
{
}

/// A reference that names more than one document fails, and the failure
/// names the reference.
pub proof fn lemma_ambiguous_interlink(
    site: Seq<DirectoryView>,
    current: Seq<PartView>,
    references: Map<Seq<char>, Seq<char>>,
    link: LinkView,
)
    requires
        site_matches(site, path_components(trimmed(link.location))).len() >= 2,
    ensures
        inline_effect(site, current, references, InlineView::Interlink(link)) == Err::<
            Effect,
            SiteErrorView,
        >(SiteErrorView::LinkAmbiguity { reference: trimmed(link.location) }),
{
}

/// A reference that names exactly one document becomes an anchor to it, and
/// that document, and no other, gets one more backlink: the path from it back
/// to the document in which the reference stands.
pub proof fn lemma_resolved_interlink(
    site: Seq<DirectoryView>,
    current: Seq<PartView>,
    references: Map<Seq<char>, Seq<char>>,
    link: LinkView,
    other: DocRef,
)
    requires
        bounded(site),
        site_matches(site, path_components(trimmed(link.location))).len() == 1,
        has_doc(site, other),
    ensures
        ({
            let target = site_matches(site, path_components(trimmed(link.location)))[0];
            let there = relative_spec(current, doc_at(site, target).paths.relpath);
            let back = relative_spec(doc_at(site, target).paths.relpath, current);
            let effect = inline_effect(site, current, references, InlineView::Interlink(link));
            &&& has_doc(site, target)
            &&& effect is Ok <==> there is Ok && back is Ok
            &&& effect matches Ok(e) ==> {
                &&& e.html == anchor(
                    path_text(there->Ok_0),
                    shown_name(link, trimmed(link.location)),
                )
                &&& e.backlink == Some((target, back->Ok_0))
                &&& e.diagnostic is None
                &&& doc_at(with_effect(site, e), target).backlinks == doc_at(
                    site,
                    target,
                ).backlinks.push(back->Ok_0)
                &&& other != target ==> doc_at(with_effect(site, e), other) == doc_at(site, other)
            }
        }),
{
    let reference = path_components(trimmed(link.location));
    lemma_site_matches(site, reference, 0);
    let target = site_matches(site, reference)[0];
    let effect = inline_effect(site, current, references, InlineView::Interlink(link));
    if effect is Ok {
        let back = relative_spec(doc_at(site, target).paths.relpath, current)->Ok_0;
        lemma_doc_after_with_doc(
            site,
            target,
            file_with_backlink(doc_at(site, target), back),
            target,
        );
        lemma_doc_after_with_doc(
            site,
            target,
            file_with_backlink(doc_at(site, target), back),
            other,
        );
    }
}

/// The outcome of a run of inline pieces with one more piece behind it.
pub proof fn lemma_inlines_push(
    site: Seq<DirectoryView>,
    current: Seq<PartView>,
    references: Map<Seq<char>, Seq<char>>,
    front: Seq<InlineView>,
    next: InlineView,
)
    ensures
        inlines_outcome(site, current, references, front.push(next)) == after_inline(
            inlines_outcome(site, current, references, front),
            inline_effect(site, current, references, next),
        ),
{
    assert(front.push(next).drop_last() =~= front);
}

/// A run of inline pieces in which one piece fails, fails.
pub proof fn lemma_inlines_stop(
    site: Seq<DirectoryView>,
    current: Seq<PartView>,
    references: Map<Seq<char>, Seq<char>>,
    inlines: Seq<InlineView>,
    at: int,
)
    requires
        0 <= at < inlines.len(),
        inline_effect(site, current, references, inlines[at]) is Err,
    ensures
        inlines_outcome(site, current, references, inlines).error is Some,
{
    lemma_inlines_failed(site, current, references, inlines, at + 1);
}

/// A document in which one block fails, fails.
pub proof fn lemma_tokens_stop(
    site: Seq<DirectoryView>,
    current: Seq<PartView>,
    references: Map<Seq<char>, Seq<char>>,
    tokens: Seq<TokenView>,
    at: int,
)
    requires
        0 <= at < tokens.len(),
        token_outcome(site, current, references, tokens[at]).error is Some,
    ensures
        tokens_outcome(site, current, references, tokens).error is Some,
{
    lemma_tokens_failed(site, current, references, tokens, at + 1);
}

/// The inline pieces of a block.
pub open spec fn inner_of(token: TokenView) -> Seq<InlineView> {
    match token {
        TokenView::Header { level, inner } => inner,
        TokenView::Paragraph { inner } => inner,
        TokenView::CodeBlock { lang, code } => Seq::empty(),
    }
}

/// Whether a site is one in which a relative path between any two documents
/// can be computed: no document has a path that holds a root or a prefix.
pub open spec fn tidy(site: Seq<DirectoryView>) -> bool {
    forall|doc: DocRef|
        has_doc(site, doc) ==> is_rootless((#[trigger] doc_at(site, doc)).paths.relpath)
}

/// In a tidy site nothing but a reference that names several documents makes
/// an inline piece fail.
pub proof fn lemma_tidy_inline(
    site: Seq<DirectoryView>,
    doc: DocRef,
    references: Map<Seq<char>, Seq<char>>,
    inline: InlineView,
)
    requires
        bounded(site),
        tidy(site),
        has_doc(site, doc),
    ensures
        inline_effect(site, doc_at(site, doc).paths.relpath, references, inline) matches Err(
            error,
        ) ==> error is LinkAmbiguity,
{
    match inline {
        InlineView::Interlink(link) => {
            let reference = path_components(trimmed(link.location));
            let found = site_matches(site, reference);
            if found.len() == 1 {
                lemma_site_matches(site, reference, 0);
                let current = doc_at(site, doc).paths.relpath;
                let target = doc_at(site, found[0]).paths.relpath;
                lemma_relative_exists(current, target);
                lemma_relative_exists(target, current);
            }
        },
        _ => {},
    }
}

/// In a tidy site a run of inline pieces fails for no other reason than a
/// reference that names several documents.
pub proof fn lemma_tidy_inlines(
    site: Seq<DirectoryView>,
    doc: DocRef,
    references: Map<Seq<char>, Seq<char>>,
    inlines: Seq<InlineView>,
)
    requires
        bounded(site),
        tidy(site),
        has_doc(site, doc),
    ensures
        inlines_outcome(site, doc_at(site, doc).paths.relpath, references, inlines).error matches Some(
            error,
        ) ==> error is LinkAmbiguity,
    decreases inlines.len(),
{
    if inlines.len() > 0 {
        lemma_tidy_inlines(site, doc, references, inlines.drop_last());
        lemma_tidy_inline(site, doc, references, inlines.last());
    }
}

/// In a tidy site a document fails for no other reason than a reference that
/// names several documents.
pub proof fn lemma_tidy_tokens(
    site: Seq<DirectoryView>,
    doc: DocRef,
    references: Map<Seq<char>, Seq<char>>,
    tokens: Seq<TokenView>,
)
    requires
        bounded(site),
        tidy(site),
        has_doc(site, doc),
    ensures
        tokens_outcome(site, doc_at(site, doc).paths.relpath, references, tokens).error matches Some(
            error,
        ) ==> error is LinkAmbiguity,
    decreases tokens.len(),
{
    if tokens.len() > 0 {
        lemma_tidy_tokens(site, doc, references, tokens.drop_last());
        lemma_tidy_inlines(site, doc, references, inner_of(tokens.last()));
    }
}

/// A document that holds a reference which names several documents is not
/// rendered: rendering it fails, and it holds afterwards what its parser
/// made of it, as before. In a tidy
/// site the failure is that of an ambiguous reference.
pub proof fn lemma_ambiguous_document(
    site: Seq<DirectoryView>,
    doc: DocRef,
    block: int,
    piece: int,
    link: LinkView,
)
    requires
        bounded(site),
        is_parsed(site, doc),
        0 <= block < doc_at(site, doc).content->0->Quark_0.tokens.len(),
        0 <= piece < inner_of(doc_at(site, doc).content->0->Quark_0.tokens[block]).len(),
        inner_of(doc_at(site, doc).content->0->Quark_0.tokens[block])[piece]
            == InlineView::Interlink(link),
        site_matches(site, path_components(trimmed(link.location))).len() >= 2,
    ensures
        doc_outcome(site, doc).error is Some,
        doc_at(after_render(site, doc), doc).content == doc_at(site, doc).content,
        tidy(site) ==> doc_outcome(site, doc).error->0 is LinkAmbiguity,
{
    let file = doc_at(site, doc);
    let markup = file.content->0->Quark_0;
    let current = file.paths.relpath;
    let token = markup.tokens[block];
    lemma_ambiguous_interlink(site, current, markup.references, link);
    lemma_inlines_stop(site, current, markup.references, inner_of(token), piece);
    lemma_tokens_stop(site, current, markup.references, markup.tokens, block);
    lemma_after_render(site, doc, doc);
    if tidy(site) {
        lemma_tidy_tokens(site, doc, markup.references, markup.tokens);
    }
}

} // verus!
