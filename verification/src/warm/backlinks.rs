//! The backlinks that references leave, one for each occurrence.

use crate::markup::{InlineView, TokenView};
use crate::path::{path_components, PartView};
use crate::text::trimmed;
use crate::warm::interlink::{inner_of, tidy};
use crate::warm::relative::relative_spec;
use crate::warm::render::{
    inlines_outcome, lemma_inlines_same_paths, token_outcome, tokens_outcome,
};
use crate::warm::site::{doc_at, has_doc, site_matches, DocRef};
use crate::warm::state::{bounded, with_backlinks};
use crate::warm::tree::DirectoryView;
use crate::warm::whole::{lemma_inlines_calm, lemma_with_backlinks_received, sent_to};
use vstd::prelude::*;

verus! {

/// The backlink that an inline piece leaves in the document with the common
/// path `current`: a reference that names exactly one document leaves that
/// document the path from it back to `current`; nothing else leaves one.
pub open spec fn backlink_of(
    site: Seq<DirectoryView>,
    current: Seq<PartView>,
    inline: InlineView,
) -> Option<(DocRef, Seq<PartView>)> {
    match inline {
        InlineView::Interlink(link) => {
            let found = site_matches(site, path_components(trimmed(link.location)));
            let back = relative_spec(doc_at(site, found[0]).paths.relpath, current);
            if found.len() == 1 && back is Ok {
                Some((found[0], back->Ok_0))
            } else {
                None
            }
        },
        _ => None,
    }
}

/// The backlinks that a run of inline pieces leaves, one for each reference
/// that names exactly one document, in the order of the references.
pub open spec fn backlinks_of(
    site: Seq<DirectoryView>,
    current: Seq<PartView>,
    inlines: Seq<InlineView>,
) -> Seq<(DocRef, Seq<PartView>)>
    decreases inlines.len(),
{
    if inlines.len() == 0 {
        Seq::empty()
    } else {
        match backlink_of(site, current, inlines.last()) {
            Some(backlink) => backlinks_of(site, current, inlines.drop_last()).push(backlink),
            None => backlinks_of(site, current, inlines.drop_last()),
        }
    }
}

/// Where a run of inline pieces renders, it leaves one backlink for each
/// reference that names exactly one document, in the order of the
/// references, and no other.
pub proof fn lemma_rendered_backlinks(
    site: Seq<DirectoryView>,
    current: Seq<PartView>,
    references: Map<Seq<char>, Seq<char>>,
    inlines: Seq<InlineView>,
)
    ensures
        inlines_outcome(site, current, references, inlines).error is None ==> inlines_outcome(
            site,
            current,
            references,
            inlines,
        ).backlinks == backlinks_of(site, current, inlines),
    decreases inlines.len(),
{
    if inlines.len() > 0 {
        lemma_rendered_backlinks(site, current, references, inlines.drop_last());
    }
}

/// In a tidy site a run of inline pieces in which no reference names several
/// documents renders, and leaves one backlink for each reference that names
/// a document: duplicates among them are kept, and each is the path from the
/// document named back to the one with the reference.
pub proof fn lemma_inlines_backlinks(
    site: Seq<DirectoryView>,
    doc: DocRef,
    references: Map<Seq<char>, Seq<char>>,
    inlines: Seq<InlineView>,
)
    requires
        bounded(site),
        tidy(site),
        has_doc(site, doc),
        forall|piece: int|
            0 <= piece < inlines.len() ==> (#[trigger] inlines[piece] matches InlineView::Interlink(
                link,
            ) ==> site_matches(site, path_components(trimmed(link.location))).len() <= 1),
    ensures
        inlines_outcome(site, doc_at(site, doc).paths.relpath, references, inlines).error is None,
        inlines_outcome(site, doc_at(site, doc).paths.relpath, references, inlines).backlinks
            == backlinks_of(site, doc_at(site, doc).paths.relpath, inlines),
{
    lemma_inlines_calm(site, doc, references, inlines);
    lemma_rendered_backlinks(site, doc_at(site, doc).paths.relpath, references, inlines);
}

/// How many of the given inline pieces are references that leave a backlink
/// for the document at `at`.
pub open spec fn occurrences(
    site: Seq<DirectoryView>,
    current: Seq<PartView>,
    inlines: Seq<InlineView>,
    at: DocRef,
) -> nat
    decreases inlines.len(),
{
    if inlines.len() == 0 {
        0
    } else {
        let front = occurrences(site, current, inlines.drop_last(), at);
        match backlink_of(site, current, inlines.last()) {
            Some(backlink) => if backlink.0 == at {
                front + 1
            } else {
                front
            },
            None => front,
        }
    }
}

/// The path from the document at `at` back to the one with the common path
/// `current`, once for each reference that leaves it.
pub open spec fn paths_back(
    site: Seq<DirectoryView>,
    current: Seq<PartView>,
    inlines: Seq<InlineView>,
    at: DocRef,
) -> Seq<Seq<PartView>> {
    Seq::new(
        occurrences(site, current, inlines, at),
        |i: int| relative_spec(doc_at(site, at).paths.relpath, current)->Ok_0,
    )
}

/// Of the backlinks that a run of inline pieces leaves, a document gets one
/// for each reference to it, and all of them are the same path: that from
/// the document back to the one with the references.
pub proof fn lemma_one_per_occurrence(
    site: Seq<DirectoryView>,
    current: Seq<PartView>,
    inlines: Seq<InlineView>,
    at: DocRef,
)
    ensures
        sent_to(backlinks_of(site, current, inlines), at) == paths_back(site, current, inlines, at),
    decreases inlines.len(),
{
    if inlines.len() > 0 {
        lemma_one_per_occurrence(site, current, inlines.drop_last(), at);
        let front = backlinks_of(site, current, inlines.drop_last());
        match backlink_of(site, current, inlines.last()) {
            Some(backlink) => {
                assert(front.push(backlink).drop_last() =~= front);
            },
            None => {},
        }
    }
    assert(sent_to(backlinks_of(site, current, inlines), at) =~= paths_back(
        site,
        current,
        inlines,
        at,
    ));
}

/// Where a run of inline pieces in the document with the common path
/// `current` renders, every document of the site has afterwards the
/// backlinks it had, in order, and behind them one path back to `current`
/// for each reference to it.
pub proof fn lemma_inlines_received(
    site: Seq<DirectoryView>,
    current: Seq<PartView>,
    references: Map<Seq<char>, Seq<char>>,
    inlines: Seq<InlineView>,
    at: DocRef,
)
    requires
        bounded(site),
        has_doc(site, at),
        inlines_outcome(site, current, references, inlines).error is None,
    ensures
        doc_at(
            with_backlinks(site, inlines_outcome(site, current, references, inlines).backlinks),
            at,
        ).backlinks == doc_at(site, at).backlinks + paths_back(site, current, inlines, at),
{
    lemma_inlines_same_paths(site, site, current, references, inlines);
    lemma_rendered_backlinks(site, current, references, inlines);
    lemma_one_per_occurrence(site, current, inlines, at);
    lemma_with_backlinks_received(
        site,
        inlines_outcome(site, current, references, inlines).backlinks,
        at,
    );
}

/// Of backlinks in two runs, one behind the other, a document gets those of
/// the first run that go to it, then those of the second.
pub proof fn lemma_sent_concat(
    first: Seq<(DocRef, Seq<PartView>)>,
    second: Seq<(DocRef, Seq<PartView>)>,
    at: DocRef,
)
    ensures
        sent_to(first + second, at) == sent_to(first, at) + sent_to(second, at),
    decreases second.len(),
{
    if second.len() == 0 {
        assert(first + second =~= first);
        assert(sent_to(first, at) + sent_to(second, at) =~= sent_to(first, at));
    } else {
        assert((first + second).drop_last() =~= first + second.drop_last());
        assert((first + second).last() == second.last());
        lemma_sent_concat(first, second.drop_last(), at);
        assert(sent_to(first + second, at) =~= sent_to(first, at) + sent_to(second, at));
    }
}

/// How many references in the given blocks leave a backlink for the document
/// at `at`.
pub open spec fn document_occurrences(
    site: Seq<DirectoryView>,
    current: Seq<PartView>,
    tokens: Seq<TokenView>,
    at: DocRef,
) -> nat
    decreases tokens.len(),
{
    if tokens.len() == 0 {
        0
    } else {
        document_occurrences(site, current, tokens.drop_last(), at) + occurrences(
            site,
            current,
            inner_of(tokens.last()),
            at,
        )
    }
}

/// Where a document renders, it leaves every document of the site one
/// backlink for each of its references to it, and all of them are the same
/// path: that from the document referred to back to the one that was
/// rendered. So a document that is referred to several times gets as many
/// equal backlinks, whether it is rendered before or after, and also where
/// it refers to itself.
pub proof fn lemma_document_sent(
    site: Seq<DirectoryView>,
    current: Seq<PartView>,
    references: Map<Seq<char>, Seq<char>>,
    tokens: Seq<TokenView>,
    at: DocRef,
)
    requires
        tokens_outcome(site, current, references, tokens).error is None,
    ensures
        sent_to(tokens_outcome(site, current, references, tokens).backlinks, at) == Seq::new(
            document_occurrences(site, current, tokens, at),
            |i: int| relative_spec(doc_at(site, at).paths.relpath, current)->Ok_0,
        ),
    decreases tokens.len(),
{
    let path = relative_spec(doc_at(site, at).paths.relpath, current)->Ok_0;
    let sent = sent_to(tokens_outcome(site, current, references, tokens).backlinks, at);
    if tokens.len() > 0 {
        let front = tokens_outcome(site, current, references, tokens.drop_last());
        let inner = inner_of(tokens.last());
        let last = token_outcome(site, current, references, tokens.last());
        lemma_document_sent(site, current, references, tokens.drop_last(), at);
        assert(last.backlinks == backlinks_of(site, current, inner)) by {
            match tokens.last() {
                TokenView::CodeBlock { lang, code } => {
                    assert(last.backlinks =~= backlinks_of(site, current, inner));
                },
                _ => {
                    lemma_rendered_backlinks(site, current, references, inner);
                },
            }
        }
        lemma_one_per_occurrence(site, current, inner, at);
        lemma_sent_concat(front.backlinks, last.backlinks, at);
    }
    assert(sent =~= Seq::new(document_occurrences(site, current, tokens, at), |i: int| path));
}

} // verus!
