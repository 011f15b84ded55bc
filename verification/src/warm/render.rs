//! From the pieces of a parsed document to the text of its page, and from
//! references to backlinks.

use crate::error::{SiteError, SiteErrorView};
use crate::markup::{Inline, InlineView, Link, LinkView, References, Token, TokenView};
use crate::path::{joined_text, part_texts, path_components, PartView, SitePath};
use crate::text::{anchor, anchor_text, decimal, decimal_text, trim_text, trimmed, wrap_text, wrapped};
use crate::warm::relative::{relative_spec, relativise_path};
use crate::warm::site::{
    doc_at, file_at, has_doc, lemma_site_matches, site_matches, DocRef, Environment,
};
use crate::warm::state::{
    add_backlink_to, bounded, deliverable, lemma_same_paths_docs, lemma_same_paths_matches,
    lemma_with_backlinks_concat, lemma_with_backlinks_same_paths, same_paths, with_backlink,
    with_backlinks,
};
use crate::warm::tree::{Directory, DirectoryView};
use vstd::prelude::*;

verus! {

/// Something that went wrong on a page without stopping the build.
#[derive(Debug)]
pub enum Diagnostic {
    /// A reference to another document names none.
    UnresolvedInterlink { location: String },
    /// A reference link has a label that the document's table lacks.
    UnresolvedReference { location: String },
}

/// The mathematical value of a [`Diagnostic`].
pub enum DiagnosticView {
    UnresolvedInterlink { location: Seq<char> },
    UnresolvedReference { location: Seq<char> },
}

impl View for Diagnostic {
    type V = DiagnosticView;

    open spec fn view(&self) -> DiagnosticView {
        match self {
            Diagnostic::UnresolvedInterlink { location } => DiagnosticView::UnresolvedInterlink {
                location: location@,
            },
            Diagnostic::UnresolvedReference { location } => DiagnosticView::UnresolvedReference {
                location: location@,
            },
        }
    }
}

impl DeepView for Diagnostic {
    type V = DiagnosticView;

    open spec fn deep_view(&self) -> DiagnosticView {
        self@
    }
}

/// The sentence that [`Diagnostic::message`] gives.
pub open spec fn diagnostic_message(diagnostic: DiagnosticView) -> Seq<char> {
    match diagnostic {
        DiagnosticView::UnresolvedInterlink { location } => "interlink "@ + location
            + " didn't match anything!"@,
        DiagnosticView::UnresolvedReference { location } =>
            "Failed to resolve reflink with location: "@ + location,
    }
}

impl Diagnostic {
    /// A sentence that says what went wrong.
    pub fn message(&self) -> (text: String)
        ensures
            text@ == diagnostic_message(self@),
    {
        match self {
            Diagnostic::UnresolvedInterlink { location } => {
                let mut text = "interlink ".to_owned();
                text.append(location.as_str());
                text.append(" didn't match anything!");
                text
            },
            Diagnostic::UnresolvedReference { location } => {
                let mut text = "Failed to resolve reflink with location: ".to_owned();
                text.append(location.as_str());
                text
            },
        }
    }
}

/// A path as it is written into a page.
pub open spec fn path_text(path: Seq<PartView>) -> Seq<char> {
    joined_text(part_texts(path))
}

/// The text that a link shows: its name, or `fallback` where it has none.
pub open spec fn shown_name(link: LinkView, fallback: Seq<char>) -> Seq<char> {
    match link.name {
        Some(name) => name,
        None => fallback,
    }
}

/// What one inline piece of a document comes to.
pub struct Effect {
    /// Its part of the page.
    pub html: Seq<char>,
    /// The backlink it leaves: the place of the document it refers to, and
    /// the path from there back to the document it stands in.
    pub backlink: Option<(DocRef, Seq<PartView>)>,
    /// What it gives notice of.
    pub diagnostic: Option<DiagnosticView>,
}

/// An effect that is text on the page and nothing else.
pub open spec fn plain(html: Seq<char>) -> Effect {
    Effect { html, backlink: None, diagnostic: None }
}

/// What a reference to another document comes to, in the document with the
/// common path `current`, once its location has been trimmed and the places
/// of the documents it names have been found.
///
/// Where it names more than one document, the build fails. Where it names
/// none, the reference is shown as it was written, between braces, and notice
/// is given. Where it names one, it becomes an anchor that leads there by a
/// relative path and shows the name of the link, or the location where the
/// link has no name; the document it names gets the path back as a backlink.
pub open spec fn found_effect(
    site: Seq<DirectoryView>,
    current: Seq<PartView>,
    link: LinkView,
    location: Seq<char>,
    found: Seq<DocRef>,
) -> Result<Effect, SiteErrorView> {
    if found.len() > 1 {
        Err(SiteErrorView::LinkAmbiguity { reference: location })
    } else if found.len() == 0 {
        Ok(
            Effect {
                html: wrapped("{"@, link.raw, "}"@),
                backlink: None,
                diagnostic: Some(DiagnosticView::UnresolvedInterlink { location }),
            },
        )
    } else {
        let target = doc_at(site, found[0]).paths.relpath;
        match relative_spec(current, target) {
            Err(error) => Err(SiteErrorView::Path(error)),
            Ok(there) => match relative_spec(target, current) {
                Err(error) => Err(SiteErrorView::Path(error)),
                Ok(back) => Ok(
                    Effect {
                        html: anchor(path_text(there), shown_name(link, location)),
                        backlink: Some((found[0], back)),
                        diagnostic: None,
                    },
                ),
            },
        }
    }
}

/// What a reference to another document comes to, in the document with the
/// common path `current`: its location is trimmed and looked up in the whole
/// site, and the rest goes by what was found.
pub open spec fn interlink_effect(
    site: Seq<DirectoryView>,
    current: Seq<PartView>,
    link: LinkView,
) -> Result<Effect, SiteErrorView> {
    found_effect(
        site,
        current,
        link,
        trimmed(link.location),
        site_matches(site, path_components(trimmed(link.location))),
    )
}

/// What a reference link comes to: an anchor to the location that the table
/// holds for its trimmed label, or to the trimmed label itself, with notice,
/// where the table lacks it. It shows the name of the link, or the label as
/// written.
pub open spec fn reference_effect(references: Map<Seq<char>, Seq<char>>, link: LinkView) -> Effect {
    let label = trimmed(link.location);
    if references.contains_key(label) {
        plain(anchor(references[label], shown_name(link, link.location)))
    } else {
        Effect {
            html: anchor(label, shown_name(link, link.location)),
            backlink: None,
            diagnostic: Some(DiagnosticView::UnresolvedReference { location: label }),
        }
    }
}

/// What one inline piece comes to.
pub open spec fn inline_effect(
    site: Seq<DirectoryView>,
    current: Seq<PartView>,
    references: Map<Seq<char>, Seq<char>>,
    inline: InlineView,
) -> Result<Effect, SiteErrorView> {
    match inline {
        InlineView::Break => Ok(plain("<br>"@)),
        InlineView::Text(text) => Ok(plain(text)),
        InlineView::Code(code) => Ok(plain(wrapped("<code>"@, code, "</code>"@))),
        InlineView::Interlink(link) => interlink_effect(site, current, link),
        InlineView::Link(link) => Ok(
            plain(anchor(link.location, shown_name(link, link.location))),
        ),
        InlineView::ReferenceLink(link) => Ok(reference_effect(references, link)),
    }
}

/// What rendering a run of pieces comes to.
pub struct Outcome {
    /// The page so far.
    pub html: Seq<char>,
    /// The backlinks that were left, in the order of the references.
    pub backlinks: Seq<(DocRef, Seq<PartView>)>,
    /// What notice was given of, in order.
    pub diagnostics: Seq<DiagnosticView>,
    /// Why rendering stopped, if it did.
    pub error: Option<SiteErrorView>,
}

/// The outcome of rendering nothing.
pub open spec fn nothing() -> Outcome {
    Outcome { html: Seq::empty(), backlinks: Seq::empty(), diagnostics: Seq::empty(), error: None }
}

/// The outcome after one more inline piece. Once rendering has stopped,
/// nothing is added.
pub open spec fn after_inline(front: Outcome, next: Result<Effect, SiteErrorView>) -> Outcome {
    if front.error is Some {
        front
    } else {
        match next {
            Err(error) => Outcome { error: Some(error), ..front },
            Ok(effect) => Outcome {
                html: front.html + effect.html,
                backlinks: match effect.backlink {
                    Some(backlink) => front.backlinks.push(backlink),
                    None => front.backlinks,
                },
                diagnostics: match effect.diagnostic {
                    Some(diagnostic) => front.diagnostics.push(diagnostic),
                    None => front.diagnostics,
                },
                error: None,
            },
        }
    }
}

/// What rendering a run of inline pieces comes to: the pieces are taken in
/// order, up to the first that fails.
pub open spec fn inlines_outcome(
    site: Seq<DirectoryView>,
    current: Seq<PartView>,
    references: Map<Seq<char>, Seq<char>>,
    inlines: Seq<InlineView>,
) -> Outcome
    decreases inlines.len(),
{
    if inlines.len() == 0 {
        nothing()
    } else {
        after_inline(
            inlines_outcome(site, current, references, inlines.drop_last()),
            inline_effect(site, current, references, inlines.last()),
        )
    }
}

/// The outcome of a block: that of its inline pieces, with the page text put
/// between the marks of the block. The text of a heading is trimmed first.
pub open spec fn token_outcome(
    site: Seq<DirectoryView>,
    current: Seq<PartView>,
    references: Map<Seq<char>, Seq<char>>,
    token: TokenView,
) -> Outcome {
    match token {
        TokenView::Header { level, inner } => {
            let inside = inlines_outcome(site, current, references, inner);
            Outcome {
                html: wrapped(
                    wrapped("<h"@, decimal(level), ">"@),
                    trimmed(inside.html),
                    wrapped("</h"@, decimal(level), ">"@),
                ),
                ..inside
            }
        },
        TokenView::Paragraph { inner } => {
            let inside = inlines_outcome(site, current, references, inner);
            Outcome { html: wrapped("<p>"@, inside.html, "</p>"@), ..inside }
        },
        TokenView::CodeBlock { lang, code } => Outcome {
            html: wrapped("<pre><code>"@, code, "</code></pre>"@),
            ..nothing()
        },
    }
}

/// The outcome after one more block. Once rendering has stopped, nothing is
/// added.
pub open spec fn after_token(front: Outcome, next: Outcome) -> Outcome {
    if front.error is Some {
        front
    } else {
        Outcome {
            html: front.html + next.html,
            backlinks: front.backlinks + next.backlinks,
            diagnostics: front.diagnostics + next.diagnostics,
            error: next.error,
        }
    }
}

/// What rendering a document comes to: its blocks are taken in order, up to
/// the first that fails.
pub open spec fn tokens_outcome(
    site: Seq<DirectoryView>,
    current: Seq<PartView>,
    references: Map<Seq<char>, Seq<char>>,
    tokens: Seq<TokenView>,
) -> Outcome
    decreases tokens.len(),
{
    if tokens.len() == 0 {
        nothing()
    } else {
        after_token(
            tokens_outcome(site, current, references, tokens.drop_last()),
            token_outcome(site, current, references, tokens.last()),
        )
    }
}

/// In sites with the same paths an inline piece comes to the same.
pub proof fn lemma_inline_same_paths(
    a: Seq<DirectoryView>,
    b: Seq<DirectoryView>,
    current: Seq<PartView>,
    references: Map<Seq<char>, Seq<char>>,
    inline: InlineView,
)
    requires
        same_paths(a, b),
        bounded(a),
    ensures
        inline_effect(a, current, references, inline) == inline_effect(
            b,
            current,
            references,
            inline,
        ),
        inline_effect(a, current, references, inline) matches Ok(effect) ==> (
        effect.backlink matches Some(backlink) ==> has_doc(a, backlink.0)),
{
    match inline {
        InlineView::Interlink(link) => {
            let reference = path_components(trimmed(link.location));
            lemma_same_paths_matches(a, b, reference);
            let found = site_matches(a, reference);
            if found.len() == 1 {
                lemma_site_matches(a, reference, 0);
                lemma_same_paths_docs(a, b, found[0]);
            }
        },
        _ => {},
    }
}

/// In sites with the same paths a run of inline pieces comes to the same, and
/// every backlink it leaves goes to a document of the site.
pub proof fn lemma_inlines_same_paths(
    a: Seq<DirectoryView>,
    b: Seq<DirectoryView>,
    current: Seq<PartView>,
    references: Map<Seq<char>, Seq<char>>,
    inlines: Seq<InlineView>,
)
    requires
        same_paths(a, b),
        bounded(a),
    ensures
        inlines_outcome(a, current, references, inlines) == inlines_outcome(
            b,
            current,
            references,
            inlines,
        ),
        deliverable(a, inlines_outcome(a, current, references, inlines).backlinks),
    decreases inlines.len(),
{
    if inlines.len() > 0 {
        lemma_inlines_same_paths(a, b, current, references, inlines.drop_last());
        lemma_inline_same_paths(a, b, current, references, inlines.last());
    }
}

/// In sites with the same paths a block comes to the same.
pub proof fn lemma_token_same_paths(
    a: Seq<DirectoryView>,
    b: Seq<DirectoryView>,
    current: Seq<PartView>,
    references: Map<Seq<char>, Seq<char>>,
    token: TokenView,
)
    requires
        same_paths(a, b),
        bounded(a),
    ensures
        token_outcome(a, current, references, token) == token_outcome(
            b,
            current,
            references,
            token,
        ),
        deliverable(a, token_outcome(a, current, references, token).backlinks),
{
    match token {
        TokenView::Header { level, inner } => {
            lemma_inlines_same_paths(a, b, current, references, inner);
        },
        TokenView::Paragraph { inner } => {
            lemma_inlines_same_paths(a, b, current, references, inner);
        },
        TokenView::CodeBlock { lang, code } => {},
    }
}

/// In sites with the same paths a document comes to the same.
pub proof fn lemma_tokens_same_paths(
    a: Seq<DirectoryView>,
    b: Seq<DirectoryView>,
    current: Seq<PartView>,
    references: Map<Seq<char>, Seq<char>>,
    tokens: Seq<TokenView>,
)
    requires
        same_paths(a, b),
        bounded(a),
    ensures
        tokens_outcome(a, current, references, tokens) == tokens_outcome(
            b,
            current,
            references,
            tokens,
        ),
        deliverable(a, tokens_outcome(a, current, references, tokens).backlinks),
    decreases tokens.len(),
{
    if tokens.len() > 0 {
        lemma_tokens_same_paths(a, b, current, references, tokens.drop_last());
        lemma_token_same_paths(a, b, current, references, tokens.last());
    }
}

/// Once a run of inline pieces has failed, the pieces behind the failure
/// change nothing.
pub proof fn lemma_inlines_failed(
    site: Seq<DirectoryView>,
    current: Seq<PartView>,
    references: Map<Seq<char>, Seq<char>>,
    inlines: Seq<InlineView>,
    upto: int,
)
    requires
        0 <= upto <= inlines.len(),
        inlines_outcome(site, current, references, inlines.take(upto)).error is Some,
    ensures
        inlines_outcome(site, current, references, inlines) == inlines_outcome(
            site,
            current,
            references,
            inlines.take(upto),
        ),
    decreases inlines.len() - upto,
{
    if upto < inlines.len() {
        assert(inlines.take(upto + 1).drop_last() =~= inlines.take(upto));
        lemma_inlines_failed(site, current, references, inlines, upto + 1);
    } else {
        assert(inlines.take(upto) =~= inlines);
    }
}

/// Once a document has failed, the blocks behind the failure change nothing.
pub proof fn lemma_tokens_failed(
    site: Seq<DirectoryView>,
    current: Seq<PartView>,
    references: Map<Seq<char>, Seq<char>>,
    tokens: Seq<TokenView>,
    upto: int,
)
    requires
        0 <= upto <= tokens.len(),
        tokens_outcome(site, current, references, tokens.take(upto)).error is Some,
    ensures
        tokens_outcome(site, current, references, tokens) == tokens_outcome(
            site,
            current,
            references,
            tokens.take(upto),
        ),
    decreases tokens.len() - upto,
{
    if upto < tokens.len() {
        assert(tokens.take(upto + 1).drop_last() =~= tokens.take(upto));
        lemma_tokens_failed(site, current, references, tokens, upto + 1);
    } else {
        assert(tokens.take(upto) =~= tokens);
    }
}

/// The site after the backlink of an effect, if it has one, has been added.
pub open spec fn with_effect(site: Seq<DirectoryView>, effect: Effect) -> Seq<DirectoryView> {
    match effect.backlink {
        Some(backlink) => with_backlink(site, backlink.0, backlink.1),
        None => site,
    }
}

/// What notice was given of after an effect.
pub open spec fn noted(diagnostics: Seq<DiagnosticView>, effect: Effect) -> Seq<DiagnosticView> {
    match effect.diagnostic {
        Some(diagnostic) => diagnostics.push(diagnostic),
        None => diagnostics,
    }
}

fn shown_text(link: &Link, fallback: &str) -> (text: String)
    ensures
        text@ == shown_name(link@, fallback@),
{
    match &link.name {
        Some(name) => name.clone(),
        None => fallback.to_owned(),
    }
}

/// Renders a reference to another document that stands in the document with
/// the common path `current`, from its trimmed location and the places of the
/// documents it names: an anchor and a backlink where it names one document,
/// the reference as written and a notice where it names none, a failure
/// where it names several.
pub fn link_found(
    dirs: &mut Vec<Directory>,
    current: &SitePath,
    link: &Link,
    location: &str,
    found: &Vec<DocRef>,
    diagnostics: &mut Vec<Diagnostic>,
) -> (rendered: Result<String, SiteError>)
    requires
        found@.len() == 1 ==> has_doc(old(dirs).deep_view(), found@[0]),
    ensures
        match (
            found_effect(old(dirs).deep_view(), current@, link@, location@, found@),
            rendered,
        ) {
            (Ok(effect), Ok(html)) => {
                &&& html@ == effect.html
                &&& final(dirs).deep_view() == with_effect(old(dirs).deep_view(), effect)
                &&& final(diagnostics).deep_view() == noted(old(diagnostics).deep_view(), effect)
            },
            (Err(error), Err(failure)) => {
                &&& failure@ == error
                &&& final(dirs).deep_view() == old(dirs).deep_view()
                &&& final(diagnostics).deep_view() == old(diagnostics).deep_view()
            },
            _ => false,
        },
{
    if found.len() > 1 {
        return Err(SiteError::LinkAmbiguity { reference: location.to_owned() });
    }
    if found.len() == 0 {
        let ghost before = diagnostics.deep_view();
        let notice = Diagnostic::UnresolvedInterlink { location: location.to_owned() };
        diagnostics.push(notice);
        assert(diagnostics.deep_view() =~= before.push(notice@));
        return Ok(wrap_text("{", link.raw.as_str(), "}"));
    }
    let target = found[0];
    let there = match relativise_path(current, &file_at(dirs, target).paths.relpath) {
        Ok(path) => path,
        Err(error) => {
            return Err(SiteError::Path(error));
        },
    };
    let back = match relativise_path(&file_at(dirs, target).paths.relpath, current) {
        Ok(path) => path,
        Err(error) => {
            return Err(SiteError::Path(error));
        },
    };
    add_backlink_to(dirs, target, back);
    let shown = shown_text(link, location);
    let href = there.to_text();
    Ok(anchor_text(href.as_str(), shown.as_str()))
}

impl Environment {
    /// Renders a reference to another document that stands in the document
    /// with the common path `current`.
    pub fn render_interlink(
        &mut self,
        current: &SitePath,
        link: &Link,
        diagnostics: &mut Vec<Diagnostic>,
    ) -> (rendered: Result<String, SiteError>)
        ensures
            final(self).warm == old(self).warm,
            match (interlink_effect(old(self)@, current@, link@), rendered) {
                (Ok(effect), Ok(html)) => {
                    &&& html@ == effect.html
                    &&& final(self)@ == with_effect(old(self)@, effect)
                    &&& final(diagnostics).deep_view() == noted(
                        old(diagnostics).deep_view(),
                        effect,
                    )
                },
                (Err(error), Err(failure)) => {
                    &&& failure@ == error
                    &&& final(self)@ == old(self)@
                    &&& final(diagnostics).deep_view() == old(diagnostics).deep_view()
                },
                _ => false,
            },
    {
        let location = trim_text(link.location.as_str());
        let found = self.find_shortest_path(location);
        link_found(&mut self.dirs, current, link, location, &found, diagnostics)
    }

    /// Renders one inline piece of the document with the common path
    /// `current`.
    pub fn render_inline(
        &mut self,
        current: &SitePath,
        references: &References,
        inline: &Inline,
        diagnostics: &mut Vec<Diagnostic>,
    ) -> (rendered: Result<String, SiteError>)
        ensures
            final(self).warm == old(self).warm,
            match (inline_effect(old(self)@, current@, references@, inline@), rendered) {
                (Ok(effect), Ok(html)) => {
                    &&& html@ == effect.html
                    &&& final(self)@ == with_effect(old(self)@, effect)
                    &&& final(diagnostics).deep_view() == noted(
                        old(diagnostics).deep_view(),
                        effect,
                    )
                },
                (Err(error), Err(failure)) => {
                    &&& failure@ == error
                    &&& final(self)@ == old(self)@
                    &&& final(diagnostics).deep_view() == old(diagnostics).deep_view()
                },
                _ => false,
            },
    {
        match inline {
            Inline::Break => Ok("<br>".to_owned()),
            Inline::Text(text) => Ok(text.clone()),
            Inline::Code(code) => Ok(wrap_text("<code>", code.as_str(), "</code>")),
            Inline::Interlink(link) => self.render_interlink(current, link, diagnostics),
            Inline::Link(link) => {
                let shown = shown_text(link, link.location.as_str());
                Ok(anchor_text(link.location.as_str(), shown.as_str()))
            },
            Inline::ReferenceLink(link) => {
                let shown = shown_text(link, link.location.as_str());
                let label = trim_text(link.location.as_str());
                match references.get(label) {
                    Some(location) => Ok(anchor_text(location.as_str(), shown.as_str())),
                    None => {
                        let ghost before = diagnostics.deep_view();
                        let notice = Diagnostic::UnresolvedReference { location: label.to_owned() };
                        diagnostics.push(notice);
                        assert(diagnostics.deep_view() =~= before.push(notice@));
                        Ok(anchor_text(label, shown.as_str()))
                    },
                }
            },
        }
    }

    /// Renders a run of inline pieces of the document with the common path
    /// `current`, up to the first that fails.
    #[verifier::rlimit(100)]
    pub fn html_inline(
        &mut self,
        current: &SitePath,
        references: &References,
        inner: &Vec<Inline>,
        diagnostics: &mut Vec<Diagnostic>,
    ) -> (rendered: Result<String, SiteError>)
        ensures
            final(self).warm == old(self).warm,
            ({
                let outcome = inlines_outcome(
                    old(self)@,
                    current@,
                    references@,
                    inner.deep_view(),
                );
                &&& final(self)@ == with_backlinks(old(self)@, outcome.backlinks)
                &&& final(diagnostics).deep_view() == old(diagnostics).deep_view()
                    + outcome.diagnostics
                &&& match rendered {
                    Ok(html) => outcome.error is None && html@ == outcome.html,
                    Err(failure) => outcome.error == Some(failure@),
                }
            }),
    {
        let ghost start = self@;
        let ghost notes = diagnostics.deep_view();
        let ghost pieces = inner.deep_view();
        proof {
            self.lemma_bounded();
            assert(notes + Seq::<DiagnosticView>::empty() =~= notes);
        }
        let mut html = String::new();
        let mut i: usize = 0;
        while i < inner.len()
            invariant
                i <= inner.len(),
                pieces == inner.deep_view(),
                self.warm == old(self).warm,
                start == old(self)@,
                notes == old(diagnostics).deep_view(),
                bounded(start),
                same_paths(self@, start),
                ({
                    let outcome = inlines_outcome(start, current@, references@, pieces.take(i as int));
                    &&& outcome.error is None
                    &&& html@ == outcome.html
                    &&& self@ == with_backlinks(start, outcome.backlinks)
                    &&& diagnostics.deep_view() == notes + outcome.diagnostics
                    &&& deliverable(start, outcome.backlinks)
                }),
            decreases inner.len() - i,
        {
            let ghost front = inlines_outcome(start, current@, references@, pieces.take(i as int));
            let ghost here = self@;
            proof {
                self.lemma_bounded();
                lemma_inline_same_paths(here, start, current@, references@, inner[i as int]@);
                assert(pieces.take(i + 1).drop_last() =~= pieces.take(i as int));
                assert(pieces.take(i + 1).last() == inner[i as int]@);
            }
            let ghost next = inlines_outcome(start, current@, references@, pieces.take(i + 1));
            match self.render_inline(current, references, &inner[i], diagnostics) {
                Ok(piece) => {
                    html.append(piece.as_str());
                    proof {
                        let effect = inline_effect(start, current@, references@, inner[i as int]@)->Ok_0;
                        match effect.backlink {
                            Some(backlink) => {
                                assert(next.backlinks.drop_last() =~= front.backlinks);
                                lemma_same_paths_docs(here, start, backlink.0);
                                assert(deliverable(start, next.backlinks));
                            },
                            None => {},
                        }
                        lemma_with_backlinks_same_paths(start, next.backlinks);
                        assert(diagnostics.deep_view() =~= notes + next.diagnostics);
                    }
                },
                Err(failure) => {
                    proof {
                        lemma_inlines_failed(start, current@, references@, pieces, i + 1);
                    }
                    return Err(failure);
                },
            }
            i += 1;
        }
        assert(pieces.take(inner.len() as int) =~= pieces);
        Ok(html)
    }

    /// Renders one block of the document with the common path `current`.
    pub fn render_token(
        &mut self,
        current: &SitePath,
        references: &References,
        token: &Token,
        diagnostics: &mut Vec<Diagnostic>,
    ) -> (rendered: Result<String, SiteError>)
        ensures
            final(self).warm == old(self).warm,
            ({
                let outcome = token_outcome(old(self)@, current@, references@, token@);
                &&& final(self)@ == with_backlinks(old(self)@, outcome.backlinks)
                &&& final(diagnostics).deep_view() == old(diagnostics).deep_view()
                    + outcome.diagnostics
                &&& match rendered {
                    Ok(html) => outcome.error is None && html@ == outcome.html,
                    Err(failure) => outcome.error == Some(failure@),
                }
            }),
    {
        match token {
            Token::Header { level, inner } => {
                let inside = match self.html_inline(current, references, inner, diagnostics) {
                    Ok(inside) => inside,
                    Err(failure) => {
                        return Err(failure);
                    },
                };
                let digits = decimal_text(*level);
                let open = wrap_text("<h", digits.as_str(), ">");
                let close = wrap_text("</h", digits.as_str(), ">");
                Ok(wrap_text(open.as_str(), trim_text(inside.as_str()), close.as_str()))
            },
            Token::Paragraph { inner } => {
                let inside = match self.html_inline(current, references, inner, diagnostics) {
                    Ok(inside) => inside,
                    Err(failure) => {
                        return Err(failure);
                    },
                };
                Ok(wrap_text("<p>", inside.as_str(), "</p>"))
            },
            Token::CodeBlock { lang, code } => {
                assert(diagnostics.deep_view() + Seq::<DiagnosticView>::empty()
                    =~= diagnostics.deep_view());
                Ok(wrap_text("<pre><code>", code.as_str(), "</code></pre>"))
            },
        }
    }

    /// Renders the blocks of the document with the common path `current`, up
    /// to the first that fails.
    #[verifier::rlimit(100)]
    pub fn render_tokens(
        &mut self,
        current: &SitePath,
        references: &References,
        tokens: &Vec<Token>,
        diagnostics: &mut Vec<Diagnostic>,
    ) -> (rendered: Result<String, SiteError>)
        ensures
            final(self).warm == old(self).warm,
            ({
                let outcome = tokens_outcome(
                    old(self)@,
                    current@,
                    references@,
                    tokens.deep_view(),
                );
                &&& final(self)@ == with_backlinks(old(self)@, outcome.backlinks)
                &&& final(diagnostics).deep_view() == old(diagnostics).deep_view()
                    + outcome.diagnostics
                &&& match rendered {
                    Ok(html) => outcome.error is None && html@ == outcome.html,
                    Err(failure) => outcome.error == Some(failure@),
                }
            }),
    {
        let ghost start = self@;
        let ghost notes = diagnostics.deep_view();
        let ghost blocks = tokens.deep_view();
        proof {
            self.lemma_bounded();
            assert(notes + Seq::<DiagnosticView>::empty() =~= notes);
        }
        let mut html = String::new();
        let mut i: usize = 0;
        while i < tokens.len()
            invariant
                i <= tokens.len(),
                blocks == tokens.deep_view(),
                self.warm == old(self).warm,
                start == old(self)@,
                notes == old(diagnostics).deep_view(),
                bounded(start),
                same_paths(self@, start),
                ({
                    let outcome = tokens_outcome(start, current@, references@, blocks.take(i as int));
                    &&& outcome.error is None
                    &&& html@ == outcome.html
                    &&& self@ == with_backlinks(start, outcome.backlinks)
                    &&& diagnostics.deep_view() == notes + outcome.diagnostics
                    &&& deliverable(start, outcome.backlinks)
                }),
            decreases tokens.len() - i,
        {
            let ghost front = tokens_outcome(start, current@, references@, blocks.take(i as int));
            let ghost here = self@;
            proof {
                self.lemma_bounded();
                lemma_token_same_paths(here, start, current@, references@, tokens[i as int]@);
                assert(blocks.take(i + 1).drop_last() =~= blocks.take(i as int));
                assert(blocks.take(i + 1).last() == tokens[i as int]@);
            }
            let ghost block = token_outcome(start, current@, references@, tokens[i as int]@);
            let ghost next = tokens_outcome(start, current@, references@, blocks.take(i + 1));
            let rendered = self.render_token(current, references, &tokens[i], diagnostics);
            proof {
                lemma_with_backlinks_concat(start, front.backlinks, block.backlinks);
                assert(deliverable(start, next.backlinks)) by {
                    assert forall|k: int| 0 <= k < next.backlinks.len() implies has_doc(
                        start,
                        (#[trigger] next.backlinks[k]).0,
                    ) by {
                        if k >= front.backlinks.len() {
                            assert(next.backlinks[k] == block.backlinks[k - front.backlinks.len()]);
                            lemma_same_paths_docs(here, start, next.backlinks[k].0);
                        } else {
                            assert(next.backlinks[k] == front.backlinks[k]);
                        }
                    }
                }
                lemma_with_backlinks_same_paths(start, next.backlinks);
                assert(diagnostics.deep_view() =~= notes + next.diagnostics);
            }
            match rendered {
                Ok(piece) => {
                    html.append(piece.as_str());
                },
                Err(failure) => {
                    proof {
                        lemma_tokens_failed(start, current@, references@, blocks, i + 1);
                    }
                    return Err(failure);
                },
            }
            i += 1;
        }
        assert(blocks.take(tokens.len() as int) =~= blocks);
        Ok(html)
    }
}

} // verus!
