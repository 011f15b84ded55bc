//! The page template and the calls that fill it in.
//!
//! A template is a value of `bempline::Document`. It holds the pieces it was
//! parsed into, the values its variables were given, and the filled-in copies
//! its patterns were given; what it compiles to follows from these three.

use crate::error::{SiteError, SiteErrorView};
use bempline::Document;
use vstd::prelude::*;

verus! {

#[verifier::external_type_specification]
#[verifier::external_body]
pub struct ExDocument(Document);

/// What a template is made of: the pieces it was parsed into, with what it
/// includes read in and with nothing filled in.
pub uninterp spec fn body_of(template: Document) -> Seq<char>;

/// The values that the variables of a template were given, by their names.
pub uninterp spec fn variables_of(template: Document) -> Map<Seq<char>, Seq<char>>;

/// The filled-in copies that the patterns of a template were given, by the
/// names of the patterns and in the order in which they were added.
pub uninterp spec fn copies_of(template: Document) -> Map<Seq<char>, Seq<Seq<char>>>;

/// The inside of the pattern of the given name in a template with the given
/// body, if the body has such a pattern.
pub uninterp spec fn pattern_body(body: Seq<char>, name: Seq<char>) -> Option<Seq<char>>;

/// The text that a template with the given body compiles to when its
/// variables and patterns were given the given values and copies.
pub uninterp spec fn compiled_text(
    body: Seq<char>,
    variables: Map<Seq<char>, Seq<char>>,
    copies: Map<Seq<char>, Seq<Seq<char>>>,
) -> Seq<char>;

/// The copies of patterns after one more copy of the pattern `name` has been
/// added.
pub open spec fn added(
    copies: Map<Seq<char>, Seq<Seq<char>>>,
    name: Seq<char>,
    copy: Seq<char>,
) -> Map<Seq<char>, Seq<Seq<char>>> {
    if copies.contains_key(name) {
        copies.insert(name, copies[name].push(copy))
    } else {
        copies.insert(name, seq![copy])
    }
}

/// `Document::clone`: a copy of a template, to be filled in for one page.
#[verifier::external_body]
pub(crate) fn copy_template(template: &Document) -> (copy: Document)
    ensures
        copy == *template,
{
    template.clone()
}

/// `Document::set`: gives a variable of the template its value, and leaves
/// the rest of the template as it is.
#[verifier::external_body]
pub(crate) fn set_variable(template: &mut Document, key: &str, value: &str)
    ensures
        body_of(*final(template)) == body_of(*old(template)),
        variables_of(*final(template)) == variables_of(*old(template)).insert(key@, value@),
        copies_of(*final(template)) == copies_of(*old(template)),
{
    template.set(key, value)
}

/// `Document::get_pattern`: the inside of a pattern of the template as a
/// template of its own, if the template has a pattern of that name. The new
/// template has the variables of the old one, and no copies of patterns.
#[verifier::external_body]
pub(crate) fn find_pattern(template: &Document, name: &str) -> (pattern: Option<Document>)
    ensures
        match pattern {
            Some(inside) => {
                &&& pattern_body(body_of(*template), name@) == Some(body_of(inside))
                &&& variables_of(inside) == variables_of(*template)
                &&& copies_of(inside) == Map::<Seq<char>, Seq<Seq<char>>>::empty()
            },
            None => pattern_body(body_of(*template), name@) is None,
        },
{
    template.get_pattern(name)
}

/// `Document::set_pattern`: compiles a filled-in pattern and adds the text as
/// one more copy of the pattern of the given name; the rest of the template
/// stays as it is.
#[verifier::external_body]
pub(crate) fn add_pattern(template: &mut Document, name: &str, pattern: Document)
    ensures
        body_of(*final(template)) == body_of(*old(template)),
        variables_of(*final(template)) == variables_of(*old(template)),
        copies_of(*final(template)) == added(
            copies_of(*old(template)),
            name@,
            compiled_text(body_of(pattern), variables_of(pattern), copies_of(pattern)),
        ),
{
    template.set_pattern(name, pattern)
}

/// `Document::compile`: the text of the template with its variables and
/// patterns filled in.
#[verifier::external_body]
pub(crate) fn compile_template(template: Document) -> (text: String)
    ensures
        text@ == compiled_text(body_of(template), variables_of(template), copies_of(template)),
{
    template.compile()
}

/// Takes the pattern that was looked up under `slot`, or reports that the
/// template lacks it.
pub fn require_pattern(found: Option<Document>, slot: &str) -> (pattern: Result<
    Document,
    SiteError,
>)
    ensures
        match (found, pattern) {
            (Some(inside), Ok(taken)) => taken == inside,
            (None, Err(error)) => error@ == (SiteErrorView::TemplateSlotMissing { slot: slot@ }),
            _ => false,
        },
{
    match found {
        Some(inside) => Ok(inside),
        None => Err(SiteError::TemplateSlotMissing { slot: slot.to_owned() }),
    }
}

} // verus!
