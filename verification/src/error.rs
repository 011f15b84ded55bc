//! What can go wrong while a site is built.

use vstd::prelude::*;

verus! {

/// Why a computation on paths failed.
#[derive(Clone, Copy, Debug, PartialEq, Eq, Structural)]
pub enum PathError {
    /// A path does not lie under the root it was expected under.
    OutsideRoot,
    /// Walking up from the start reached a root without meeting an ancestor of
    /// the target.
    NoCommonAncestor,
    /// A path that was to name a document has no file name.
    NoFileName,
    /// The place a document is written to does not lie as deep under the
    /// output root as the place it is read from lies under the input root.
    NotMirrored,
}

/// Why building a site failed.
#[derive(Debug)]
pub enum SiteError {
    /// A computation on paths failed.
    Path(PathError),
    /// A reference between documents names more than one document.
    LinkAmbiguity { reference: String },
    /// The template lacks a pattern that a page needs.
    TemplateSlotMissing { slot: String },
}

/// The mathematical value of a [`SiteError`].
pub enum SiteErrorView {
    Path(PathError),
    LinkAmbiguity { reference: Seq<char> },
    TemplateSlotMissing { slot: Seq<char> },
}

impl View for SiteError {
    type V = SiteErrorView;

    open spec fn view(&self) -> SiteErrorView {
        match self {
            SiteError::Path(e) => SiteErrorView::Path(*e),
            SiteError::LinkAmbiguity { reference } => SiteErrorView::LinkAmbiguity {
                reference: reference@,
            },
            SiteError::TemplateSlotMissing { slot } => SiteErrorView::TemplateSlotMissing {
                slot: slot@,
            },
        }
    }
}

impl DeepView for SiteError {
    type V = SiteErrorView;

    open spec fn deep_view(&self) -> SiteErrorView {
        self@
    }
}

impl SiteError {
    /// A sentence that says what went wrong.
    pub fn message(&self) -> (text: String)
        ensures
            text@ == message_spec(self@),
    {
        match self {
            SiteError::Path(PathError::OutsideRoot) => "a path lies outside its root".to_owned(),
            SiteError::Path(PathError::NoCommonAncestor) => {
                "two paths have no common ancestor".to_owned()
            },
            SiteError::Path(PathError::NoFileName) => "a path has no file name".to_owned(),
            SiteError::Path(PathError::NotMirrored) => {
                "a document is not written where it is read".to_owned()
            },
            SiteError::LinkAmbiguity { reference } => {
                let mut text = "reflink ".to_owned();
                text.append(reference.as_str());
                text.append(" resolved to multiple files!");
                text
            },
            SiteError::TemplateSlotMissing { slot } => {
                let mut text = "the template has no pattern ".to_owned();
                text.append(slot.as_str());
                text
            },
        }
    }
}

/// The sentence that [`SiteError::message`] gives for an error.
pub open spec fn message_spec(error: SiteErrorView) -> Seq<char> {
    match error {
        SiteErrorView::Path(PathError::OutsideRoot) => "a path lies outside its root"@,
        SiteErrorView::Path(PathError::NoCommonAncestor) => "two paths have no common ancestor"@,
        SiteErrorView::Path(PathError::NoFileName) => "a path has no file name"@,
        SiteErrorView::Path(PathError::NotMirrored) => "a document is not written where it is read"@,
        SiteErrorView::LinkAmbiguity { reference } => "reflink "@ + reference
            + " resolved to multiple files!"@,
        SiteErrorView::TemplateSlotMissing { slot } => "the template has no pattern "@ + slot,
    }
}

} // verus!
