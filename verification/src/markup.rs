//! A document as its parser hands it over: blocks, the inline pieces inside
//! them, and the table of the document's reference links.

use vstd::prelude::*;

verus! {

/// A link of any kind inside a document.
#[derive(Debug)]
pub struct Link {
    /// The text to show, where the link gives one.
    pub name: Option<String>,
    /// Where the link leads, as written.
    pub location: String,
    /// The link as it stands in the document, without the marks around it.
    pub raw: String,
}

/// The mathematical value of a [`Link`].
pub struct LinkView {
    pub name: Option<Seq<char>>,
    pub location: Seq<char>,
    pub raw: Seq<char>,
}

impl View for Link {
    type V = LinkView;

    open spec fn view(&self) -> LinkView {
        LinkView { name: self.name.deep_view(), location: self.location@, raw: self.raw@ }
    }
}

impl DeepView for Link {
    type V = LinkView;

    open spec fn deep_view(&self) -> LinkView {
        self@
    }
}

/// A piece of text inside a block.
#[derive(Debug)]
pub enum Inline {
    /// A line break.
    Break,
    /// Plain text.
    Text(String),
    /// Code inside a line.
    Code(String),
    /// A reference to another document of the same tree.
    Interlink(Link),
    /// A link to a location given as it is.
    Link(Link),
    /// A link to a location that the document's reference table holds.
    ReferenceLink(Link),
}

/// The mathematical value of an [`Inline`].
pub enum InlineView {
    Break,
    Text(Seq<char>),
    Code(Seq<char>),
    Interlink(LinkView),
    Link(LinkView),
    ReferenceLink(LinkView),
}

impl View for Inline {
    type V = InlineView;

    open spec fn view(&self) -> InlineView {
        match self {
            Inline::Break => InlineView::Break,
            Inline::Text(t) => InlineView::Text(t@),
            Inline::Code(c) => InlineView::Code(c@),
            Inline::Interlink(l) => InlineView::Interlink(l@),
            Inline::Link(l) => InlineView::Link(l@),
            Inline::ReferenceLink(l) => InlineView::ReferenceLink(l@),
        }
    }
}

impl DeepView for Inline {
    type V = InlineView;

    open spec fn deep_view(&self) -> InlineView {
        self@
    }
}

/// A block of a document.
#[derive(Debug)]
pub enum Token {
    /// A heading of the given level.
    Header { level: usize, inner: Vec<Inline> },
    /// A paragraph.
    Paragraph { inner: Vec<Inline> },
    /// A block of code in the given language.
    CodeBlock { lang: String, code: String },
}

/// The mathematical value of a [`Token`].
pub enum TokenView {
    Header { level: nat, inner: Seq<InlineView> },
    Paragraph { inner: Seq<InlineView> },
    CodeBlock { lang: Seq<char>, code: Seq<char> },
}

impl View for Token {
    type V = TokenView;

    open spec fn view(&self) -> TokenView {
        match self {
            Token::Header { level, inner } => TokenView::Header {
                level: *level as nat,
                inner: inner.deep_view(),
            },
            Token::Paragraph { inner } => TokenView::Paragraph { inner: inner.deep_view() },
            Token::CodeBlock { lang, code } => TokenView::CodeBlock { lang: lang@, code: code@ },
        }
    }
}

impl DeepView for Token {
    type V = TokenView;

    open spec fn deep_view(&self) -> TokenView {
        self@
    }
}

/// One line of a reference table: a label and the location it stands for.
#[derive(Debug)]
pub struct Reference {
    pub label: String,
    pub location: String,
}

/// The table of a document's reference links. A label that is set again
/// stands for the new location.
#[derive(Debug)]
pub struct References {
    pub entries: Vec<Reference>,
}

/// The table that a sequence of lines makes: each line sets its label, later
/// lines over earlier ones.
pub open spec fn table_of(entries: Seq<(Seq<char>, Seq<char>)>) -> Map<Seq<char>, Seq<char>>
    decreases entries.len(),
{
    if entries.len() == 0 {
        Map::empty()
    } else {
        table_of(entries.drop_last()).insert(entries.last().0, entries.last().1)
    }
}

impl References {
    /// The lines of the table as pairs of label and location.
    pub open spec fn lines(&self) -> Seq<(Seq<char>, Seq<char>)> {
        Seq::new(
            self.entries.len() as nat,
            |i: int| (self.entries[i].label@, self.entries[i].location@),
        )
    }
}

impl View for References {
    type V = Map<Seq<char>, Seq<char>>;

    open spec fn view(&self) -> Map<Seq<char>, Seq<char>> {
        table_of(self.lines())
    }
}

impl DeepView for References {
    type V = Map<Seq<char>, Seq<char>>;

    open spec fn deep_view(&self) -> Map<Seq<char>, Seq<char>> {
        self@
    }
}

impl References {
    /// The empty table.
    pub fn new() -> (table: References)
        ensures
            table@ == Map::<Seq<char>, Seq<char>>::empty(),
    {
        let table = References { entries: Vec::new() };
        table
    }

    /// Sets the location that a label stands for.
    pub fn insert(&mut self, label: String, location: String)
        ensures
            final(self)@ == old(self)@.insert(label@, location@),
    {
        let ghost before = self.lines();
        self.entries.push(Reference { label, location });
        assert(self.lines().drop_last() =~= before);
    }

    /// The location that a label stands for, if the table holds the label.
    pub fn get(&self, label: &str) -> (location: Option<&String>)
        ensures
            location is Some <==> self@.contains_key(label@),
            location matches Some(l) ==> l@ == self@[label@],
    {
        let wanted: String = label.to_owned();
        let mut i: usize = self.entries.len();
        assert(self.lines().take(i as int) =~= self.lines());
        while i > 0
            invariant
                i <= self.entries.len(),
                wanted@ == label@,
                table_of(self.lines()).contains_key(label@) <==> table_of(
                    self.lines().take(i as int),
                ).contains_key(label@),
                table_of(self.lines()).contains_key(label@) ==> table_of(self.lines())[label@]
                    == table_of(self.lines().take(i as int))[label@],
            decreases i,
        {
            let ghost upto = self.lines().take(i as int);
            assert(upto.drop_last() =~= self.lines().take(i - 1));
            if self.entries[i - 1].label.eq(&wanted) {
                return Some(&self.entries[i - 1].location);
            }
            i -= 1;
        }
        None
    }
}

/// A document after parsing.
#[derive(Debug)]
pub struct Markup {
    /// The blocks of the document, in order.
    pub tokens: Vec<Token>,
    /// The table of the document's reference links.
    pub references: References,
}

/// The mathematical value of a [`Markup`].
pub struct MarkupView {
    pub tokens: Seq<TokenView>,
    pub references: Map<Seq<char>, Seq<char>>,
}

impl View for Markup {
    type V = MarkupView;

    open spec fn view(&self) -> MarkupView {
        MarkupView { tokens: self.tokens.deep_view(), references: self.references@ }
    }
}

impl DeepView for Markup {
    type V = MarkupView;

    open spec fn deep_view(&self) -> MarkupView {
        self@
    }
}

} // verus!
