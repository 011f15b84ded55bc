//! Paths as sequences of components.
//!
//! A [`SitePath`] holds a path in the form in which two paths are compared:
//! component by component. Text becomes a path through [`SitePath::parse`] and
//! a path becomes text again through [`SitePath::to_text`]; everything between
//! the two is arithmetic on sequences.

use camino::{Utf8Component, Utf8Path, Utf8PathBuf};
use vstd::prelude::*;

verus! {

/// One component of a path.
#[derive(Debug)]
pub enum Part {
    /// A volume or share in front of the root; only Windows paths have one.
    Prefix(String),
    /// The root directory.
    Root,
    /// The current directory, `.`.
    Current,
    /// The parent directory, `..`.
    Parent,
    /// The name of a file or directory.
    Normal(String),
}

/// The mathematical value of a [`Part`].
pub enum PartView {
    Prefix(Seq<char>),
    Root,
    Current,
    Parent,
    Normal(Seq<char>),
}

impl View for Part {
    type V = PartView;

    open spec fn view(&self) -> PartView {
        match self {
            Part::Prefix(s) => PartView::Prefix(s@),
            Part::Root => PartView::Root,
            Part::Current => PartView::Current,
            Part::Parent => PartView::Parent,
            Part::Normal(s) => PartView::Normal(s@),
        }
    }
}

impl DeepView for Part {
    type V = PartView;

    open spec fn deep_view(&self) -> PartView {
        self@
    }
}

impl Clone for Part {
    fn clone(&self) -> (copy: Self)
        ensures
            copy@ == self@,
    {
        match self {
            Part::Prefix(s) => Part::Prefix(s.clone()),
            Part::Root => Part::Root,
            Part::Current => Part::Current,
            Part::Parent => Part::Parent,
            Part::Normal(s) => Part::Normal(s.clone()),
        }
    }
}

/// The text that stands for a component inside a path.
pub open spec fn part_text(part: PartView) -> Seq<char> {
    match part {
        PartView::Prefix(s) => s,
        PartView::Root => "/"@,
        PartView::Current => "."@,
        PartView::Parent => ".."@,
        PartView::Normal(s) => s,
    }
}

/// The texts of all components of a path, in order.
pub open spec fn part_texts(parts: Seq<PartView>) -> Seq<Seq<char>> {
    Seq::new(parts.len(), |i: int| part_text(parts[i]))
}

impl Part {
    /// Whether two components are the same component.
    pub fn same(&self, other: &Part) -> (equal: bool)
        ensures
            equal == (self@ == other@),
    {
        match (self, other) {
            (Part::Prefix(a), Part::Prefix(b)) => a.eq(b),
            (Part::Root, Part::Root) => true,
            (Part::Current, Part::Current) => true,
            (Part::Parent, Part::Parent) => true,
            (Part::Normal(a), Part::Normal(b)) => a.eq(b),
            _ => false,
        }
    }

    /// The text that stands for this component inside a path.
    pub fn text(&self) -> (text: String)
        ensures
            text@ == part_text(self@),
    {
        match self {
            Part::Prefix(s) => s.clone(),
            Part::Root => "/".to_owned(),
            Part::Current => ".".to_owned(),
            Part::Parent => "..".to_owned(),
            Part::Normal(s) => s.clone(),
        }
    }
}

/// The components that `camino` finds in a path given as text.
pub uninterp spec fn path_components(text: Seq<char>) -> Seq<PartView>;

/// The text of the path that `camino` builds by pushing the given pieces, one
/// after the other, onto an empty path.
pub uninterp spec fn joined_text(pieces: Seq<Seq<char>>) -> Seq<char>;

/// The stem that `camino` finds in a path given as text: its file name
/// without the extension, if it has a file name.
pub uninterp spec fn stem_of(text: Seq<char>) -> Option<Seq<char>>;

/// The text of the path that `camino` builds from a path given as text by
/// replacing the extension of its file name.
pub uninterp spec fn with_extension_text(text: Seq<char>, extension: Seq<char>) -> Seq<char>;

/// The text of a path given as text after `camino` has set the extension of
/// its file name.
pub uninterp spec fn set_extension_text(text: Seq<char>, extension: Seq<char>) -> Seq<char>;

/// Whether a text is the name of a file or directory and nothing else: it is
/// not empty, it is neither `.` nor `..`, and it holds no separator and no
/// colon.
pub open spec fn is_plain_name(text: Seq<char>) -> bool {
    &&& text.len() > 0
    &&& text != seq!['.']
    &&& text != seq!['.', '.']
    &&& forall|i: int|
        0 <= i < text.len() ==> text[i] != '/' && text[i] != '\\' && text[i] != ':'
}

/// Where the last dot of a text stands; -1 where the text has no dot.
pub open spec fn last_dot(text: Seq<char>) -> int
    decreases text.len(),
{
    if text.len() == 0 {
        -1
    } else if text.last() == '.' {
        text.len() - 1
    } else {
        last_dot(text.drop_last())
    }
}

/// The stem of a name: the name itself where it has no dot, or no dot but a
/// leading one; otherwise what stands before its last dot.
pub open spec fn stem_rule(name: Seq<char>) -> Seq<char> {
    if last_dot(name) <= 0 {
        name
    } else {
        name.take(last_dot(name))
    }
}

/// A name with its extension replaced: the stem of the name, and behind it a
/// dot and the extension, where the extension is not empty.
pub open spec fn renamed_rule(name: Seq<char>, extension: Seq<char>) -> Seq<char> {
    if extension.len() == 0 {
        stem_rule(name)
    } else {
        stem_rule(name) + seq!['.'] + extension
    }
}

/// The stem of the last component of a path: for a plain name the stem by the
/// rule, for any other text what `camino` finds.
pub open spec fn stem_of_name(name: Seq<char>) -> Option<Seq<char>> {
    if is_plain_name(name) {
        Some(stem_rule(name))
    } else {
        stem_of(name)
    }
}

/// Whether a name starts with two dots.
pub open spec fn starts_with_dots(name: Seq<char>) -> bool {
    name.len() >= 2 && name[0] == '.' && name[1] == '.'
}

/// The last component of a path with its extension replaced: by the rule for
/// a plain name that does not start with two dots, for any other text what
/// `camino` builds.
pub open spec fn replaced_name(name: Seq<char>, extension: Seq<char>) -> Seq<char> {
    if is_plain_name(name) && !starts_with_dots(name) {
        renamed_rule(name, extension)
    } else {
        with_extension_text(name, extension)
    }
}

/// The last component of a path after its extension has been set: for a
/// plain name by the rule, for any other text what `camino` makes of it.
pub open spec fn renamed_name(name: Seq<char>, extension: Seq<char>) -> Seq<char> {
    if is_plain_name(name) {
        renamed_rule(name, extension)
    } else {
        set_extension_text(name, extension)
    }
}

/// Whether a text is free of the characters that separate components.
pub open spec fn separator_free(text: Seq<char>) -> bool {
    forall|i: int| 0 <= i < text.len() ==> text[i] != '/' && text[i] != '\\'
}

/// `Utf8Path::components`: splits a path into its components. The result is
/// named, not described: the rules by which separators, `.` and trailing
/// slashes are read are camino's own.
#[verifier::external_body]
fn split_components(text: &str) -> (parts: Vec<Part>)
    ensures
        parts.deep_view() == path_components(text@),
{
    Utf8Path::new(text).components().map(|c| match c {
        Utf8Component::Prefix(p) => Part::Prefix(p.as_str().to_owned()),
        Utf8Component::RootDir => Part::Root,
        Utf8Component::CurDir => Part::Current,
        Utf8Component::ParentDir => Part::Parent,
        Utf8Component::Normal(s) => Part::Normal(s.to_owned()),
    }).collect()
}

/// `Utf8PathBuf`'s `FromIterator`: pushes each piece onto an empty path. The
/// text of the path that results is named, not described.
#[verifier::external_body]
fn join_pieces(pieces: &Vec<String>) -> (text: String)
    ensures
        text@ == joined_text(pieces.deep_view()),
{
    pieces.iter().collect::<Utf8PathBuf>().into_string()
}

/// `Utf8Path::file_stem`: the file name of a path without its extension. Of
/// a plain name that is the name itself where it has no dot, or no dot but a
/// leading one, and otherwise what stands before its last dot. Of any other
/// text the result is named, not described.
#[verifier::external_body]
fn file_stem_text(text: &str) -> (stem: Option<String>)
    ensures
        stem.deep_view() == stem_of(text@),
        is_plain_name(text@) ==> stem.deep_view() == Some(stem_rule(text@)),
{
    Utf8Path::new(text).file_stem().map(|s| s.to_owned())
}

/// `Utf8Path::with_extension`: a copy of a path with the extension of its
/// file name replaced. A plain name that does not start with two dots becomes
/// its stem, and behind it a dot and the extension, where the extension is
/// not empty. Of any other text the result is named, not described: on names
/// such as `..a` it is not what setting the extension gives. The standard
/// library refuses an extension that holds a separator, so such an extension
/// is not admitted.
#[verifier::external_body]
fn replace_extension_text(text: &str, extension: &str) -> (renamed: String)
    requires
        separator_free(extension@),
    ensures
        renamed@ == with_extension_text(text@, extension@),
        is_plain_name(text@) && !starts_with_dots(text@) ==> renamed@ == renamed_rule(
            text@,
            extension@,
        ),
{
    Utf8Path::new(text).with_extension(extension).into_string()
}

/// `Utf8PathBuf::set_extension`: sets the extension of the file name of a
/// path. A plain name becomes its stem, and behind it a dot and the
/// extension, where the extension is not empty. Of any other text the result
/// is named, not described. The standard library refuses an extension that
/// holds a separator, so such an extension is not admitted.
#[verifier::external_body]
fn update_extension_text(text: &str, extension: &str) -> (renamed: String)
    requires
        separator_free(extension@),
    ensures
        renamed@ == set_extension_text(text@, extension@),
        is_plain_name(text@) ==> renamed@ == renamed_rule(text@, extension@),
{
    let mut path = Utf8PathBuf::from(text);
    path.set_extension(extension);
    path.into_string()
}

/// A path, held as the sequence of its components.
#[derive(Debug)]
pub struct SitePath {
    pub parts: Vec<Part>,
}

impl View for SitePath {
    type V = Seq<PartView>;

    open spec fn view(&self) -> Seq<PartView> {
        self.parts.deep_view()
    }
}

impl DeepView for SitePath {
    type V = Seq<PartView>;

    open spec fn deep_view(&self) -> Seq<PartView> {
        self@
    }
}

/// Whether a path can lose its last component: it has one, and that one is
/// neither a root nor a prefix.
pub open spec fn has_parent(path: Seq<PartView>) -> bool {
    path.len() > 0 && !(path.last() is Root) && !(path.last() is Prefix)
}

/// Whether a path starts at a root or a prefix, so that joining it onto
/// another path replaces that path.
pub open spec fn is_anchored(path: Seq<PartView>) -> bool {
    path.len() > 0 && (path[0] is Root || path[0] is Prefix)
}

/// The path that results from joining `tail` onto `head`. An anchored tail
/// replaces the head; a leading `.` of the tail vanishes behind a head that
/// is not empty.
pub open spec fn join_spec(head: Seq<PartView>, tail: Seq<PartView>) -> Seq<PartView> {
    if is_anchored(tail) || head.len() == 0 {
        tail
    } else if tail.len() > 0 && tail[0] is Current {
        head + tail.skip(1)
    } else {
        head + tail
    }
}

/// The stem of a path: that of its last component, if that is a name.
pub open spec fn stem_spec(path: Seq<PartView>) -> Option<Seq<char>> {
    if path.len() > 0 && path.last() is Normal {
        stem_of_name(path.last()->Normal_0)
    } else {
        None
    }
}

/// The name of a path: its last component, if that is a name.
pub open spec fn name_spec(path: Seq<PartView>) -> Option<Seq<char>> {
    if path.len() > 0 && path.last() is Normal {
        Some(path.last()->Normal_0)
    } else {
        None
    }
}

/// A path with the extension of its last component replaced, if that
/// component is a name; the path itself otherwise.
pub open spec fn with_extension_spec(path: Seq<PartView>, extension: Seq<char>) -> Seq<PartView> {
    if path.len() > 0 && path.last() is Normal {
        path.drop_last().push(
            PartView::Normal(replaced_name(path.last()->Normal_0, extension)),
        )
    } else {
        path
    }
}

/// A path after the extension of its last component has been set, if that
/// component is a name; the path itself otherwise.
pub open spec fn set_extension_spec(path: Seq<PartView>, extension: Seq<char>) -> Seq<PartView> {
    if path.len() > 0 && path.last() is Normal {
        path.drop_last().push(PartView::Normal(renamed_name(path.last()->Normal_0, extension)))
    } else {
        path
    }
}

impl Clone for SitePath {
    fn clone(&self) -> (copy: Self)
        ensures
            copy@ == self@,
    {
        let mut parts: Vec<Part> = Vec::new();
        let mut i: usize = 0;
        while i < self.parts.len()
            invariant
                i <= self.parts.len(),
                parts.len() == i,
                forall|k: int| 0 <= k < i ==> parts[k]@ == self.parts[k]@,
            decreases self.parts.len() - i,
        {
            parts.push(self.parts[i].clone());
            i += 1;
        }
        SitePath { parts }
    }
}

impl SitePath {
    /// The empty path.
    pub fn new() -> (path: SitePath)
        ensures
            path@ == Seq::<PartView>::empty(),
    {
        let path = SitePath { parts: Vec::new() };
        path
    }

    /// The path that consists of the given components.
    pub fn from_parts(parts: Vec<Part>) -> (path: SitePath)
        ensures
            path@ == parts.deep_view(),
    {
        SitePath { parts }
    }

    /// The path `.`, which marks the place where one already is.
    pub fn current() -> (path: SitePath)
        ensures
            path@ == seq![PartView::Current],
    {
        let mut parts: Vec<Part> = Vec::new();
        parts.push(Part::Current);
        let path = SitePath { parts };
        path
    }

    /// Reads a path from text.
    pub fn parse(text: &str) -> (path: SitePath)
        ensures
            path@ == path_components(text@),
    {
        SitePath { parts: split_components(text) }
    }

    /// Writes the path as text.
    pub fn to_text(&self) -> (text: String)
        ensures
            text@ == joined_text(part_texts(self@)),
    {
        let mut pieces: Vec<String> = Vec::new();
        let mut i: usize = 0;
        while i < self.parts.len()
            invariant
                i <= self.parts.len(),
                pieces.len() == i,
                forall|k: int| 0 <= k < i ==> pieces[k]@ == part_text(self.parts[k]@),
            decreases self.parts.len() - i,
        {
            pieces.push(self.parts[i].text());
            i += 1;
        }
        assert(pieces.deep_view() =~= part_texts(self@));
        join_pieces(&pieces)
    }

    /// How many components the path has.
    pub fn depth(&self) -> (depth: usize)
        ensures
            depth == self@.len(),
    {
        self.parts.len()
    }

    /// Whether two paths have the same components.
    pub fn same(&self, other: &SitePath) -> (equal: bool)
        ensures
            equal == (self@ == other@),
    {
        if self.parts.len() != other.parts.len() {
            assert(self@.len() != other@.len());
            return false;
        }
        let mut i: usize = 0;
        while i < self.parts.len()
            invariant
                i <= self.parts.len(),
                self.parts.len() == other.parts.len(),
                forall|k: int| 0 <= k < i ==> self@[k] == other@[k],
            decreases self.parts.len() - i,
        {
            if !self.parts[i].same(&other.parts[i]) {
                assert(self@[i as int] != other@[i as int]);
                return false;
            }
            i += 1;
        }
        assert(self@ =~= other@);
        true
    }

    /// Whether `base` is a prefix of the path, whole components only.
    pub fn starts_with(&self, base: &SitePath) -> (found: bool)
        ensures
            found == base@.is_prefix_of(self@),
    {
        if base.parts.len() > self.parts.len() {
            return false;
        }
        let mut i: usize = 0;
        while i < base.parts.len()
            invariant
                i <= base.parts.len(),
                base.parts.len() <= self.parts.len(),
                forall|k: int| 0 <= k < i ==> self@[k] == base@[k],
            decreases base.parts.len() - i,
        {
            if !self.parts[i].same(&base.parts[i]) {
                assert(self@.subrange(0, base@.len() as int)[i as int] != base@[i as int]);
                return false;
            }
            i += 1;
        }
        true
    }

    /// Whether `child` is a suffix of the path, whole components only.
    pub fn ends_with(&self, child: &SitePath) -> (found: bool)
        ensures
            found == child@.is_suffix_of(self@),
    {
        if child.parts.len() > self.parts.len() {
            return false;
        }
        let offset: usize = self.parts.len() - child.parts.len();
        let mut i: usize = 0;
        while i < child.parts.len()
            invariant
                i <= child.parts.len(),
                child.parts.len() <= self.parts.len(),
                offset == self.parts.len() - child.parts.len(),
                forall|k: int| 0 <= k < i ==> self@[offset + k] == child@[k],
            decreases child.parts.len() - i,
        {
            if !self.parts[offset + i].same(&child.parts[i]) {
                assert(self@.subrange(offset as int, self@.len() as int)[i as int]
                    != child@[i as int]);
                return false;
            }
            i += 1;
        }
        true
    }

    /// What is left of the path behind `base`, if `base` is a prefix of it.
    pub fn strip_prefix(&self, base: &SitePath) -> (rest: Option<SitePath>)
        ensures
            rest is Some <==> base@.is_prefix_of(self@),
            rest matches Some(r) ==> r@ == self@.skip(base@.len() as int),
    {
        if !self.starts_with(base) {
            return None;
        }
        let mut parts: Vec<Part> = Vec::new();
        let mut i: usize = base.parts.len();
        while i < self.parts.len()
            invariant
                base.parts.len() <= i <= self.parts.len(),
                parts.len() == i - base.parts.len(),
                forall|k: int| 0 <= k < parts.len() ==> parts[k]@ == self@[base.parts.len() + k],
            decreases self.parts.len() - i,
        {
            parts.push(self.parts[i].clone());
            i += 1;
        }
        let rest = SitePath { parts };
        Some(rest)
    }

    /// Removes the last component, unless the path is empty or ends in a root
    /// or a prefix. Says whether it did.
    pub fn pop(&mut self) -> (popped: bool)
        ensures
            popped == has_parent(old(self)@),
            popped ==> final(self)@ == old(self)@.drop_last(),
            !popped ==> final(self)@ == old(self)@,
    {
        let n: usize = self.parts.len();
        if n == 0 {
            return false;
        }
        match &self.parts[n - 1] {
            Part::Root => {
                return false;
            },
            Part::Prefix(_) => {
                return false;
            },
            _ => {},
        }
        self.parts.pop();
        true
    }

    /// The path without its last component, where [`SitePath::pop`] would
    /// remove one.
    pub fn parent(&self) -> (parent: Option<SitePath>)
        ensures
            parent is Some <==> has_parent(self@),
            parent matches Some(p) ==> p@ == self@.drop_last(),
    {
        let mut copy = self.clone();
        if copy.pop() {
            Some(copy)
        } else {
            None
        }
    }

    /// Appends one component.
    pub fn push_part(&mut self, part: Part)
        ensures
            final(self)@ == old(self)@.push(part@),
    {
        self.parts.push(part);
    }

    /// Joins `tail` onto the path.
    pub fn push(&mut self, tail: &SitePath)
        ensures
            final(self)@ == join_spec(old(self)@, tail@),
    {
        let mut start: usize = 0;
        if tail.parts.len() > 0 {
            match &tail.parts[0] {
                Part::Root => {
                    self.parts = Vec::new();
                },
                Part::Prefix(_) => {
                    self.parts = Vec::new();
                },
                Part::Current => {
                    if self.parts.len() > 0 {
                        start = 1;
                    }
                },
                _ => {},
            }
        }
        let ghost head = self@;
        let mut i: usize = start;
        while i < tail.parts.len()
            invariant
                start <= i <= tail.parts.len() || (tail.parts.len() == 0 && i == 0),
                self@ == head + tail@.subrange(start as int, i as int),
            decreases tail.parts.len() - i,
        {
            let ghost prev = self@;
            self.parts.push(tail.parts[i].clone());
            assert(self@ =~= prev.push(tail@[i as int]));
            i += 1;
        }
    }

    /// The path with `tail` joined onto it.
    pub fn join(&self, tail: &SitePath) -> (joined: SitePath)
        ensures
            joined@ == join_spec(self@, tail@),
    {
        let mut joined = self.clone();
        joined.push(tail);
        joined
    }

    /// The last component, if it is a name.
    pub fn file_name(&self) -> (name: Option<String>)
        ensures
            name.deep_view() == name_spec(self@),
    {
        let n: usize = self.parts.len();
        if n == 0 {
            return None;
        }
        match &self.parts[n - 1] {
            Part::Normal(s) => Some(s.clone()),
            _ => None,
        }
    }

    /// The last component without its extension, if it is a name.
    pub fn file_stem(&self) -> (stem: Option<String>)
        ensures
            stem.deep_view() == stem_spec(self@),
    {
        let n: usize = self.parts.len();
        if n == 0 {
            return None;
        }
        match &self.parts[n - 1] {
            Part::Normal(s) => file_stem_text(s.as_str()),
            _ => None,
        }
    }

    /// Sets the extension of the last component, if that is a name. Says
    /// whether it did.
    pub fn set_extension(&mut self, extension: &str) -> (changed: bool)
        requires
            separator_free(extension@),
        ensures
            changed == (name_spec(old(self)@) is Some),
            final(self)@ == set_extension_spec(old(self)@, extension@),
    {
        let n: usize = self.parts.len();
        if n == 0 {
            return false;
        }
        let renamed = match &self.parts[n - 1] {
            Part::Normal(s) => update_extension_text(s.as_str(), extension),
            _ => {
                return false;
            },
        };
        self.parts.pop();
        self.parts.push(Part::Normal(renamed));
        true
    }

    /// The path with the extension of its last component replaced.
    pub fn with_extension(&self, extension: &str) -> (renamed: SitePath)
        requires
            separator_free(extension@),
        ensures
            renamed@ == with_extension_spec(self@, extension@),
    {
        let mut renamed = self.clone();
        let n: usize = renamed.parts.len();
        if n > 0 {
            let name = match &renamed.parts[n - 1] {
                Part::Normal(s) => Some(replace_extension_text(s.as_str(), extension)),
                _ => None,
            };
            match name {
                Some(name) => {
                    renamed.parts.pop();
                    renamed.parts.push(Part::Normal(name));
                },
                None => {},
            }
        }
        assert(renamed@ =~= with_extension_spec(self@, extension@));
        renamed
    }
}

} // verus!
