//! From rendered documents to what goes into the template of each page.

use crate::error::{PathError, SiteError, SiteErrorView};
use crate::path::{has_parent, part_text, set_extension_spec, stem_spec, PartView, SitePath};
use crate::warm::relative::{relative_spec, relativise_path};
use crate::warm::render::path_text;
use crate::warm::site::Environment;
use crate::job::{Warm, WarmView};
use bempline::Document;
use crate::template::{
    add_pattern, added, body_of, compile_template, compiled_text, copies_of, copy_template,
    find_pattern, pattern_body, require_pattern, set_variable, variables_of,
};
use crate::warm::tree::{Content, ContentView, DirectoryView, File, FileView};
use vstd::prelude::*;

verus! {

/// A sequence without what has occurred in it before: of equal items the
/// first one stays.
pub open spec fn dedup_spec<A>(items: Seq<A>) -> Seq<A>
    decreases items.len(),
{
    if items.len() == 0 {
        items
    } else if items.drop_last().contains(items.last()) {
        dedup_spec(items.drop_last())
    } else {
        dedup_spec(items.drop_last()).push(items.last())
    }
}

proof fn lemma_contains_push<A>(front: Seq<A>, last: A, x: A)
    ensures
        front.push(last).contains(x) <==> front.contains(x) || x == last,
{
    let whole = front.push(last);
    if whole.contains(x) {
        let k = choose|k: int| 0 <= k < whole.len() && whole[k] == x;
        if k < front.len() {
            assert(front[k] == x);
        }
    }
    if front.contains(x) {
        let k = choose|k: int| 0 <= k < front.len() && front[k] == x;
        assert(whole[k] == x);
    }
    if x == last {
        assert(whole[front.len() as int] == x);
    }
}

/// What [`dedup_spec`] gives holds the items it was given, each of them once.
pub proof fn lemma_dedup<A>(items: Seq<A>)
    ensures
        forall|x: A| dedup_spec(items).contains(x) <==> items.contains(x),
        dedup_spec(items).no_duplicates(),
    decreases items.len(),
{
    let out = dedup_spec(items);
    if items.len() > 0 {
        let front = items.drop_last();
        let last = items.last();
        lemma_dedup(front);
        assert(front.push(last) =~= items);
        assert forall|x: A| out.contains(x) <==> items.contains(x) by {
            lemma_contains_push(front, last, x);
            lemma_contains_push(dedup_spec(front), last, x);
        }
        if !front.contains(last) {
            assert forall|i: int, j: int| 0 <= i < out.len() && 0 <= j < out.len() && i != j implies out[i]
                != out[j] by {
                if i == out.len() - 1 {
                    assert(dedup_spec(front)[j] == out[j]);
                    assert(dedup_spec(front).contains(out[j]));
                } else if j == out.len() - 1 {
                    assert(dedup_spec(front)[i] == out[i]);
                    assert(dedup_spec(front).contains(out[i]));
                } else {
                    assert(dedup_spec(front)[i] == out[i]);
                    assert(dedup_spec(front)[j] == out[j]);
                }
            }
        }
    }
}

/// Takes out of a list of paths every path that has occurred in it before.
pub fn dedup_paths(paths: &Vec<SitePath>) -> (kept: Vec<SitePath>)
    ensures
        kept.deep_view() == dedup_spec(paths.deep_view()),
{
    let mut kept: Vec<SitePath> = Vec::new();
    let ghost all = paths.deep_view();
    let mut i: usize = 0;
    assert(kept.deep_view() =~= dedup_spec(all.take(0)));
    while i < paths.len()
        invariant
            i <= paths.len(),
            all == paths.deep_view(),
            kept.deep_view() == dedup_spec(all.take(i as int)),
        decreases paths.len() - i,
    {
        let ghost upto = all.take(i + 1);
        assert(upto.drop_last() =~= all.take(i as int));
        assert(upto.last() == paths[i as int]@);
        let mut seen = false;
        let mut j: usize = 0;
        while j < i
            invariant
                j <= i,
                i < paths.len(),
                all == paths.deep_view(),
                seen == exists|k: int| 0 <= k < j && all[k] == all[i as int],
            decreases i - j,
        {
            if paths[j].same(&paths[i]) {
                seen = true;
                assert(all[j as int] == all[i as int]);
            }
            j += 1;
        }
        proof {
            let front = all.take(i as int);
            if seen {
                let k = choose|k: int| 0 <= k < i && all[k] == all[i as int];
                assert(front[k] == all[i as int]);
                assert(front.contains(all[i as int]));
            } else if front.contains(all[i as int]) {
                let k = choose|k: int| 0 <= k < front.len() && front[k] == all[i as int];
                assert(all[k] == all[i as int]);
            }
        }
        if !seen {
            let ghost before = kept.deep_view();
            kept.push(paths[i].clone());
            assert(kept.deep_view() =~= before.push(paths[i as int]@));
        }
        i += 1;
    }
    assert(all.take(paths.len() as int) =~= all);
    kept
}

/// One filled-in copy of a pattern of the template: a link and what it shows.
#[derive(Debug)]
pub struct SlotEntry {
    pub target: String,
    pub name: String,
}

/// The mathematical value of a [`SlotEntry`].
pub struct SlotEntryView {
    pub target: Seq<char>,
    pub name: Seq<char>,
}

impl View for SlotEntry {
    type V = SlotEntryView;

    open spec fn view(&self) -> SlotEntryView {
        SlotEntryView { target: self.target@, name: self.name@ }
    }
}

impl DeepView for SlotEntry {
    type V = SlotEntryView;

    open spec fn deep_view(&self) -> SlotEntryView {
        self@
    }
}

/// What goes into the template for one page.
#[derive(Debug)]
pub struct Page {
    /// Where the page is written to.
    pub outpath: SitePath,
    /// The rendered document.
    pub content: String,
    /// The documents that refer to this one.
    pub backlinks: Vec<SlotEntry>,
    /// The documents that stand beside this one.
    pub friends: Vec<SlotEntry>,
}

/// The mathematical value of a [`Page`].
pub struct PageView {
    pub outpath: Seq<PartView>,
    pub content: Seq<char>,
    pub backlinks: Seq<SlotEntryView>,
    pub friends: Seq<SlotEntryView>,
}

impl View for Page {
    type V = PageView;

    open spec fn view(&self) -> PageView {
        PageView {
            outpath: self.outpath@,
            content: self.content@,
            backlinks: self.backlinks.deep_view(),
            friends: self.friends.deep_view(),
        }
    }
}

impl DeepView for Page {
    type V = PageView;

    open spec fn deep_view(&self) -> PageView {
        self@
    }
}

/// Whether one directory lies directly in another.
pub open spec fn is_child_dir(child: DirectoryView, dir: DirectoryView) -> bool {
    has_parent(child.paths.inpath) && child.paths.inpath.drop_last() == dir.paths.inpath
}

/// Where the plain documents of a directory are written to, in order.
pub open spec fn member_outpaths(files: Seq<FileView>) -> Seq<Seq<PartView>> {
    Seq::new(files.len(), |i: int| files[i].paths.outpath)
}

/// Where the documents are written to that stand for the directories which
/// lie directly in `dir`, in the order of the site.
pub open spec fn child_outpaths(site: Seq<DirectoryView>, dir: DirectoryView) -> Seq<
    Seq<PartView>,
>
    decreases site.len(),
{
    if site.len() == 0 {
        Seq::empty()
    } else if site.last().dirfile is Some && is_child_dir(site.last(), dir) {
        child_outpaths(site.drop_last(), dir).push(site.last().dirfile->0.paths.outpath)
    } else {
        child_outpaths(site.drop_last(), dir)
    }
}

/// Where the friends of the documents of a directory are written to: the
/// plain documents of the directory, the document that stands for it, and the
/// documents that stand for the directories directly in it.
pub open spec fn friend_outpaths(site: Seq<DirectoryView>, dir: DirectoryView) -> Seq<
    Seq<PartView>,
> {
    let own = if dir.dirfile is Some {
        seq![dir.dirfile->0.paths.outpath]
    } else {
        Seq::empty()
    };
    member_outpaths(dir.files) + own + child_outpaths(site, dir)
}

/// The paths as they are seen from `root`, if all of them lie under it.
pub open spec fn seen_from(paths: Seq<Seq<PartView>>, root: Seq<PartView>) -> Result<
    Seq<Seq<PartView>>,
    PathError,
> {
    if forall|i: int| 0 <= i < paths.len() ==> root.is_prefix_of(#[trigger] paths[i]) {
        Ok(Seq::new(paths.len(), |i: int| paths[i].skip(root.len() as int)))
    } else {
        Err(PathError::OutsideRoot)
    }
}

/// The friends of the documents of a directory, as they are seen from the
/// root that the site is written to.
pub open spec fn friends_spec(
    site: Seq<DirectoryView>,
    dir: DirectoryView,
    outdir: Seq<PartView>,
) -> Result<Seq<Seq<PartView>>, PathError> {
    seen_from(friend_outpaths(site, dir), outdir)
}

/// What stands in the template for a backlink of the given document: the
/// path as a link, and the name of the document it leads to without its
/// extension. The marker `.` leads to the document itself.
pub open spec fn backlink_entry(file: FileView, backlink: Seq<PartView>) -> Result<
    SlotEntryView,
    PathError,
> {
    let name = if backlink == seq![PartView::Current] {
        stem_spec(file.paths.outpath)
    } else {
        stem_spec(backlink)
    };
    match name {
        Some(name) => Ok(SlotEntryView { target: path_text(backlink), name }),
        None => Err(PathError::NoFileName),
    }
}

/// What stands in the template for the backlinks of a document, in order, up
/// to the first that has no name.
pub open spec fn backlink_entries(file: FileView, backlinks: Seq<Seq<PartView>>) -> Result<
    Seq<SlotEntryView>,
    PathError,
>
    decreases backlinks.len(),
{
    if backlinks.len() == 0 {
        Ok(Seq::empty())
    } else {
        match backlink_entries(file, backlinks.drop_last()) {
            Err(error) => Err(error),
            Ok(front) => match backlink_entry(file, backlinks.last()) {
                Err(error) => Err(error),
                Ok(entry) => Ok(front.push(entry)),
            },
        }
    }
}

/// What stands in the template for a friend of the document that is seen at
/// `seat` from the root: the path from the document to the friend as a link,
/// and the friend's last component without its extension.
pub open spec fn friend_entry(seat: Seq<PartView>, friend: Seq<PartView>) -> Result<
    SlotEntryView,
    PathError,
> {
    match relative_spec(seat, friend) {
        Err(error) => Err(error),
        Ok(there) => if friend.len() == 0 {
            Err(PathError::NoFileName)
        } else {
            Ok(
                SlotEntryView {
                    target: path_text(there),
                    name: part_text(set_extension_spec(friend, Seq::empty()).last()),
                },
            )
        },
    }
}

/// What stands in the template for the friends of a document, in order and
/// without the document itself, up to the first that fails.
pub open spec fn friend_entries(seat: Seq<PartView>, friends: Seq<Seq<PartView>>) -> Result<
    Seq<SlotEntryView>,
    PathError,
>
    decreases friends.len(),
{
    if friends.len() == 0 {
        Ok(Seq::empty())
    } else {
        match friend_entries(seat, friends.drop_last()) {
            Err(error) => Err(error),
            Ok(front) => if friends.last() == seat {
                Ok(front)
            } else {
                match friend_entry(seat, friends.last()) {
                    Err(error) => Err(error),
                    Ok(entry) => Ok(front.push(entry)),
                }
            },
        }
    }
}

/// What goes into the template for a rendered document with the given
/// friends, for a site that is written to `outdir`.
pub open spec fn page_spec(
    file: FileView,
    friends: Seq<Seq<PartView>>,
    outdir: Seq<PartView>,
) -> Result<PageView, PathError> {
    match backlink_entries(file, dedup_spec(file.backlinks)) {
        Err(error) => Err(error),
        Ok(backlinks) => if !outdir.is_prefix_of(file.paths.outpath) {
            Err(PathError::OutsideRoot)
        } else {
            match friend_entries(file.paths.outpath.skip(outdir.len() as int), friends) {
                Err(error) => Err(error),
                Ok(friends) => Ok(
                    PageView {
                        outpath: file.paths.outpath,
                        content: file.content->0->IncompleteHtml_0,
                        backlinks,
                        friends,
                    },
                ),
            }
        },
    }
}

/// Whether a document has been rendered.
pub open spec fn is_rendered(file: FileView) -> bool {
    file.content matches Some(ContentView::IncompleteHtml(_))
}

fn make_backlink_entry(file: &File, backlink: &SitePath) -> (made: Result<SlotEntry, PathError>)
    ensures
        match made {
            Ok(entry) => backlink_entry(file@, backlink@) == Ok::<SlotEntryView, PathError>(entry@),
            Err(error) => backlink_entry(file@, backlink@) == Err::<SlotEntryView, PathError>(
                error,
            ),
        },
{
    let marker = SitePath::current();
    let name = if backlink.same(&marker) {
        file.paths.outpath.file_stem()
    } else {
        backlink.file_stem()
    };
    match name {
        Some(name) => Ok(SlotEntry { target: backlink.to_text(), name }),
        None => Err(PathError::NoFileName),
    }
}

fn make_friend_entry(seat: &SitePath, friend: &SitePath) -> (made: Result<SlotEntry, PathError>)
    ensures
        match made {
            Ok(entry) => friend_entry(seat@, friend@) == Ok::<SlotEntryView, PathError>(entry@),
            Err(error) => friend_entry(seat@, friend@) == Err::<SlotEntryView, PathError>(error),
        },
{
    let there = match relativise_path(seat, friend) {
        Ok(there) => there,
        Err(error) => {
            return Err(error);
        },
    };
    if friend.parts.len() == 0 {
        assert(friend@.len() == 0);
        return Err(PathError::NoFileName);
    }
    proof {
        reveal_strlit("");
    }
    assert(""@ =~= Seq::<char>::empty());
    let mut bare = friend.clone();
    bare.set_extension("");
    assert(bare@.len() > 0);
    let name = bare.parts[bare.parts.len() - 1].text();
    Ok(SlotEntry { target: there.to_text(), name })
}

/// Works out what goes into the template for a rendered document with the
/// given friends.
pub fn make_page(file: &File, friends: &Vec<SitePath>, outdir: &SitePath) -> (made: Result<
    Page,
    PathError,
>)
    requires
        is_rendered(file@),
    ensures
        match made {
            Ok(page) => page_spec(file@, friends.deep_view(), outdir@) == Ok::<PageView, PathError>(
                page@,
            ),
            Err(error) => page_spec(file@, friends.deep_view(), outdir@) == Err::<
                PageView,
                PathError,
            >(error),
        },
{
    let content = match &file.content {
        Some(Content::IncompleteHtml(html)) => html.clone(),
        _ => {
            assert(false);
            String::new()
        },
    };
    let kept = dedup_paths(&file.backlinks);
    let ghost wanted = kept.deep_view();
    let mut backlinks: Vec<SlotEntry> = Vec::new();
    let mut i: usize = 0;
    assert(backlinks.deep_view() =~= Seq::<SlotEntryView>::empty());
    assert(wanted.take(0) =~= Seq::<Seq<PartView>>::empty());
    while i < kept.len()
        invariant
            i <= kept.len(),
            wanted == kept.deep_view(),
            wanted == dedup_spec(file@.backlinks),
            backlink_entries(file@, wanted.take(i as int)) == Ok::<Seq<SlotEntryView>, PathError>(
                backlinks.deep_view(),
            ),
        decreases kept.len() - i,
    {
        assert(wanted.take(i + 1).drop_last() =~= wanted.take(i as int));
        assert(wanted.take(i + 1).last() == kept[i as int]@);
        match make_backlink_entry(file, &kept[i]) {
            Ok(entry) => {
                let ghost before = backlinks.deep_view();
                backlinks.push(entry);
                assert(backlinks.deep_view() =~= before.push(entry@));
            },
            Err(error) => {
                proof {
                    lemma_backlinks_failed(file@, wanted, i + 1);
                }
                return Err(error);
            },
        }
        i += 1;
    }
    assert(wanted.take(kept.len() as int) =~= wanted);
    let seat = match file.paths.outpath.strip_prefix(outdir) {
        Some(seat) => seat,
        None => {
            return Err(PathError::OutsideRoot);
        },
    };
    let ghost others = friends.deep_view();
    let mut entries: Vec<SlotEntry> = Vec::new();
    let mut j: usize = 0;
    assert(entries.deep_view() =~= Seq::<SlotEntryView>::empty());
    assert(others.take(0) =~= Seq::<Seq<PartView>>::empty());
    while j < friends.len()
        invariant
            j <= friends.len(),
            others == friends.deep_view(),
            backlink_entries(file@, dedup_spec(file@.backlinks)) is Ok,
            outdir@.is_prefix_of(file@.paths.outpath),
            seat@ == file@.paths.outpath.skip(outdir@.len() as int),
            friend_entries(seat@, others.take(j as int)) == Ok::<Seq<SlotEntryView>, PathError>(
                entries.deep_view(),
            ),
        decreases friends.len() - j,
    {
        assert(others.take(j + 1).drop_last() =~= others.take(j as int));
        assert(others.take(j + 1).last() == friends[j as int]@);
        if !friends[j].same(&seat) {
            match make_friend_entry(&seat, &friends[j]) {
                Ok(entry) => {
                    let ghost before = entries.deep_view();
                    entries.push(entry);
                    assert(entries.deep_view() =~= before.push(entry@));
                },
                Err(error) => {
                    proof {
                        lemma_friends_failed(seat@, others, j + 1);
                    }
                    return Err(error);
                },
            }
        }
        j += 1;
    }
    assert(others.take(friends.len() as int) =~= others);
    Ok(Page { outpath: file.paths.outpath.clone(), content, backlinks, friends: entries })
}

/// Once a backlink has no name, those behind it change nothing.
pub proof fn lemma_backlinks_failed(file: FileView, backlinks: Seq<Seq<PartView>>, upto: int)
    requires
        0 <= upto <= backlinks.len(),
        backlink_entries(file, backlinks.take(upto)) is Err,
    ensures
        backlink_entries(file, backlinks) == backlink_entries(file, backlinks.take(upto)),
    decreases backlinks.len() - upto,
{
    if upto < backlinks.len() {
        assert(backlinks.take(upto + 1).drop_last() =~= backlinks.take(upto));
        lemma_backlinks_failed(file, backlinks, upto + 1);
    } else {
        assert(backlinks.take(upto) =~= backlinks);
    }
}

/// Once a friend has failed, those behind it change nothing.
pub proof fn lemma_friends_failed(seat: Seq<PartView>, friends: Seq<Seq<PartView>>, upto: int)
    requires
        0 <= upto <= friends.len(),
        friend_entries(seat, friends.take(upto)) is Err,
    ensures
        friend_entries(seat, friends) == friend_entries(seat, friends.take(upto)),
    decreases friends.len() - upto,
{
    if upto < friends.len() {
        assert(friends.take(upto + 1).drop_last() =~= friends.take(upto));
        lemma_friends_failed(seat, friends, upto + 1);
    } else {
        assert(friends.take(upto) =~= friends);
    }
}

/// What goes into the template for each of the given documents, in order, up
/// to the first that fails.
pub open spec fn member_pages(
    files: Seq<FileView>,
    friends: Seq<Seq<PartView>>,
    outdir: Seq<PartView>,
) -> Result<Seq<PageView>, PathError>
    decreases files.len(),
{
    if files.len() == 0 {
        Ok(Seq::empty())
    } else {
        match member_pages(files.drop_last(), friends, outdir) {
            Err(error) => Err(error),
            Ok(front) => match page_spec(files.last(), friends, outdir) {
                Err(error) => Err(error),
                Ok(page) => Ok(front.push(page)),
            },
        }
    }
}

/// What goes into the template for each document of a directory: for the
/// plain documents in order, then for the document that stands for the
/// directory.
pub open spec fn dir_pages(
    site: Seq<DirectoryView>,
    dir: DirectoryView,
    outdir: Seq<PartView>,
) -> Result<Seq<PageView>, PathError> {
    match friends_spec(site, dir, outdir) {
        Err(error) => Err(error),
        Ok(friends) => match member_pages(dir.files, friends, outdir) {
            Err(error) => Err(error),
            Ok(pages) => match dir.dirfile {
                None => Ok(pages),
                Some(file) => match page_spec(file, friends, outdir) {
                    Err(error) => Err(error),
                    Ok(page) => Ok(pages.push(page)),
                },
            },
        },
    }
}

/// What goes into the template for each document of the first `count`
/// directories of a site, up to the first that fails.
pub open spec fn site_pages(site: Seq<DirectoryView>, count: nat, outdir: Seq<PartView>) -> Result<
    Seq<PageView>,
    PathError,
>
    decreases count,
{
    if count == 0 {
        Ok(Seq::empty())
    } else {
        match site_pages(site, (count - 1) as nat, outdir) {
            Err(error) => Err(error),
            Ok(front) => match dir_pages(site, site[count - 1], outdir) {
                Err(error) => Err(error),
                Ok(pages) => Ok(front + pages),
            },
        }
    }
}

/// Whether every document of a site has been rendered.
pub open spec fn all_rendered(site: Seq<DirectoryView>) -> bool {
    forall|d: int| 0 <= d < site.len() ==> dir_rendered(#[trigger] site[d])
}

/// Whether every document of a directory has been rendered.
pub open spec fn dir_rendered(dir: DirectoryView) -> bool {
    &&& (dir.dirfile is Some ==> is_rendered(dir.dirfile->0))
    &&& forall|i: int| 0 <= i < dir.files.len() ==> is_rendered(#[trigger] dir.files[i])
}

/// Once a directory has failed, those behind it change nothing.
pub proof fn lemma_pages_failed(
    site: Seq<DirectoryView>,
    upto: nat,
    count: nat,
    outdir: Seq<PartView>,
)
    requires
        upto <= count,
        site_pages(site, upto, outdir) is Err,
    ensures
        site_pages(site, count, outdir) == site_pages(site, upto, outdir),
    decreases count,
{
    if upto < count {
        lemma_pages_failed(site, upto, (count - 1) as nat, outdir);
    }
}

/// Once a document has failed, those behind it change nothing.
pub proof fn lemma_members_failed(
    files: Seq<FileView>,
    friends: Seq<Seq<PartView>>,
    outdir: Seq<PartView>,
    upto: int,
)
    requires
        0 <= upto <= files.len(),
        member_pages(files.take(upto), friends, outdir) is Err,
    ensures
        member_pages(files, friends, outdir) == member_pages(files.take(upto), friends, outdir),
    decreases files.len() - upto,
{
    if upto < files.len() {
        assert(files.take(upto + 1).drop_last() =~= files.take(upto));
        lemma_members_failed(files, friends, outdir, upto + 1);
    } else {
        assert(files.take(upto) =~= files);
    }
}

/// A page as it is written: where to, and its text.
#[derive(Debug)]
pub struct Output {
    pub path: SitePath,
    pub text: String,
}

/// The text of one filled-in copy of a pattern: what the inside of the
/// pattern compiles to when the two variables of the pattern, on top of the
/// variables of the page, hold the link of an entry and what it shows.
pub open spec fn entry_text(
    inside: Seq<char>,
    variables: Map<Seq<char>, Seq<char>>,
    key: Seq<char>,
    name_key: Seq<char>,
    entry: SlotEntryView,
) -> Seq<char> {
    compiled_text(
        inside,
        variables.insert(key, entry.target).insert(name_key, entry.name),
        Map::empty(),
    )
}

/// The copies of patterns after one copy of the pattern `pattern` has been
/// added for each of the entries, in order.
pub open spec fn with_entries(
    copies: Map<Seq<char>, Seq<Seq<char>>>,
    pattern: Seq<char>,
    inside: Seq<char>,
    variables: Map<Seq<char>, Seq<char>>,
    key: Seq<char>,
    name_key: Seq<char>,
    entries: Seq<SlotEntryView>,
) -> Map<Seq<char>, Seq<Seq<char>>>
    decreases entries.len(),
{
    if entries.len() == 0 {
        copies
    } else {
        added(
            with_entries(copies, pattern, inside, variables, key, name_key, entries.drop_last()),
            pattern,
            entry_text(inside, variables, key, name_key, entries.last()),
        )
    }
}

/// The text of a page: what the template of the job compiles to when its
/// content variable holds the rendered document and its two patterns have
/// one copy for each backlink and for each friend. A page that has backlinks
/// fails where the template lacks the pattern for them; so does, after that,
/// a page that has friends.
pub open spec fn fill_spec(template: Document, warm: WarmView, page: PageView) -> Result<
    Seq<char>,
    SiteErrorView,
> {
    let body = body_of(template);
    let variables = variables_of(template).insert(warm.content_key, page.content);
    let backlink = pattern_body(body, warm.backlink_pattern);
    let friend = pattern_body(body, warm.friend_pattern);
    if page.backlinks.len() > 0 && backlink is None {
        Err(SiteErrorView::TemplateSlotMissing { slot: warm.backlink_pattern })
    } else if page.friends.len() > 0 && friend is None {
        Err(SiteErrorView::TemplateSlotMissing { slot: warm.friend_pattern })
    } else {
        let linked = with_entries(
            copies_of(template),
            warm.backlink_pattern,
            backlink->0,
            variables,
            warm.backlink_key,
            warm.backlink_name_key,
            page.backlinks,
        );
        let all = with_entries(
            linked,
            warm.friend_pattern,
            friend->0,
            variables,
            warm.friend_key,
            warm.friend_name_key,
            page.friends,
        );
        Ok(compiled_text(body, variables, all))
    }
}

/// Fills a copy of the template of a job with what goes into it for one
/// page, and gives the text of the page. This fails where the page has a
/// backlink or a friend and the template lacks the pattern for it, and
/// nowhere else.
pub fn fill_template(warm: &Warm, page: &Page) -> (filled: Result<String, SiteError>)
    ensures
        match filled {
            Ok(text) => fill_spec(warm.template, warm@, page@) == Ok::<Seq<char>, SiteErrorView>(
                text@,
            ),
            Err(error) => fill_spec(warm.template, warm@, page@) == Err::<
                Seq<char>,
                SiteErrorView,
            >(error@),
        },
{
    let ghost body = body_of(warm.template);
    let ghost variables = variables_of(warm.template).insert(warm@.content_key, page@.content);
    let ghost backlink = pattern_body(body, warm@.backlink_pattern);
    let ghost friend = pattern_body(body, warm@.friend_pattern);
    let ghost backlinks = page@.backlinks;
    let ghost friends = page@.friends;
    let mut doc = copy_template(&warm.template);
    set_variable(&mut doc, warm.content_key.as_str(), page.content.as_str());
    let mut i: usize = 0;
    assert(backlinks.take(0) =~= Seq::<SlotEntryView>::empty());
    while i < page.backlinks.len()
        invariant
            i <= page.backlinks.len(),
            body == body_of(warm.template),
            variables == variables_of(warm.template).insert(warm@.content_key, page@.content),
            backlink == pattern_body(body, warm@.backlink_pattern),
            backlinks == page@.backlinks,
            body_of(doc) == body,
            variables_of(doc) == variables,
            i > 0 ==> backlink is Some,
            copies_of(doc) == with_entries(
                copies_of(warm.template),
                warm@.backlink_pattern,
                backlink->0,
                variables,
                warm@.backlink_key,
                warm@.backlink_name_key,
                backlinks.take(i as int),
            ),
        decreases page.backlinks.len() - i,
    {
        let found = find_pattern(&doc, warm.backlink_pattern.as_str());
        let mut pattern = match require_pattern(found, warm.backlink_pattern.as_str()) {
            Ok(pattern) => pattern,
            Err(error) => {
                return Err(error);
            },
        };
        let entry = &page.backlinks[i];
        set_variable(&mut pattern, warm.backlink_key.as_str(), entry.target.as_str());
        set_variable(&mut pattern, warm.backlink_name_key.as_str(), entry.name.as_str());
        add_pattern(&mut doc, warm.backlink_pattern.as_str(), pattern);
        proof {
            assert(backlinks.take(i + 1).drop_last() =~= backlinks.take(i as int));
            assert(backlinks.take(i + 1).last() == entry@);
        }
        i += 1;
    }
    assert(backlinks.take(page.backlinks.len() as int) =~= backlinks);
    let ghost linked = copies_of(doc);
    let mut j: usize = 0;
    assert(friends.take(0) =~= Seq::<SlotEntryView>::empty());
    while j < page.friends.len()
        invariant
            j <= page.friends.len(),
            body == body_of(warm.template),
            variables == variables_of(warm.template).insert(warm@.content_key, page@.content),
            backlink == pattern_body(body, warm@.backlink_pattern),
            friend == pattern_body(body, warm@.friend_pattern),
            backlinks == page@.backlinks,
            friends == page@.friends,
            backlinks.len() > 0 ==> backlink is Some,
            linked == with_entries(
                copies_of(warm.template),
                warm@.backlink_pattern,
                backlink->0,
                variables,
                warm@.backlink_key,
                warm@.backlink_name_key,
                backlinks,
            ),
            body_of(doc) == body,
            variables_of(doc) == variables,
            j > 0 ==> friend is Some,
            copies_of(doc) == with_entries(
                linked,
                warm@.friend_pattern,
                friend->0,
                variables,
                warm@.friend_key,
                warm@.friend_name_key,
                friends.take(j as int),
            ),
        decreases page.friends.len() - j,
    {
        let found = find_pattern(&doc, warm.friend_pattern.as_str());
        let mut pattern = match require_pattern(found, warm.friend_pattern.as_str()) {
            Ok(pattern) => pattern,
            Err(error) => {
                return Err(error);
            },
        };
        let entry = &page.friends[j];
        set_variable(&mut pattern, warm.friend_key.as_str(), entry.target.as_str());
        set_variable(&mut pattern, warm.friend_name_key.as_str(), entry.name.as_str());
        add_pattern(&mut doc, warm.friend_pattern.as_str(), pattern);
        proof {
            assert(friends.take(j + 1).drop_last() =~= friends.take(j as int));
            assert(friends.take(j + 1).last() == entry@);
        }
        j += 1;
    }
    assert(friends.take(page.friends.len() as int) =~= friends);
    Ok(compile_template(doc))
}

/// Whether an output is the given page as it is written: it goes to where
/// the page is written to, and its text is the text of the page.
pub open spec fn written_as(warm: Warm, page: PageView, output: Output) -> bool {
    &&& output.path@ == page.outpath
    &&& fill_spec(warm.template, warm@, page) == Ok::<Seq<char>, SiteErrorView>(output.text@)
}

/// Whether a failure is that of the first of the pages that the template
/// cannot be filled for.
pub open spec fn first_unfilled(warm: Warm, pages: Seq<PageView>, error: SiteErrorView) -> bool {
    exists|at: int|
        {
            &&& 0 <= at < pages.len()
            &&& #[trigger] fill_spec(warm.template, warm@, pages[at]) == Err::<
                Seq<char>,
                SiteErrorView,
            >(error)
            &&& forall|k: int|
                0 <= k < at ==> (#[trigger] fill_spec(warm.template, warm@, pages[k])) is Ok
        }
}

/// Fills the template of a job for each of the pages, in order, and gives
/// each page as it is written. The first page that the template cannot be
/// filled for stops the work.
pub fn fill_pages(warm: &Warm, pages: &Vec<Page>) -> (written: Result<Vec<Output>, SiteError>)
    ensures
        match written {
            Ok(outputs) => {
                &&& outputs.len() == pages.len()
                &&& forall|i: int|
                    0 <= i < outputs.len() ==> written_as(*warm, pages[i]@, #[trigger] outputs[i])
            },
            Err(error) => first_unfilled(*warm, pages.deep_view(), error@),
        },
{
    let mut outputs: Vec<Output> = Vec::new();
    let mut i: usize = 0;
    while i < pages.len()
        invariant
            i <= pages.len(),
            outputs.len() == i,
            forall|k: int| 0 <= k < i ==> written_as(*warm, pages[k]@, #[trigger] outputs[k]),
        decreases pages.len() - i,
    {
        match fill_template(warm, &pages[i]) {
            Ok(text) => {
                outputs.push(Output { path: pages[i].outpath.clone(), text });
            },
            Err(error) => {
                proof {
                    let views = pages.deep_view();
                    assert(views[i as int] == pages[i as int]@);
                    assert forall|k: int| 0 <= k < i implies (#[trigger] fill_spec(
                        warm.template,
                        warm@,
                        views[k],
                    )) is Ok by {
                        assert(written_as(*warm, pages[k]@, outputs[k]));
                    }
                    assert(fill_spec(warm.template, warm@, views[i as int]) == Err::<
                        Seq<char>,
                        SiteErrorView,
                    >(error@));
                }
                return Err(error);
            },
        }
        i += 1;
    }
    Ok(outputs)
}

/// The failure that a failed computation on paths is for a site.
pub open spec fn path_failure(error: PathError) -> SiteErrorView {
    SiteErrorView::Path(error)
}

impl Environment {
    /// Whether every document of the site has been rendered.
    pub fn rendered(&self) -> (done: bool)
        ensures
            done == all_rendered(self@),
    {
        let mut d: usize = 0;
        while d < self.dirs.len()
            invariant
                d <= self.dirs.len(),
                forall|k: int| 0 <= k < d ==> dir_rendered(#[trigger] self@[k]),
            decreases self.dirs.len() - d,
        {
            let dir = &self.dirs[d];
            match &dir.dirfile {
                Some(file) => {
                    if file.html().is_none() {
                        assert(!dir_rendered(self@[d as int]));
                        return false;
                    }
                },
                None => {},
            }
            let mut i: usize = 0;
            while i < dir.files.len()
                invariant
                    i <= dir.files.len(),
                    d < self.dirs.len(),
                    *dir == self.dirs[d as int],
                    forall|k: int| 0 <= k < i ==> is_rendered(#[trigger] self@[d as int].files[k]),
                decreases dir.files.len() - i,
            {
                if dir.files[i].html().is_none() {
                    assert(!is_rendered(self@[d as int].files[i as int]));
                    assert(!dir_rendered(self@[d as int]));
                    return false;
                }
                i += 1;
            }
            d += 1;
        }
        true
    }

    /// The friends of the documents of the directory at `dir`, as they are
    /// seen from the root that the site is written to.
    pub fn friends(&self, dir: usize) -> (made: Result<Vec<SitePath>, PathError>)
        requires
            dir < self@.len(),
        ensures
            match made {
                Ok(friends) => friends_spec(self@, self@[dir as int], self.warm.outdir@) == Ok::<
                    Seq<Seq<PartView>>,
                    PathError,
                >(friends.deep_view()),
                Err(error) => friends_spec(self@, self@[dir as int], self.warm.outdir@) == Err::<
                    Seq<Seq<PartView>>,
                    PathError,
                >(error),
            },
    {
        let here = &self.dirs[dir];
        let ghost wanted = friend_outpaths(self@, here@);
        let ghost root = self.warm.outdir@;
        let mut found: Vec<&SitePath> = Vec::new();
        let mut i: usize = 0;
        while i < here.files.len()
            invariant
                i <= here.files.len(),
                found.len() == i,
                forall|k: int| 0 <= k < i ==> (#[trigger] found[k])@ == here@.files[k].paths.outpath,
            decreases here.files.len() - i,
        {
            found.push(&here.files[i].paths.outpath);
            i += 1;
        }
        match &here.dirfile {
            Some(file) => {
                found.push(&file.paths.outpath);
            },
            None => {},
        }
        let ghost own_len = found.len();
        let ghost own = member_outpaths(here@.files) + (if here@.dirfile is Some {
            seq![here@.dirfile->0.paths.outpath]
        } else {
            Seq::empty()
        });
        assert(own.len() == own_len);
        assert(forall|k: int| 0 <= k < own_len ==> (#[trigger] found[k])@ == own[k]);
        let mut d: usize = 0;
        assert(self@.take(0) =~= Seq::<DirectoryView>::empty());
        while d < self.dirs.len()
            invariant
                d <= self.dirs.len(),
                *here == self.dirs[dir as int],
                dir < self.dirs.len(),
                own.len() == own_len,
                found.len() == own_len + child_outpaths(self@.take(d as int), here@).len(),
                forall|k: int| 0 <= k < own_len ==> (#[trigger] found[k])@ == own[k],
                forall|k: int|
                    0 <= k < child_outpaths(self@.take(d as int), here@).len() ==> (
                    #[trigger] found[own_len + k])@ == child_outpaths(
                        self@.take(d as int),
                        here@,
                    )[k],
            decreases self.dirs.len() - d,
        {
            let other = &self.dirs[d];
            assert(self@.take(d + 1).drop_last() =~= self@.take(d as int));
            assert(self@.take(d + 1).last() == other@);
            match &other.dirfile {
                Some(file) => {
                    match other.paths.inpath.parent() {
                        Some(parent) => {
                            if parent.same(&here.paths.inpath) {
                                found.push(&file.paths.outpath);
                            }
                        },
                        None => {},
                    }
                },
                None => {},
            }
            d += 1;
        }
        assert(self@.take(self.dirs.len() as int) =~= self@);
        assert(found.len() == wanted.len());
        assert(forall|k: int| 0 <= k < wanted.len() ==> (#[trigger] found[k])@ == wanted[k]) by {
            assert forall|k: int| 0 <= k < wanted.len() implies (#[trigger] found[k])@
                == wanted[k] by {
                if k >= own_len {
                    assert(found[own_len + (k - own_len)]@ == child_outpaths(self@, here@)[k
                        - own_len]);
                }
            }
        }
        let mut friends: Vec<SitePath> = Vec::new();
        let mut k: usize = 0;
        while k < found.len()
            invariant
                k <= found.len(),
                found.len() == wanted.len(),
                root == self.warm.outdir@,
                forall|m: int| 0 <= m < wanted.len() ==> (#[trigger] found[m])@ == wanted[m],
                friends.len() == k,
                forall|m: int| 0 <= m < k ==> root.is_prefix_of(#[trigger] wanted[m]),
                forall|m: int|
                    0 <= m < k ==> (#[trigger] friends[m])@ == wanted[m].skip(root.len() as int),
                wanted == friend_outpaths(self@, self@[dir as int]),
            decreases found.len() - k,
        {
            match found[k].strip_prefix(&self.warm.outdir) {
                Some(seen) => {
                    friends.push(seen);
                },
                None => {
                    assert(!root.is_prefix_of(wanted[k as int]));
                    return Err(PathError::OutsideRoot);
                },
            }
            k += 1;
        }
        assert(friends.deep_view() =~= Seq::new(
            wanted.len(),
            |m: int| wanted[m].skip(root.len() as int),
        ));
        Ok(friends)
    }

    /// What goes into the template for each document of the site: directory
    /// by directory, and within a directory for the plain documents before
    /// the one that stands for it. The first document that fails stops the
    /// work.
    pub fn pages(&self) -> (made: Result<Vec<Page>, PathError>)
        requires
            all_rendered(self@),
        ensures
            match made {
                Ok(pages) => site_pages(self@, self@.len(), self.warm.outdir@) == Ok::<
                    Seq<PageView>,
                    PathError,
                >(pages.deep_view()),
                Err(error) => site_pages(self@, self@.len(), self.warm.outdir@) == Err::<
                    Seq<PageView>,
                    PathError,
                >(error),
            },
    {
        let ghost root = self.warm.outdir@;
        let mut pages: Vec<Page> = Vec::new();
        assert(pages.deep_view() =~= Seq::<PageView>::empty());
        let mut d: usize = 0;
        while d < self.dirs.len()
            invariant
                d <= self.dirs.len(),
                root == self.warm.outdir@,
                all_rendered(self@),
                site_pages(self@, d as nat, root) == Ok::<Seq<PageView>, PathError>(
                    pages.deep_view(),
                ),
            decreases self.dirs.len() - d,
        {
            let dir = &self.dirs[d];
            let ghost front = pages.deep_view();
            let friends = match self.friends(d) {
                Ok(friends) => friends,
                Err(error) => {
                    proof {
                        lemma_pages_failed(self@, (d + 1) as nat, self@.len(), root);
                    }
                    return Err(error);
                },
            };
            let ghost beside = friends.deep_view();
            let ghost files = dir@.files;
            let mut i: usize = 0;
            assert(files.take(0) =~= Seq::<FileView>::empty());
            assert(front + Seq::<PageView>::empty() =~= front);
            while i < dir.files.len()
                invariant
                    i <= dir.files.len(),
                    d < self.dirs.len(),
                    *dir == self.dirs[d as int],
                    files == dir@.files,
                    files == self@[d as int].files,
                    beside == friends.deep_view(),
                    root == self.warm.outdir@,
                    all_rendered(self@),
                    site_pages(self@, d as nat, root) == Ok::<Seq<PageView>, PathError>(front),
                    friends_spec(self@, self@[d as int], root) == Ok::<
                        Seq<Seq<PartView>>,
                        PathError,
                    >(beside),
                    member_pages(files.take(i as int), beside, root) is Ok,
                    pages.deep_view() == front + member_pages(
                        files.take(i as int),
                        beside,
                        root,
                    )->Ok_0,
                decreases dir.files.len() - i,
            {
                assert(files.take(i + 1).drop_last() =~= files.take(i as int));
                assert(files.take(i + 1).last() == dir.files[i as int]@);
                assert(is_rendered(self@[d as int].files[i as int]));
                match make_page(&dir.files[i], &friends, &self.warm.outdir) {
                    Ok(page) => {
                        let ghost before = pages.deep_view();
                        pages.push(page);
                        assert(pages.deep_view() =~= before.push(page@));
                        assert(pages.deep_view() =~= front + member_pages(
                            files.take(i + 1),
                            beside,
                            root,
                        )->Ok_0);
                    },
                    Err(error) => {
                        proof {
                            lemma_members_failed(files, beside, root, i + 1);
                            lemma_pages_failed(self@, (d + 1) as nat, self@.len(), root);
                        }
                        return Err(error);
                    },
                }
                i += 1;
            }
            assert(files.take(dir.files.len() as int) =~= files);
            match &dir.dirfile {
                Some(file) => {
                    assert(is_rendered(self@[d as int].dirfile->0));
                    match make_page(file, &friends, &self.warm.outdir) {
                        Ok(page) => {
                            let ghost before = pages.deep_view();
                            pages.push(page);
                            assert(pages.deep_view() =~= before.push(page@));
                            assert(pages.deep_view() =~= front + dir_pages(
                                self@,
                                self@[d as int],
                                root,
                            )->Ok_0);
                        },
                        Err(error) => {
                            proof {
                                lemma_pages_failed(self@, (d + 1) as nat, self@.len(), root);
                            }
                            return Err(error);
                        },
                    }
                },
                None => {},
            }
            d += 1;
        }
        Ok(pages)
    }

    /// Makes the page of one rendered document: works out what goes into the
    /// template for it, fills the template in, and gives the text.
    pub fn write_file(warm: &Warm, file: &File, friends: &Vec<SitePath>) -> (written: Result<
        Output,
        SiteError,
    >)
        requires
            is_rendered(file@),
        ensures
            match written {
                Ok(output) => {
                    &&& page_spec(file@, friends.deep_view(), warm.outdir@) matches Ok(page)
                    &&& output.path@ == page.outpath
                    &&& fill_spec(warm.template, warm@, page) == Ok::<Seq<char>, SiteErrorView>(
                        output.text@,
                    )
                },
                Err(error) => match page_spec(file@, friends.deep_view(), warm.outdir@) {
                    Err(failure) => error@ == path_failure(failure),
                    Ok(page) => fill_spec(warm.template, warm@, page) == Err::<
                        Seq<char>,
                        SiteErrorView,
                    >(error@),
                },
            },
    {
        let page = match make_page(file, friends, &warm.outdir) {
            Ok(page) => page,
            Err(error) => {
                return Err(SiteError::Path(error));
            },
        };
        match fill_template(warm, &page) {
            Ok(text) => Ok(Output { path: page.outpath, text }),
            Err(error) => Err(error),
        }
    }

    /// Makes the pages of all documents of the site, in the order of
    /// [`Environment::pages`]. Where a computation on paths fails for any
    /// document, no page is made; otherwise the first page that the template
    /// cannot be filled for stops the work.
    pub fn write_files(&self) -> (written: Result<Vec<Output>, SiteError>)
        requires
            all_rendered(self@),
        ensures
            match written {
                Ok(outputs) => {
                    &&& site_pages(self@, self@.len(), self.warm.outdir@) matches Ok(pages)
                    &&& outputs.len() == pages.len()
                    &&& forall|i: int|
                        0 <= i < outputs.len() ==> written_as(
                            self.warm,
                            pages[i],
                            #[trigger] outputs[i],
                        )
                },
                Err(error) => match site_pages(self@, self@.len(), self.warm.outdir@) {
                    Err(failure) => error@ == path_failure(failure),
                    Ok(pages) => first_unfilled(self.warm, pages, error@),
                },
            },
    {
        match self.pages() {
            Ok(pages) => fill_pages(&self.warm, &pages),
            Err(error) => Err(SiteError::Path(error)),
        }
    }
}

} // verus!
