use bempline::{Document, Options};
use sitegraph::error::PathError;
use sitegraph::job::Warm;
use sitegraph::markup::{Markup, References};
use sitegraph::path::SitePath;
use sitegraph::warm::tree::is_hidden;
use sitegraph::warm::{Content, Directory, File, PathStuff};

fn tree_warm() -> Warm {
    Warm {
        name: "site".to_string(),
        indir: SitePath::parse("in"),
        outdir: SitePath::parse("out"),
        template: Document::from_str("{content}", Options::default()).unwrap(),
        content_key: "content".to_string(),
        backlink_pattern: "backlinks".to_string(),
        backlink_key: "bl".to_string(),
        backlink_name_key: "blname".to_string(),
        friend_pattern: "friends".to_string(),
        friend_key: "fr".to_string(),
        friend_name_key: "frname".to_string(),
    }
}

fn empty_doc(path: &str, warm: &Warm) -> File {
    File::new(
        SitePath::parse(path),
        Markup { tokens: vec![], references: References::new() },
        warm,
    )
    .unwrap()
}

fn dir_with(path: &str, files: &[&str], warm: &Warm) -> Directory {
    let mut dir = Directory::new(SitePath::parse(path), warm).unwrap();
    for file in files {
        dir.add_file(empty_doc(file, warm));
    }
    dir
}

fn dirfile_of(dir: &Directory) -> Option<String> {
    dir.dirfile.as_ref().map(|f| f.paths.inpath.to_text())
}

fn members_of(dir: &Directory) -> Vec<String> {
    dir.files.iter().map(|f| f.paths.inpath.to_text()).collect()
}

#[test]
fn paths_mirror_the_input_under_the_output_root() {
    let warm = tree_warm();
    let paths = PathStuff::new(SitePath::parse("in/docs/page.md"), &warm).unwrap();
    assert_eq!(paths.inpath.to_text(), "in/docs/page.md");
    assert_eq!(paths.relpath.to_text(), "docs/page.md");
    assert_eq!(paths.outpath.to_text(), "out/docs/page.md");
    assert_eq!(paths.name(), Some("page.md".to_string()));
    assert_eq!(paths.stem(), Some("page".to_string()));
}

#[test]
fn the_input_root_is_written_to_the_output_root() {
    let warm = tree_warm();
    let paths = PathStuff::new(SitePath::parse("in"), &warm).unwrap();
    assert_eq!(paths.inpath.to_text(), "in");
    assert_eq!(paths.relpath.depth(), 0);
    assert_eq!(paths.outpath.to_text(), "out");
    assert!(paths.outpath.same(&warm.outdir));
    assert_eq!(paths.name(), Some("in".to_string()));
    assert_eq!(paths.stem(), None);
    assert_eq!(paths.input_relative().depth(), 0);
    let same = PathStuff::new(SitePath::parse("in/"), &warm).unwrap();
    assert_eq!(same.outpath.to_text(), "out");
}

#[test]
fn the_path_seen_from_the_input_root_leaves_the_root_out() {
    let mut warm = tree_warm();
    warm.indir = SitePath::parse("notes/in");
    let mut paths = PathStuff::new(SitePath::parse("notes/in/docs/page.md"), &warm).unwrap();
    assert_eq!(paths.input_relative().to_text(), "docs/page.md");
    paths.set_extension("html");
    assert_eq!(paths.relpath.to_text(), "docs/page.html");
    assert_eq!(paths.input_relative().to_text(), "docs/page.md");
    let dir = PathStuff::new(SitePath::parse("notes/in/docs"), &warm).unwrap();
    assert_eq!(dir.input_relative().to_text(), "docs");
    assert_eq!(dir.name(), Some("docs".to_string()));
}

#[test]
fn paths_outside_the_input_root_are_refused() {
    let warm = tree_warm();
    assert!(matches!(
        PathStuff::new(SitePath::parse("elsewhere/a.md"), &warm),
        Err(PathError::OutsideRoot)
    ));
    assert!(matches!(
        PathStuff::new(SitePath::parse("input/a.md"), &warm),
        Err(PathError::OutsideRoot)
    ));
    assert!(matches!(
        File::new(
            SitePath::parse("/in/a.md"),
            Markup { tokens: vec![], references: References::new() },
            &warm
        ),
        Err(PathError::OutsideRoot)
    ));
    assert!(matches!(
        Directory::new(SitePath::parse("other"), &warm),
        Err(PathError::OutsideRoot)
    ));
    assert!(matches!(
        File::load(SitePath::parse("other/a.md"), "text".to_string(), &warm),
        Err(PathError::OutsideRoot)
    ));
}

#[test]
fn set_extension_changes_what_is_written_not_what_is_read() {
    let warm = tree_warm();
    let mut paths = PathStuff::new(SitePath::parse("in/docs/page.md"), &warm).unwrap();
    paths.set_extension("html");
    assert_eq!(paths.inpath.to_text(), "in/docs/page.md");
    assert_eq!(paths.relpath.to_text(), "docs/page.html");
    assert_eq!(paths.outpath.to_text(), "out/docs/page.html");
}

#[test]
fn a_new_document_is_written_as_html_and_has_no_backlinks() {
    let warm = tree_warm();
    let file = empty_doc("in/a.b.md", &warm);
    assert_eq!(file.paths.inpath.to_text(), "in/a.b.md");
    assert_eq!(file.paths.outpath.to_text(), "out/a.b.html");
    assert_eq!(file.paths.relpath.to_text(), "a.b.html");
    assert!(file.backlinks.is_empty());
    assert!(matches!(file.content, Some(Content::Quark(_))));
    assert!(file.html().is_none());
    assert!(file.raw().is_none());
    let bare = empty_doc("in/README", &warm);
    assert_eq!(bare.paths.outpath.to_text(), "out/README.html");
}

#[test]
fn a_loaded_document_goes_from_text_to_markup() {
    let warm = tree_warm();
    let mut file = File::load(SitePath::parse("in/a.md"), "some text".to_string(), &warm).unwrap();
    assert_eq!(file.raw(), Some(&"some text".to_string()));
    assert_eq!(file.paths.outpath.to_text(), "out/a.html");
    file.set_markup(Markup { tokens: vec![], references: References::new() });
    assert!(file.raw().is_none());
    assert!(matches!(file.content, Some(Content::Quark(_))));
}

#[test]
fn an_index_stands_for_its_directory() {
    let warm = tree_warm();
    let dir = dir_with("in/foo", &["in/foo/index.md", "in/foo/bar.md"], &warm);
    assert_eq!(dirfile_of(&dir), Some("in/foo/index.md".to_string()));
    assert_eq!(members_of(&dir), vec!["in/foo/bar.md"]);
    let other = dir_with("in/foo", &["in/foo/bar.md", "in/foo/index.md"], &warm);
    assert_eq!(dirfile_of(&other), Some("in/foo/index.md".to_string()));
    assert_eq!(members_of(&other), vec!["in/foo/bar.md"]);
}

#[test]
fn a_namesake_stands_for_its_directory_where_there_is_no_index() {
    let warm = tree_warm();
    let dir = dir_with("in/blog", &["in/blog/blog.md", "in/blog/other.md"], &warm);
    assert_eq!(dirfile_of(&dir), Some("in/blog/blog.md".to_string()));
    assert_eq!(members_of(&dir), vec!["in/blog/other.md"]);
}

#[test]
fn an_index_takes_precedence_over_a_namesake() {
    let warm = tree_warm();
    let index_first = dir_with("in/blog", &["in/blog/index.md", "in/blog/blog.md"], &warm);
    assert_eq!(dirfile_of(&index_first), Some("in/blog/index.md".to_string()));
    assert_eq!(members_of(&index_first), vec!["in/blog/blog.md"]);
    let index_last = dir_with("in/blog", &["in/blog/blog.md", "in/blog/index.md"], &warm);
    assert_eq!(dirfile_of(&index_last), Some("in/blog/index.md".to_string()));
    assert_eq!(members_of(&index_last), vec!["in/blog/blog.md"]);
}

#[test]
fn a_displaced_dirfile_stays_in_the_directory() {
    let warm = tree_warm();
    let dir = dir_with(
        "in/foo",
        &["in/foo/a.md", "in/foo/foo.md", "in/foo/b.md", "in/foo/foo.txt", "in/foo/index.md", "in/foo/c.md"],
        &warm,
    );
    assert_eq!(dirfile_of(&dir), Some("in/foo/index.md".to_string()));
    assert_eq!(
        members_of(&dir),
        vec!["in/foo/a.md", "in/foo/b.md", "in/foo/foo.md", "in/foo/foo.txt", "in/foo/c.md"]
    );
    let kept = dir.files.len() + dir.dirfile.iter().count();
    assert_eq!(kept, 6);
}

#[test]
fn a_directory_without_index_or_namesake_has_no_dirfile() {
    let warm = tree_warm();
    let dir = dir_with("in/notes", &["in/notes/a.md", "in/notes/b.md"], &warm);
    assert_eq!(dirfile_of(&dir), None);
    assert_eq!(members_of(&dir), vec!["in/notes/a.md", "in/notes/b.md"]);
    let empty = dir_with("in/notes", &[], &warm);
    assert_eq!(dirfile_of(&empty), None);
    assert!(members_of(&empty).is_empty());
}

#[test]
fn the_input_root_goes_by_its_last_component() {
    let warm = tree_warm();
    let root = dir_with("in", &["in/in.md", "in/a.md"], &warm);
    assert_eq!(dirfile_of(&root), Some("in/in.md".to_string()));
    assert_eq!(members_of(&root), vec!["in/a.md"]);
    let with_index = dir_with("in", &["in/a.md", "in/index.md"], &warm);
    assert_eq!(dirfile_of(&with_index), Some("in/index.md".to_string()));
    let mut deep = tree_warm();
    deep.indir = SitePath::parse("notes/in");
    let mut dir = Directory::new(SitePath::parse("notes/in"), &deep).unwrap();
    dir.add_file(empty_doc("notes/in/notes.md", &deep));
    dir.add_file(empty_doc("notes/in/in.md", &deep));
    assert_eq!(dirfile_of(&dir), Some("notes/in/in.md".to_string()));
    assert_eq!(members_of(&dir), vec!["notes/in/notes.md"]);
}

#[test]
fn a_later_index_takes_the_place_of_an_earlier_one() {
    let warm = tree_warm();
    let dir = dir_with("in/foo", &["in/foo/index.md", "in/foo/index.txt"], &warm);
    assert_eq!(dirfile_of(&dir), Some("in/foo/index.txt".to_string()));
    assert_eq!(members_of(&dir), vec!["in/foo/index.md"]);
}

#[test]
fn entries_that_start_with_a_dot_are_hidden() {
    assert!(is_hidden(".git"));
    assert!(is_hidden(".vscode"));
    assert!(is_hidden("."));
    assert!(is_hidden(".hidden.md"));
    assert!(!is_hidden("a.md"));
    assert!(!is_hidden("a."));
    assert!(!is_hidden(""));
    assert!(!is_hidden("index"));
}
