use bempline::{Document, Options};
use sitegraph::job::Warm;
use sitegraph::markup::{Markup, References};
use sitegraph::path::SitePath;
use sitegraph::warm::site::{DocRef, Slot};
use sitegraph::warm::{Directory, Environment, File};

fn resolve_warm() -> Warm {
    Warm {
        name: "site".to_string(),
        indir: SitePath::parse("in"),
        outdir: SitePath::parse("out"),
        template: Document::from_str("{content}", Options::default()).unwrap(),
        content_key: "content".to_string(),
        backlink_pattern: "backlinks".to_string(),
        backlink_key: "bl".to_string(),
        backlink_name_key: "blname".to_string(),
        friend_pattern: "friends".to_string(),
        friend_key: "fr".to_string(),
        friend_name_key: "frname".to_string(),
    }
}

fn resolve_site(dirs: &[(&str, &[&str])]) -> Environment {
    let warm = resolve_warm();
    let mut made = Vec::new();
    for (path, files) in dirs {
        let mut dir = Directory::new(SitePath::parse(path), &warm).unwrap();
        for file in files.iter() {
            dir.add_file(
                File::new(
                    SitePath::parse(file),
                    Markup { tokens: vec![], references: References::new() },
                    &warm,
                )
                .unwrap(),
            );
        }
        made.push(dir);
    }
    let mut site = Environment::new(warm);
    for dir in made {
        site.add_directory(dir);
    }
    site
}

fn found(site: &Environment, reference: &str) -> Vec<String> {
    site.find_shortest_path(reference)
        .into_iter()
        .map(|doc| site.file(doc).paths.inpath.to_text())
        .collect()
}

#[test]
fn a_reference_names_a_document_by_its_name_without_extension() {
    let site = resolve_site(&[("in", &["in/a.md", "in/b.md"])]);
    assert_eq!(found(&site, "b"), vec!["in/b.md"]);
    assert_eq!(found(&site, "a"), vec!["in/a.md"]);
    assert_eq!(
        site.find_shortest_path("b"),
        vec![DocRef { dir: 0, slot: Slot::Member(1) }]
    );
}

#[test]
fn a_reference_names_a_document_by_any_suffix_of_its_path() {
    let site = resolve_site(&[
        ("in/notes", &["in/notes/todo.md"]),
        ("in/archive", &["in/archive/done.md"]),
        ("in", &[]),
    ]);
    assert_eq!(found(&site, "todo"), vec!["in/notes/todo.md"]);
    assert_eq!(found(&site, "notes/todo"), vec!["in/notes/todo.md"]);
    assert!(found(&site, "in/notes/todo").is_empty());
    assert!(found(&site, "in").is_empty());
    assert_eq!(found(&site, "archive/done"), vec!["in/archive/done.md"]);
    assert!(found(&site, "otes/todo").is_empty());
    assert!(found(&site, "todo.md").is_empty());
    assert!(found(&site, "archive/todo").is_empty());
}

#[test]
fn a_reference_that_names_nothing_finds_nothing() {
    let site = resolve_site(&[("in", &["in/a.md"])]);
    assert!(found(&site, "b").is_empty());
    assert!(found(&site, "A").is_empty());
    let empty = resolve_site(&[]);
    assert!(found(&empty, "a").is_empty());
}

#[test]
fn a_reference_can_name_several_documents() {
    let site = resolve_site(&[
        ("in/notes", &["in/notes/todo.md"]),
        ("in/archive/notes", &["in/archive/notes/todo.md"]),
        ("in/archive", &[]),
        ("in", &[]),
    ]);
    assert_eq!(found(&site, "todo"), vec!["in/notes/todo.md", "in/archive/notes/todo.md"]);
    assert_eq!(found(&site, "notes/todo"), vec!["in/notes/todo.md", "in/archive/notes/todo.md"]);
    assert_eq!(found(&site, "archive/notes/todo"), vec!["in/archive/notes/todo.md"]);
}

#[test]
fn a_reference_names_a_dirfile_by_the_name_of_its_directory() {
    let site = resolve_site(&[("in/docs", &["in/docs/index.md", "in/docs/page.md"]), ("in", &[])]);
    assert_eq!(found(&site, "docs"), vec!["in/docs/index.md"]);
    assert!(found(&site, "in/docs").is_empty());
    assert_eq!(found(&site, "index"), vec!["in/docs/index.md"]);
    assert_eq!(found(&site, "docs/index"), vec!["in/docs/index.md"]);
    assert_eq!(found(&site, "page"), vec!["in/docs/page.md"]);
    assert_eq!(
        site.find_shortest_path("docs"),
        vec![DocRef { dir: 0, slot: Slot::Dirfile }]
    );
}

#[test]
fn a_dirfile_is_found_before_the_other_documents_of_its_directory() {
    let site = resolve_site(&[("in/blog", &["in/blog/a.md", "in/blog/blog.md"])]);
    assert_eq!(found(&site, "blog"), vec!["in/blog/blog.md"]);
    let both = resolve_site(&[
        ("in/x/blog", &["in/x/blog/index.md"]),
        ("in/blog", &["in/blog/index.md", "in/blog/blog.md"]),
    ]);
    assert_eq!(found(&both, "blog"), vec!["in/x/blog/index.md", "in/blog/index.md", "in/blog/blog.md"]);
}

#[test]
fn the_reference_is_read_as_a_path() {
    let site = resolve_site(&[("in/notes", &["in/notes/todo.md"])]);
    assert_eq!(found(&site, "notes//todo"), vec!["in/notes/todo.md"]);
    assert_eq!(found(&site, "notes/todo/"), vec!["in/notes/todo.md"]);
    assert_eq!(found(&site, ""), vec!["in/notes/todo.md"]);
}

#[test]
fn find_matching_takes_the_reference_as_a_path() {
    let site = resolve_site(&[("in", &["in/a.md", "in/b.md"])]);
    let places = site.find_matching(&SitePath::parse("b"));
    assert_eq!(places, vec![DocRef { dir: 0, slot: Slot::Member(1) }]);
    assert!(site.find_matching(&SitePath::parse("in/b")).is_empty());
    assert!(site.find_matching(&SitePath::parse("b.md")).is_empty());
}
