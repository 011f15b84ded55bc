use bempline::{Document, Options};
use sitegraph::environment::Environment;
use sitegraph::error::{PathError, SiteError};
use sitegraph::job::{Job, Warm};
use sitegraph::markup::{Inline, Link, Markup, References, Token};
use sitegraph::path::SitePath;
use sitegraph::warm::site::{DocRef, Slot};
use sitegraph::warm::Content;

fn queue_job(template: &str) -> Job {
    Job::Warm(Warm {
        name: "site".to_string(),
        indir: SitePath::parse("in"),
        outdir: SitePath::parse("out"),
        template: Document::from_str(template, Options::default()).unwrap(),
        content_key: "content".to_string(),
        backlink_pattern: "backlinks".to_string(),
        backlink_key: "bl".to_string(),
        backlink_name_key: "blname".to_string(),
        friend_pattern: "friends".to_string(),
        friend_key: "fr".to_string(),
        friend_name_key: "frname".to_string(),
    })
}

fn link_to(location: &str) -> Token {
    Token::Paragraph {
        inner: vec![Inline::Interlink(Link {
            name: None,
            location: location.to_string(),
            raw: location.to_string(),
        })],
    }
}

fn queue_of(template: &str, files: Vec<(&str, &str, Vec<Token>)>) -> Environment {
    let mut queue = Environment::new(queue_job(template));
    for (inpath, outpath, tokens) in files {
        queue
            .file(
                SitePath::parse(inpath),
                SitePath::parse(outpath),
                Markup { tokens, references: References::new() },
            )
            .unwrap();
    }
    queue
}

fn in_order(queue: &Environment) -> Vec<String> {
    (0..queue.len()).map(|i| queue.get(i).paths.inpath.to_text()).collect()
}

fn page_at(queue: &Environment, position: usize) -> String {
    queue.get(position).html().unwrap().clone()
}

fn backlinks_at(queue: &Environment, position: usize) -> Vec<String> {
    queue.get(position).backlinks.iter().map(|p| p.to_text()).collect()
}

#[test]
fn a_queued_document_keeps_the_paths_it_was_given() {
    let queue = queue_of("{content}", vec![("in/docs/a.md", "out/docs/a.html", vec![])]);
    assert_eq!(queue.len(), 1);
    assert_eq!(queue.job().name, "site");
    let file = queue.get(0);
    assert_eq!(file.paths.inpath.to_text(), "in/docs/a.md");
    assert_eq!(file.paths.outpath.to_text(), "out/docs/a.html");
    assert_eq!(file.paths.relpath.to_text(), "docs/a.html");
    assert!(matches!(file.content, Some(Content::Quark(_))));
    assert!(file.backlinks.is_empty());
    assert!(!queue.finished());
}

#[test]
fn a_document_outside_the_roots_is_not_queued() {
    let mut queue = Environment::new(queue_job("{content}"));
    let none = || Markup { tokens: vec![], references: References::new() };
    assert!(matches!(
        queue.file(SitePath::parse("other/a.md"), SitePath::parse("out/a.html"), none()),
        Err(PathError::OutsideRoot)
    ));
    assert!(matches!(
        queue.file(SitePath::parse("in/a.md"), SitePath::parse("other/a.html"), none()),
        Err(PathError::OutsideRoot)
    ));
    assert!(matches!(
        queue.file(SitePath::parse("in/docs/a.md"), SitePath::parse("out/a.html"), none()),
        Err(PathError::NotMirrored)
    ));
    assert!(matches!(
        queue.file(SitePath::parse("in/a.md"), SitePath::parse("out/docs/a.html"), none()),
        Err(PathError::NotMirrored)
    ));
    assert_eq!(queue.len(), 0);
    assert!(queue.file(SitePath::parse("in/a.md"), SitePath::parse("out/a.html"), none()).is_ok());
    assert_eq!(queue.len(), 1);
}

#[test]
fn the_queue_is_searched_by_path_suffix() {
    let queue = queue_of(
        "{content}",
        vec![
            ("in/notes/todo.md", "out/notes/todo.html", vec![]),
            ("in/archive/notes/todo.md", "out/archive/notes/todo.html", vec![]),
            ("in/a.md", "out/a.html", vec![]),
        ],
    );
    assert_eq!(queue.find_shortest_path("a"), vec![DocRef { dir: 0, slot: Slot::Member(2) }]);
    assert_eq!(
        queue.find_shortest_path("notes/todo"),
        vec![DocRef { dir: 0, slot: Slot::Member(0) }, DocRef { dir: 0, slot: Slot::Member(1) }]
    );
    assert_eq!(
        queue.find_shortest_path("archive/notes/todo"),
        vec![DocRef { dir: 0, slot: Slot::Member(1) }]
    );
    assert!(queue.find_shortest_path("in").is_empty());
    assert!(queue.find_shortest_path("b").is_empty());
}

#[test]
fn the_queue_is_worked_off_and_turned_by_one() {
    let mut queue = queue_of(
        "{content}",
        vec![
            ("in/a.md", "out/a.html", vec![link_to("b"), link_to("a")]),
            ("in/b.md", "out/b.html", vec![link_to("a")]),
            ("in/x/c.md", "out/x/c.html", vec![link_to("b")]),
        ],
    );
    let notes: Vec<String> = queue.run_files().unwrap().iter().map(|d| d.message()).collect();
    assert_eq!(notes, vec!["interlink a didn't match anything!"]);
    assert!(queue.finished());
    assert_eq!(in_order(&queue), vec!["in/b.md", "in/x/c.md", "in/a.md"]);
    assert_eq!(page_at(&queue, 2), "<p><a href=\"b.html\">b</a></p><p>{a}</p>");
    assert_eq!(page_at(&queue, 0), "<p><a href=\"a.html\">a</a></p>");
    assert_eq!(page_at(&queue, 1), "<p><a href=\"../b.html\">b</a></p>");
    assert_eq!(backlinks_at(&queue, 0), vec!["a.html", "x/c.html"]);
    assert_eq!(backlinks_at(&queue, 2), vec!["b.html"]);
    assert!(backlinks_at(&queue, 1).is_empty());
    assert!(queue.run_files().unwrap().is_empty());
    assert_eq!(in_order(&queue), vec!["in/x/c.md", "in/a.md", "in/b.md"]);
}

#[test]
fn an_empty_queue_is_done_at_once() {
    let mut queue = Environment::new(queue_job("{content}"));
    assert!(queue.run_files().unwrap().is_empty());
    assert_eq!(queue.len(), 0);
    assert!(queue.finished());
    assert!(queue.finish().unwrap().is_empty());
}

#[test]
fn an_ambiguous_reference_stops_the_queue_and_keeps_the_document() {
    let mut queue = queue_of(
        "{content}",
        vec![
            ("in/a.md", "out/a.html", vec![]),
            ("in/b.md", "out/b.html", vec![link_to("a"), link_to("todo")]),
            ("in/notes/todo.md", "out/notes/todo.html", vec![]),
            ("in/archive/todo.md", "out/archive/todo.html", vec![]),
        ],
    );
    match queue.run_files() {
        Err(SiteError::LinkAmbiguity { reference }) => assert_eq!(reference, "todo"),
        _ => panic!("the queue was worked off"),
    }
    assert_eq!(
        in_order(&queue),
        vec!["in/notes/todo.md", "in/archive/todo.md", "in/a.md", "in/b.md"]
    );
    assert!(matches!(queue.get(3).content, Some(Content::Quark(_))));
    assert!(!queue.finished());
    assert_eq!(page_at(&queue, 2), "");
    assert_eq!(backlinks_at(&queue, 2), vec!["b.html"]);
}

#[test]
fn pieces_can_be_rendered_against_the_queue() {
    let mut queue = queue_of("{content}", vec![("in/b.md", "out/b.html", vec![])]);
    let mut diagnostics = Vec::new();
    let current = SitePath::parse("x/a.html");
    let inlines = vec![
        Inline::Text("see ".to_string()),
        Inline::Interlink(Link { name: Some("B".to_string()), location: "b".to_string(), raw: "B|b".to_string() }),
    ];
    let html = queue.html_inlines(&current, &inlines, &References::new(), &mut diagnostics).unwrap();
    assert_eq!(html, "see <a href=\"../b.html\">B</a>");
    let markup = Markup {
        tokens: vec![Token::Header { level: 2, inner: vec![Inline::Text(" T ".to_string())] }, link_to("b")],
        references: References::new(),
    };
    let page = queue.html(&current, &markup, &mut diagnostics).unwrap();
    assert_eq!(page, "<h2>T</h2><p><a href=\"../b.html\">b</a></p>");
    assert!(diagnostics.is_empty());
    assert_eq!(backlinks_at(&queue, 0), vec!["x/a.html", "x/a.html"]);
}

#[test]
fn finishing_fills_the_template_for_each_document() {
    let mut queue = queue_of(
        "<main>{content}</main>{%pattern backlinks}<a href=\"{bl}\">{blname}</a>{%end}",
        vec![
            ("in/a.md", "out/a.html", vec![link_to("b"), link_to("b")]),
            ("in/b.md", "out/b.html", vec![]),
        ],
    );
    assert!(queue.run_files().unwrap().is_empty());
    let pages = queue.pages().unwrap();
    assert_eq!(pages.len(), 2);
    assert_eq!(pages[0].backlinks.len(), 1);
    assert!(pages[0].friends.is_empty());
    let outputs = queue.finish().unwrap();
    assert_eq!(outputs.len(), 2);
    assert_eq!(outputs[0].path.to_text(), "out/b.html");
    assert_eq!(outputs[0].text, "<main></main><a href=\"a.html\">a</a>");
    assert_eq!(outputs[1].path.to_text(), "out/a.html");
    assert_eq!(
        outputs[1].text,
        "<main><p><a href=\"b.html\">b</a></p><p><a href=\"b.html\">b</a></p></main>"
    );
}

#[test]
fn finishing_fails_where_the_template_lacks_the_backlink_pattern() {
    let mut queue = queue_of(
        "{content}",
        vec![("in/a.md", "out/a.html", vec![link_to("b")]), ("in/b.md", "out/b.html", vec![])],
    );
    assert!(queue.run_files().is_ok());
    match queue.finish() {
        Err(SiteError::TemplateSlotMissing { slot }) => assert_eq!(slot, "backlinks"),
        _ => panic!("the pages were made"),
    }
}
