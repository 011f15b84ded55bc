use bempline::{Document, Options};
use sitegraph::error::{PathError, SiteError};
use sitegraph::job::Warm;
use sitegraph::markup::{Inline, Link, Markup, References, Token};
use sitegraph::path::SitePath;
use sitegraph::warm::render::{link_found, Diagnostic};
use sitegraph::warm::PathStuff;
use sitegraph::warm::site::{DocRef, Slot};
use sitegraph::warm::{Content, Directory, Environment, File};

fn render_warm() -> Warm {
    Warm {
        name: "site".to_string(),
        indir: SitePath::parse("in"),
        outdir: SitePath::parse("out"),
        template: Document::from_str("{content}", Options::default()).unwrap(),
        content_key: "content".to_string(),
        backlink_pattern: "backlinks".to_string(),
        backlink_key: "bl".to_string(),
        backlink_name_key: "blname".to_string(),
        friend_pattern: "friends".to_string(),
        friend_key: "fr".to_string(),
        friend_name_key: "frname".to_string(),
    }
}

fn interlink(location: &str) -> Inline {
    Inline::Interlink(Link { name: None, location: location.to_string(), raw: location.to_string() })
}

fn named_interlink(name: &str, location: &str) -> Inline {
    Inline::Interlink(Link {
        name: Some(name.to_string()),
        location: location.to_string(),
        raw: format!("{}|{}", name, location),
    })
}

fn text(words: &str) -> Inline {
    Inline::Text(words.to_string())
}

fn para(inner: Vec<Inline>) -> Token {
    Token::Paragraph { inner }
}

fn render_site(dirs: Vec<(&str, Vec<(&str, Vec<Token>, Vec<(&str, &str)>)>)>) -> Environment {
    let warm = render_warm();
    let mut made = Vec::new();
    for (path, files) in dirs {
        let mut dir = Directory::new(SitePath::parse(path), &warm).unwrap();
        for (file, tokens, table) in files {
            let mut references = References::new();
            for (label, location) in table {
                references.insert(label.to_string(), location.to_string());
            }
            dir.add_file(File::new(SitePath::parse(file), Markup { tokens, references }, &warm).unwrap());
        }
        made.push(dir);
    }
    let mut site = Environment::new(warm);
    for dir in made {
        site.add_directory(dir);
    }
    site
}

fn one_page(tokens: Vec<Token>, table: Vec<(&str, &str)>) -> (Result<Vec<Diagnostic>, SiteError>, Environment) {
    let mut site = render_site(vec![("in", vec![("in/a.md", tokens, table), ("in/b.md", vec![], vec![])])]);
    let outcome = site.parse_files();
    (outcome, site)
}

fn page_of(site: &Environment, dir: usize, file: usize) -> String {
    site.dirs[dir].files[file].html().unwrap().clone()
}

fn backlinks_of(file: &File) -> Vec<String> {
    file.backlinks.iter().map(|p| p.to_text()).collect()
}

fn notes(diagnostics: &[Diagnostic]) -> Vec<String> {
    diagnostics.iter().map(|d| d.message()).collect()
}

#[test]
fn a_paragraph_wraps_its_text_untrimmed() {
    let (outcome, site) = one_page(vec![para(vec![text("  hello "), text("world ")])], vec![]);
    assert!(outcome.unwrap().is_empty());
    assert_eq!(page_of(&site, 0, 0), "<p>  hello world </p>");
    assert_eq!(page_of(&site, 0, 1), "");
}

#[test]
fn a_header_wraps_its_trimmed_text_in_a_heading_of_its_level() {
    let (outcome, site) = one_page(
        vec![
            Token::Header { level: 1, inner: vec![text("  Title ")] },
            Token::Header { level: 3, inner: vec![text("Sub"), Inline::Break] },
            Token::Header { level: 12, inner: vec![] },
        ],
        vec![],
    );
    assert!(outcome.is_ok());
    assert_eq!(page_of(&site, 0, 0), "<h1>Title</h1><h3>Sub<br></h3><h12></h12>");
}

#[test]
fn a_code_block_keeps_its_code_as_it_is() {
    let (outcome, site) = one_page(
        vec![Token::CodeBlock { lang: "rust".to_string(), code: "if a < b { &c }\n".to_string() }],
        vec![],
    );
    assert!(outcome.is_ok());
    assert_eq!(page_of(&site, 0, 0), "<pre><code>if a < b { &c }\n</code></pre>");
}

#[test]
fn breaks_text_and_code_render_in_order() {
    let (outcome, site) = one_page(
        vec![para(vec![
            text("a <b> & c"),
            Inline::Break,
            Inline::Code("x < y".to_string()),
            text(""),
        ])],
        vec![],
    );
    assert!(outcome.is_ok());
    assert_eq!(page_of(&site, 0, 0), "<p>a <b> & c<br><code>x < y</code></p>");
}

#[test]
fn a_plain_link_shows_its_name_or_its_location() {
    let (outcome, site) = one_page(
        vec![para(vec![
            Inline::Link(Link {
                name: Some("home".to_string()),
                location: "https://example.org".to_string(),
                raw: String::new(),
            }),
            Inline::Link(Link {
                name: None,
                location: " https://example.org/x ".to_string(),
                raw: String::new(),
            }),
        ])],
        vec![],
    );
    assert!(outcome.unwrap().is_empty());
    assert_eq!(
        page_of(&site, 0, 0),
        "<p><a href=\"https://example.org\">home</a><a href=\" https://example.org/x \"> https://example.org/x </a></p>"
    );
}

#[test]
fn a_reference_link_is_looked_up_by_its_trimmed_label() {
    let (outcome, site) = one_page(
        vec![para(vec![
            Inline::ReferenceLink(Link {
                name: Some("the site".to_string()),
                location: " home ".to_string(),
                raw: String::new(),
            }),
            Inline::ReferenceLink(Link {
                name: None,
                location: "home ".to_string(),
                raw: String::new(),
            }),
        ])],
        vec![("home", "https://example.org")],
    );
    assert!(outcome.unwrap().is_empty());
    assert_eq!(
        page_of(&site, 0, 0),
        "<p><a href=\"https://example.org\">the site</a><a href=\"https://example.org\">home </a></p>"
    );
}

#[test]
fn a_reference_link_without_entry_falls_back_to_its_label() {
    let (outcome, site) = one_page(
        vec![para(vec![Inline::ReferenceLink(Link {
            name: None,
            location: " missing ".to_string(),
            raw: String::new(),
        })])],
        vec![("home", "https://example.org")],
    );
    assert_eq!(
        notes(&outcome.unwrap()),
        vec!["Failed to resolve reflink with location: missing"]
    );
    assert_eq!(page_of(&site, 0, 0), "<p><a href=\"missing\"> missing </a></p>");
}

#[test]
fn an_interlink_becomes_an_anchor_and_leaves_a_backlink() {
    let (outcome, site) = one_page(vec![para(vec![interlink("b")])], vec![]);
    assert!(outcome.unwrap().is_empty());
    assert_eq!(page_of(&site, 0, 0), "<p><a href=\"b.html\">b</a></p>");
    assert_eq!(backlinks_of(&site.dirs[0].files[1]), vec!["a.html"]);
    assert!(backlinks_of(&site.dirs[0].files[0]).is_empty());
}

#[test]
fn an_interlink_is_trimmed_and_shows_its_name() {
    let (outcome, site) = one_page(
        vec![para(vec![named_interlink("the other", "  b "), interlink(" b")])],
        vec![],
    );
    assert!(outcome.unwrap().is_empty());
    assert_eq!(
        page_of(&site, 0, 0),
        "<p><a href=\"b.html\">the other</a><a href=\"b.html\">b</a></p>"
    );
    assert_eq!(backlinks_of(&site.dirs[0].files[1]), vec!["a.html", "a.html"]);
}

#[test]
fn an_interlink_to_the_page_itself_is_a_same_page_reference() {
    let (outcome, site) = one_page(vec![para(vec![interlink("a")])], vec![]);
    assert!(outcome.unwrap().is_empty());
    assert_eq!(page_of(&site, 0, 0), "<p><a href=\".\">a</a></p>");
    assert_eq!(backlinks_of(&site.dirs[0].files[0]), vec!["."]);
}

#[test]
fn an_interlink_that_names_nothing_is_shown_as_written() {
    let (outcome, site) = one_page(
        vec![para(vec![text("see "), named_interlink("it", " nowhere "), interlink("b")])],
        vec![],
    );
    assert_eq!(notes(&outcome.unwrap()), vec!["interlink nowhere didn't match anything!"]);
    assert_eq!(page_of(&site, 0, 0), "<p>see {it| nowhere }<a href=\"b.html\">b</a></p>");
    assert_eq!(backlinks_of(&site.dirs[0].files[1]), vec!["a.html"]);
}

#[test]
fn an_interlink_that_names_several_documents_fails_the_build() {
    let mut site = render_site(vec![
        ("in/notes", vec![("in/notes/todo.md", vec![], vec![])]),
        ("in/archive/notes", vec![("in/archive/notes/todo.md", vec![], vec![])]),
        (
            "in",
            vec![
                ("in/a.md", vec![para(vec![interlink("archive/notes/todo"), interlink(" todo ")])], vec![]),
                ("in/b.md", vec![para(vec![text("never rendered")])], vec![]),
            ],
        ),
    ]);
    match site.parse_files() {
        Err(SiteError::LinkAmbiguity { reference }) => assert_eq!(reference, "todo"),
        _ => panic!("the build went on"),
    }
    assert_eq!(page_of(&site, 0, 0), "");
    assert_eq!(page_of(&site, 1, 0), "");
    assert!(matches!(site.dirs[2].files[0].content, Some(Content::Quark(_))));
    assert!(site.dirs[2].files[0].html().is_none());
    assert!(!site.rendered());
    assert!(matches!(site.dirs[2].files[1].content, Some(Content::Quark(_))));
    assert_eq!(backlinks_of(&site.dirs[1].files[0]), vec!["../../a.html"]);
    assert!(backlinks_of(&site.dirs[0].files[0]).is_empty());
}

#[test]
fn interlinks_across_directories_climb_and_descend() {
    let mut site = render_site(vec![
        ("in/x", vec![("in/x/a.md", vec![para(vec![interlink("y/b"), interlink("top")])], vec![])]),
        ("in/y", vec![("in/y/b.md", vec![para(vec![interlink("x/a")])], vec![])]),
        ("in", vec![("in/top.md", vec![para(vec![interlink("b")])], vec![])]),
    ]);
    assert!(site.parse_files().unwrap().is_empty());
    assert_eq!(
        page_of(&site, 0, 0),
        "<p><a href=\"../y/b.html\">y/b</a><a href=\"../top.html\">top</a></p>"
    );
    assert_eq!(page_of(&site, 1, 0), "<p><a href=\"../x/a.html\">x/a</a></p>");
    assert_eq!(page_of(&site, 2, 0), "<p><a href=\"y/b.html\">b</a></p>");
    assert_eq!(backlinks_of(&site.dirs[0].files[0]), vec!["../y/b.html"]);
    assert_eq!(backlinks_of(&site.dirs[1].files[0]), vec!["../x/a.html", "../top.html"]);
    assert_eq!(backlinks_of(&site.dirs[2].files[0]), vec!["x/a.html"]);
}

#[test]
fn an_interlink_to_a_directory_leads_to_its_dirfile() {
    let mut site = render_site(vec![
        ("in/docs", vec![("in/docs/index.md", vec![], vec![]), ("in/docs/page.md", vec![para(vec![interlink("docs")])], vec![])]),
        ("in", vec![("in/a.md", vec![para(vec![interlink("docs")])], vec![])]),
    ]);
    assert!(site.parse_files().unwrap().is_empty());
    assert_eq!(page_of(&site, 0, 0), "<p><a href=\"index.html\">docs</a></p>");
    assert_eq!(page_of(&site, 1, 0), "<p><a href=\"docs/index.html\">docs</a></p>");
    let dirfile = site.dirs[0].dirfile.as_ref().unwrap();
    assert_eq!(dirfile.html(), Some(&String::new()));
    assert_eq!(backlinks_of(dirfile), vec!["page.html", "../a.html"]);
}

#[test]
fn a_document_can_refer_to_one_below_its_own_name() {
    let mut site = render_site(vec![
        ("in/a.html", vec![("in/a.html/b.md", vec![para(vec![interlink("a")])], vec![])]),
        ("in", vec![("in/a.md", vec![para(vec![interlink("b")])], vec![])]),
    ]);
    assert!(site.parse_files().unwrap().is_empty());
    assert_eq!(page_of(&site, 1, 0), "<p><a href=\"a.html/b.html\">b</a></p>");
    assert_eq!(page_of(&site, 0, 0), "<p><a href=\"\">a</a></p>");
    assert_eq!(backlinks_of(&site.dirs[0].files[0]), vec![""]);
    assert_eq!(backlinks_of(&site.dirs[1].files[0]), vec!["a.html/b.html"]);
}

#[test]
fn a_path_that_cannot_be_made_relative_fails_the_build() {
    let mut warm = render_warm();
    warm.indir = SitePath::new();
    let none = || Markup { tokens: vec![], references: References::new() };
    let mut dir = Directory::new(SitePath::new(), &warm).unwrap();
    dir.add_file(File::new(SitePath::parse("/x/far.md"), none(), &warm).unwrap());
    dir.add_file(
        File::new(
            SitePath::parse("a.md"),
            Markup { tokens: vec![para(vec![interlink("far")])], references: References::new() },
            &warm,
        )
        .unwrap(),
    );
    let mut site = Environment::new(warm);
    site.add_directory(dir);
    assert!(matches!(
        site.parse_files(),
        Err(SiteError::Path(PathError::NoCommonAncestor))
    ));
    assert!(matches!(site.dirs[0].files[1].content, Some(Content::Quark(_))));
}

#[test]
fn rendering_one_document_leaves_the_others_waiting() {
    let mut site = render_site(vec![(
        "in",
        vec![
            ("in/a.md", vec![para(vec![interlink("b"), interlink("zzz")])], vec![]),
            ("in/b.md", vec![para(vec![text("b")])], vec![]),
        ],
    )]);
    assert!(site.ready());
    let mut diagnostics = Vec::new();
    site.html(DocRef { dir: 0, slot: Slot::Member(0) }, &mut diagnostics).unwrap();
    assert_eq!(notes(&diagnostics), vec!["interlink zzz didn't match anything!"]);
    assert!(!site.ready());
    assert_eq!(page_of(&site, 0, 0), "<p><a href=\"b.html\">b</a>{zzz}</p>");
    assert!(matches!(site.dirs[0].files[1].content, Some(Content::Quark(_))));
    assert_eq!(backlinks_of(&site.dirs[0].files[1]), vec!["a.html"]);
}

#[test]
fn documents_are_rendered_members_first_then_the_dirfile() {
    let mut site = render_site(vec![(
        "in/docs",
        vec![
            ("in/docs/index.md", vec![para(vec![interlink("nothing-a")])], vec![]),
            ("in/docs/page.md", vec![para(vec![interlink("nothing-b")])], vec![]),
        ],
    )]);
    assert_eq!(
        notes(&site.parse_files().unwrap()),
        vec![
            "interlink nothing-b didn't match anything!",
            "interlink nothing-a didn't match anything!"
        ]
    );
    assert_eq!(site.dirs[0].dirfile.as_ref().unwrap().html(), Some(&"<p>{nothing-a}</p>".to_string()));
    assert_eq!(page_of(&site, 0, 0), "<p>{nothing-b}</p>");
}

#[test]
fn white_space_of_any_kind_is_trimmed_from_references_and_headings() {
    let (outcome, site) = one_page(
        vec![
            Token::Header { level: 1, inner: vec![text("\t\n T t \u{a0}\u{2003}")] },
            para(vec![interlink("\u{2003}\tb\n ")]),
        ],
        vec![],
    );
    assert!(outcome.unwrap().is_empty());
    assert_eq!(page_of(&site, 0, 0), "<h1>T t</h1><p><a href=\"b.html\">b</a></p>");
}

#[test]
fn an_empty_site_renders_to_nothing() {
    let mut site = render_site(vec![]);
    assert!(site.ready());
    assert!(site.parse_files().unwrap().is_empty());
    assert!(site.rendered());
    assert!(site.dirs.is_empty());
}

#[test]
fn inline_pieces_can_be_rendered_on_their_own() {
    let mut site = render_site(vec![("in", vec![("in/a.md", vec![], vec![]), ("in/b.md", vec![], vec![])])]);
    let mut diagnostics = Vec::new();
    let current = SitePath::parse("a.html");
    let references = References::new();
    let html = site
        .html_inline(&current, &references, &vec![text("to "), interlink("b"), interlink("c")], &mut diagnostics)
        .unwrap();
    assert_eq!(html, "to <a href=\"b.html\">b</a>{c}");
    assert_eq!(notes(&diagnostics), vec!["interlink c didn't match anything!"]);
    assert_eq!(backlinks_of(&site.dirs[0].files[1]), vec!["a.html"]);
    let block = site
        .render_token(&current, &references, &Token::Header { level: 2, inner: vec![text(" x ")] }, &mut diagnostics)
        .unwrap();
    assert_eq!(block, "<h2>x</h2>");
    let one = site.render_inline(&current, &references, &Inline::Break, &mut diagnostics).unwrap();
    assert_eq!(one, "<br>");
    let link = Link { name: None, location: "b".to_string(), raw: "b".to_string() };
    let two = site.render_interlink(&current, &link, &mut diagnostics).unwrap();
    assert_eq!(two, "<a href=\"b.html\">b</a>");
    assert_eq!(backlinks_of(&site.dirs[0].files[1]), vec!["a.html", "a.html"]);
    let blocks = site
        .render_tokens(&current, &references, &vec![para(vec![text("p")]), para(vec![text("q")])], &mut diagnostics)
        .unwrap();
    assert_eq!(blocks, "<p>p</p><p>q</p>");
    assert_eq!(diagnostics.len(), 1);
}

#[test]
fn content_can_be_taken_out_and_put_back() {
    let mut site = render_site(vec![("in", vec![("in/a.md", vec![], vec![])])]);
    let doc = DocRef { dir: 0, slot: Slot::Member(0) };
    let taken = site.take_content(doc);
    assert!(matches!(taken, Some(Content::Quark(_))));
    assert!(site.dirs[0].files[0].content.is_none());
    assert!(site.take_content(doc).is_none());
    site.put_content(doc, Some(Content::IncompleteHtml("page".to_string())));
    assert_eq!(site.dirs[0].files[0].html(), Some(&"page".to_string()));
    site.add_backlink(doc, SitePath::parse("b.html"));
    assert_eq!(backlinks_of(&site.dirs[0].files[0]), vec!["b.html"]);
}

fn bare_doc(inpath: &str, relpath: &str) -> File {
    File {
        paths: PathStuff {
            inpath: SitePath::parse(inpath),
            outpath: SitePath::parse(relpath),
            relpath: SitePath::parse(relpath),
        },
        content: None,
        backlinks: vec![],
    }
}

fn bare_dirs() -> Vec<Directory> {
    vec![Directory {
        paths: PathStuff { inpath: SitePath::new(), outpath: SitePath::new(), relpath: SitePath::new() },
        files: vec![bare_doc("x/a.md", "x/a.html"), bare_doc("y/b.md", "y/b.html")],
        dirfile: None,
    }]
}

#[test]
fn a_found_reference_is_rendered_from_the_places_it_names() {
    let link = Link { name: None, location: " b ".to_string(), raw: " b ".to_string() };
    let current = SitePath::parse("x/a.html");
    let first = DocRef { dir: 0, slot: Slot::Member(0) };
    let second = DocRef { dir: 0, slot: Slot::Member(1) };

    let mut dirs = bare_dirs();
    let mut diagnostics = Vec::new();
    let html = link_found(&mut dirs, &current, &link, "b", &vec![second], &mut diagnostics).unwrap();
    assert_eq!(html, "<a href=\"../y/b.html\">b</a>");
    assert_eq!(backlinks_of(&dirs[0].files[1]), vec!["../x/a.html"]);
    assert!(backlinks_of(&dirs[0].files[0]).is_empty());
    assert!(diagnostics.is_empty());

    let html = link_found(&mut dirs, &current, &link, "b", &vec![first], &mut diagnostics).unwrap();
    assert_eq!(html, "<a href=\".\">b</a>");
    assert_eq!(backlinks_of(&dirs[0].files[0]), vec!["."]);

    let html = link_found(&mut dirs, &current, &link, "b", &vec![], &mut diagnostics).unwrap();
    assert_eq!(html, "{ b }");
    assert_eq!(notes(&diagnostics), vec!["interlink b didn't match anything!"]);

    match link_found(&mut dirs, &current, &link, "b", &vec![first, second], &mut diagnostics) {
        Err(SiteError::LinkAmbiguity { reference }) => assert_eq!(reference, "b"),
        _ => panic!("the reference was rendered"),
    }
    assert_eq!(backlinks_of(&dirs[0].files[1]), vec!["../x/a.html"]);
    assert_eq!(diagnostics.len(), 1);
}

fn all_backlinks(site: &Environment) -> Vec<Vec<String>> {
    let mut all = Vec::new();
    for dir in &site.dirs {
        for file in &dir.files {
            all.push(backlinks_of(file));
        }
        if let Some(file) = &dir.dirfile {
            all.push(backlinks_of(file));
        }
    }
    all
}

#[test]
fn a_reference_that_names_nothing_changes_nothing_around_it() {
    let build = |with: bool| {
        let mut first = vec![text("see "), interlink("b")];
        if with {
            first.push(interlink("nowhere"));
        }
        first.push(interlink("x/c"));
        let mut site = render_site(vec![
            ("in/x", vec![("in/x/c.md", vec![para(vec![interlink("a")])], vec![])]),
            (
                "in",
                vec![
                    ("in/a.md", vec![para(first), para(vec![interlink("b")])], vec![]),
                    ("in/b.md", vec![para(vec![interlink("a")])], vec![]),
                ],
            ),
        ]);
        let outcome = site.parse_files();
        (outcome, site)
    };
    let (with_outcome, with) = build(true);
    let (without_outcome, without) = build(false);
    assert_eq!(notes(&with_outcome.unwrap()), vec!["interlink nowhere didn't match anything!"]);
    assert!(without_outcome.unwrap().is_empty());
    assert_eq!(all_backlinks(&with), all_backlinks(&without));
    assert_eq!(
        all_backlinks(&with),
        vec![vec!["../a.html"], vec!["x/c.html", "b.html"], vec!["a.html", "a.html"]]
    );
    assert_eq!(page_of(&with, 0, 0), page_of(&without, 0, 0));
    assert_eq!(page_of(&with, 1, 1), page_of(&without, 1, 1));
    assert_eq!(
        page_of(&with, 1, 0),
        "<p>see <a href=\"b.html\">b</a>{nowhere}<a href=\"x/c.html\">x/c</a></p><p><a href=\"b.html\">b</a></p>"
    );
    assert_eq!(
        page_of(&without, 1, 0),
        "<p>see <a href=\"b.html\">b</a><a href=\"x/c.html\">x/c</a></p><p><a href=\"b.html\">b</a></p>"
    );
}

#[test]
fn the_build_names_the_first_reference_that_names_several_documents() {
    let mut site = render_site(vec![
        ("in/one", vec![("in/one/todo.md", vec![], vec![]), ("in/one/done.md", vec![], vec![])]),
        ("in/two", vec![("in/two/todo.md", vec![], vec![]), ("in/two/done.md", vec![], vec![])]),
        (
            "in",
            vec![
                (
                    "in/a.md",
                    vec![
                        para(vec![interlink("nowhere"), interlink("one/todo")]),
                        para(vec![text("then "), interlink(" done"), interlink("todo")]),
                    ],
                    vec![],
                ),
                ("in/b.md", vec![para(vec![interlink("todo")])], vec![]),
            ],
        ),
    ]);
    match site.parse_files() {
        Err(SiteError::LinkAmbiguity { reference }) => assert_eq!(reference, "done"),
        _ => panic!("the build went on"),
    }
    assert_eq!(backlinks_of(&site.dirs[0].files[0]), vec!["../a.html"]);
    assert!(backlinks_of(&site.dirs[0].files[1]).is_empty());
}

#[test]
fn every_reference_to_a_document_leaves_it_the_same_backlink() {
    let mut site = render_site(vec![
        (
            "in/x",
            vec![(
                "in/x/a.md",
                vec![
                    para(vec![interlink("top"), text(" and "), named_interlink("again", "top")]),
                    para(vec![interlink("a"), interlink(" top ")]),
                ],
                vec![],
            )],
        ),
        ("in", vec![("in/top.md", vec![para(vec![interlink("x/a")])], vec![])]),
    ]);
    assert!(site.parse_files().unwrap().is_empty());
    assert_eq!(
        backlinks_of(&site.dirs[1].files[0]),
        vec!["x/a.html", "x/a.html", "x/a.html"]
    );
    assert_eq!(backlinks_of(&site.dirs[0].files[0]), vec![".", "../top.html"]);
}
