use camino::{Utf8Path, Utf8PathBuf};
use sitegraph::path::{Part, SitePath};
use sitegraph::warm::relativise_path;

const SAMPLES: [&str; 24] = [
    "",
    ".",
    "..",
    "/",
    "a",
    "a/",
    "./a",
    "../a",
    "/a",
    "a/b",
    "a//b",
    "a/./b",
    "a/b/",
    "a/../b",
    "/a/b",
    "a/b/c.html",
    "a/b/c.tar.gz",
    "b/c.html",
    "c.html",
    ".hidden",
    "docs/index.md",
    "docs/.",
    "docs/..",
    "x/..a",
];

fn same_text(ours: &SitePath, theirs: &Utf8Path) -> bool {
    let back = ours.to_text();
    Utf8Path::new(&back) == theirs
}

#[test]
fn reading_and_writing_a_path_gives_an_equal_path() {
    for text in SAMPLES {
        let ours = SitePath::parse(text);
        assert!(same_text(&ours, Utf8Path::new(text)), "{text}");
        assert_eq!(ours.depth(), Utf8Path::new(text).components().count(), "{text}");
        assert!(SitePath::parse(&ours.to_text()).same(&ours), "{text}");
    }
}

#[test]
fn comparisons_agree_with_the_path_library() {
    for a in SAMPLES {
        for b in SAMPLES {
            let (ours_a, ours_b) = (SitePath::parse(a), SitePath::parse(b));
            let (theirs_a, theirs_b) = (Utf8Path::new(a), Utf8Path::new(b));
            assert_eq!(ours_a.same(&ours_b), theirs_a == theirs_b, "{a} == {b}");
            assert_eq!(ours_a.starts_with(&ours_b), theirs_a.starts_with(theirs_b), "{a} starts with {b}");
            assert_eq!(ours_a.ends_with(&ours_b), theirs_a.ends_with(theirs_b), "{a} ends with {b}");
        }
    }
}

#[test]
fn stripping_a_prefix_agrees_with_the_path_library() {
    for a in SAMPLES {
        for b in SAMPLES {
            let ours = SitePath::parse(a).strip_prefix(&SitePath::parse(b));
            let theirs = Utf8Path::new(a).strip_prefix(b);
            match (ours, theirs) {
                (Some(ours), Ok(theirs)) => assert!(same_text(&ours, theirs), "{a} without {b}"),
                (None, Err(_)) => {}
                _ => panic!("{a} without {b}"),
            }
        }
    }
}

#[test]
fn joining_agrees_with_the_path_library() {
    for a in SAMPLES {
        for b in SAMPLES {
            let ours = SitePath::parse(a).join(&SitePath::parse(b));
            let theirs = Utf8Path::new(a).join(b);
            assert!(same_text(&ours, &theirs), "{a} joined with {b}");
            let mut pushed = SitePath::parse(a);
            pushed.push(&SitePath::parse(b));
            assert!(pushed.same(&ours), "{a} pushed with {b}");
        }
    }
}

#[test]
fn taking_the_parent_agrees_with_the_path_library() {
    for text in SAMPLES {
        let mut ours = SitePath::parse(text);
        let mut theirs = Utf8PathBuf::from(text);
        loop {
            match (ours.parent(), theirs.parent()) {
                (Some(up), Some(their_up)) => assert!(same_text(&up, their_up), "{text}"),
                (None, None) => {}
                _ => panic!("{text}"),
            }
            let popped = ours.pop();
            assert_eq!(popped, theirs.pop(), "{text}");
            assert!(same_text(&ours, &theirs), "{text}");
            if !popped {
                break;
            }
        }
    }
}

#[test]
fn names_and_extensions_agree_with_the_path_library() {
    for text in SAMPLES {
        let ours = SitePath::parse(text);
        let theirs = Utf8Path::new(text);
        assert_eq!(ours.file_name(), theirs.file_name().map(|n| n.to_string()), "{text}");
        assert_eq!(ours.file_stem(), theirs.file_stem().map(|n| n.to_string()), "{text}");
        for extension in ["html", "", "tar.gz"] {
            assert!(same_text(&ours.with_extension(extension), &theirs.with_extension(extension)), "{text}");
            let mut changed = SitePath::parse(text);
            let mut their_changed = Utf8PathBuf::from(text);
            assert_eq!(changed.set_extension(extension), their_changed.set_extension(extension), "{text}");
            assert!(same_text(&changed, &their_changed), "{text}");
        }
    }
}

fn by_the_path_library(base: &str, target: &str) -> Option<Utf8PathBuf> {
    let mut base = Utf8PathBuf::from(base);
    let target = Utf8PathBuf::from(target);
    if base == target {
        return Some(Utf8PathBuf::from("."));
    }
    let mut pop_count: usize = 0;
    loop {
        if target.starts_with(&base) {
            break;
        }
        if !base.pop() {
            break;
        } else {
            pop_count += 1;
        }
    }
    let climbs = pop_count.checked_sub(1)?;
    let mut backtrack: Utf8PathBuf = std::iter::repeat("../").take(climbs).collect();
    let target = target.strip_prefix(base).ok()?.to_owned();
    backtrack.push(target);
    Some(backtrack)
}

#[test]
fn relative_paths_agree_with_the_path_library() {
    for a in SAMPLES {
        for b in SAMPLES {
            let ours = relativise_path(&SitePath::parse(a), &SitePath::parse(b)).ok();
            let theirs = by_the_path_library(a, b);
            match (ours, theirs) {
                (Some(ours), Some(theirs)) => assert!(same_text(&ours, &theirs), "from {a} to {b}"),
                (None, None) => {}
                (Some(_), None) => assert!(Utf8Path::new(b).starts_with(a), "from {a} to {b}"),
                (None, Some(_)) => panic!("from {a} to {b}"),
            }
        }
    }
}

const NAMES: [&str; 18] = [
    "index.md", "index", "a", "a.", "a.b.c", ".a", ".a.b", "...", "..a", "a..", "README",
    "x.tar.gz", "ü.ö", "a b.c d", "-", "in.md", "foo.html", "a\u{a0}.b",
];

fn stem_by_the_rule(name: &str) -> String {
    let letters: Vec<char> = name.chars().collect();
    match letters.iter().rposition(|c| *c == '.') {
        Some(at) if at > 0 => letters[..at].iter().collect(),
        _ => name.to_string(),
    }
}

fn renamed_by_the_rule(name: &str, extension: &str) -> String {
    if extension.is_empty() {
        stem_by_the_rule(name)
    } else {
        format!("{}.{}", stem_by_the_rule(name), extension)
    }
}

#[test]
fn the_stem_of_a_plain_name_follows_the_rule() {
    for name in NAMES {
        let path = SitePath::from_parts(vec![Part::Normal(name.to_string())]);
        assert_eq!(path.file_stem(), Some(stem_by_the_rule(name)), "{name}");
        assert_eq!(Utf8Path::new(name).file_stem(), Some(stem_by_the_rule(name).as_str()), "{name}");
        assert_eq!(Utf8Path::new(name).components().count(), 1, "{name}");
    }
}

#[test]
fn the_extension_of_a_plain_name_is_set_by_the_rule() {
    for name in NAMES {
        for extension in ["html", "", "tar.gz", "x"] {
            let mut path = SitePath::from_parts(vec![Part::Normal(name.to_string())]);
            assert!(path.set_extension(extension));
            assert_eq!(path.depth(), 1);
            assert_eq!(path.parts[0].text(), renamed_by_the_rule(name, extension), "{name} {extension}");
            let mut theirs = Utf8PathBuf::from(name);
            theirs.set_extension(extension);
            assert_eq!(theirs.as_str(), renamed_by_the_rule(name, extension), "{name} {extension}");
        }
    }
}

#[test]
fn replacing_an_extension_is_not_always_setting_it() {
    let path = SitePath::from_parts(vec![Part::Normal("..a".to_string())]);
    assert_eq!(path.with_extension("html").parts[0].text(), Utf8Path::new("..a").with_extension("html").as_str());
    let mut set = SitePath::from_parts(vec![Part::Normal("..a".to_string())]);
    set.set_extension("html");
    assert_eq!(set.parts[0].text(), "..html");
    for name in NAMES {
        if name.starts_with("..") {
            continue;
        }
        for extension in ["", "html", "tar.gz"] {
            let path = SitePath::from_parts(vec![Part::Normal(name.to_string())]);
            assert_eq!(
                path.with_extension(extension).parts[0].text(),
                renamed_by_the_rule(name, extension),
                "{name} {extension}"
            );
            assert_eq!(
                Utf8Path::new(name).with_extension(extension).as_str(),
                renamed_by_the_rule(name, extension),
                "{name} {extension}"
            );
        }
    }
}
