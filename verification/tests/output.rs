use bempline::{Document, Options};
use sitegraph::job::Warm;
use sitegraph::path::SitePath;
use sitegraph::warm::{Directory, Environment};

fn output_warm() -> Warm {
    Warm {
        name: "site".to_string(),
        indir: SitePath::parse("in"),
        outdir: SitePath::parse("out"),
        template: Document::from_str("{content}", Options::default()).unwrap(),
        content_key: "content".to_string(),
        backlink_pattern: "backlinks".to_string(),
        backlink_key: "bl".to_string(),
        backlink_name_key: "blname".to_string(),
        friend_pattern: "friends".to_string(),
        friend_key: "fr".to_string(),
        friend_name_key: "frname".to_string(),
    }
}

fn output_site(dirs: &[&str]) -> Environment {
    let warm = output_warm();
    let made: Vec<Directory> =
        dirs.iter().map(|d| Directory::new(SitePath::parse(d), &warm).unwrap()).collect();
    let mut site = Environment::new(warm);
    for dir in made {
        site.add_directory(dir);
    }
    site
}

fn order(site: &Environment) -> Vec<String> {
    site.dirs.iter().map(|d| d.paths.inpath.to_text()).collect()
}

fn listed(paths: &[SitePath]) -> Vec<String> {
    paths.iter().map(|p| p.to_text()).collect()
}

#[test]
fn directories_are_made_shallow_to_deep() {
    let mut site = output_site(&["in/a/b/c", "in/a/b", "in/x/y", "in/a", "in/x", "in"]);
    let created = site.prepare_output();
    assert_eq!(order(&site), vec!["in", "in/a", "in/x", "in/a/b", "in/x/y", "in/a/b/c"]);
    assert_eq!(listed(&created), vec!["out/a", "out/x", "out/a/b", "out/x/y", "out/a/b/c"]);
    assert_eq!(site.dirs[0].paths.outpath.to_text(), "out");
    for (i, early) in created.iter().enumerate() {
        for late in &created[i + 1..] {
            assert!(early.depth() <= late.depth());
            assert!(!(early.starts_with(late) && !early.same(late)));
        }
    }
}

#[test]
fn directories_of_one_depth_keep_their_order() {
    let mut site = output_site(&["in/c", "in/a/z", "in/b", "in/a", "in/b/y"]);
    let created = site.prepare_output();
    assert_eq!(order(&site), vec!["in/c", "in/b", "in/a", "in/a/z", "in/b/y"]);
    assert_eq!(listed(&created), vec!["out/c", "out/b", "out/a", "out/a/z", "out/b/y"]);
    let again = site.prepare_output();
    assert_eq!(order(&site), vec!["in/c", "in/b", "in/a", "in/a/z", "in/b/y"]);
    assert_eq!(listed(&again), listed(&created));
}

#[test]
fn the_output_root_itself_is_not_made() {
    let mut warm = output_warm();
    warm.indir = SitePath::parse("/srv/in");
    warm.outdir = SitePath::parse("/");
    let root = Directory::new(SitePath::parse("/srv/in"), &warm).unwrap();
    let sub = Directory::new(SitePath::parse("/srv/in/docs"), &warm).unwrap();
    let mut site = Environment::new(warm);
    site.add_directory(sub);
    site.add_directory(root);
    let created = site.prepare_output();
    assert_eq!(order(&site), vec!["/srv/in", "/srv/in/docs"]);
    assert_eq!(listed(&created), vec!["/docs"]);
}

#[test]
fn a_site_without_directories_makes_none() {
    let mut site = output_site(&[]);
    assert!(site.prepare_output().is_empty());
    assert!(site.dirs.is_empty());
}
