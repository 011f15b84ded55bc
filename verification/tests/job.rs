use bempline::{Document, Options};
use confindent::Confindent;
use sitegraph::job::{job_kind, require_setting, ConfigError, Job, JobKind, Warm, WarmSettings};
use sitegraph::template::require_pattern;
use sitegraph::error::SiteError;

const CONFIG: &str = "Job site\n\tType Warm\n\tIn notes/in\n\tOut public\n\tTemplate page.bpl\n\t\tContentKey content\n\t\tBacklinkPattern backlinks\n\t\tBacklinkKey bl\n\t\tBacklinkNameKey blname\n\t\tFriendPattern friends\n\t\tFriendKey fr\n\t\tFriendNameKey frname\n";

fn job_template() -> Document {
    Document::from_str("{content}", Options::default()).unwrap()
}

fn job_config(text: &str) -> Confindent {
    text.parse().unwrap()
}

fn full_settings() -> WarmSettings {
    WarmSettings {
        name: Some("site".to_string()),
        indir: Some("in".to_string()),
        outdir: Some("out".to_string()),
        content_key: Some("content".to_string()),
        backlink_pattern: Some("backlinks".to_string()),
        backlink_key: Some("bl".to_string()),
        backlink_name_key: Some("blname".to_string()),
        friend_pattern: Some("friends".to_string()),
        friend_key: Some("fr".to_string()),
        friend_name_key: Some("frname".to_string()),
    }
}

fn missing_key(made: Result<Warm, ConfigError>) -> String {
    match made {
        Err(ConfigError::Missing { key }) => key,
        _ => panic!("nothing was reported missing"),
    }
}

#[test]
fn a_warm_job_is_read_from_its_configuration() {
    let conf = job_config(CONFIG);
    let section = conf.child("Job").unwrap();
    assert_eq!(Job::kind(section).ok(), Some(JobKind::Warm));
    assert_eq!(Warm::template_path(section), Some("page.bpl".to_string()));
    let Job::Warm(warm) = Job::new(section, job_template()).ok().unwrap();
    assert_eq!(warm.name, "site");
    assert_eq!(warm.indir.to_text(), "notes/in");
    assert_eq!(warm.indir.depth(), 2);
    assert_eq!(warm.outdir.to_text(), "public");
    assert_eq!(warm.content_key, "content");
    assert_eq!(warm.backlink_pattern, "backlinks");
    assert_eq!(warm.backlink_key, "bl");
    assert_eq!(warm.backlink_name_key, "blname");
    assert_eq!(warm.friend_pattern, "friends");
    assert_eq!(warm.friend_key, "fr");
    assert_eq!(warm.friend_name_key, "frname");
    assert_eq!(warm.template.compile(), "{content}");
}

#[test]
fn the_type_of_a_job_is_read_without_regard_to_case() {
    assert_eq!(job_kind(Some("warm")).ok(), Some(JobKind::Warm));
    assert_eq!(job_kind(Some("WARM")).ok(), Some(JobKind::Warm));
    assert_eq!(job_kind(Some("WaRm")).ok(), Some(JobKind::Warm));
}

#[test]
fn a_job_without_type_is_refused() {
    assert!(matches!(job_kind(None), Err(ConfigError::NoJobType)));
    let conf = job_config("Job site\n\tIn in\n");
    let section = conf.child("Job").unwrap();
    assert!(matches!(Job::kind(section), Err(ConfigError::NoJobType)));
    assert!(matches!(Job::new(section, job_template()), Err(ConfigError::NoJobType)));
    assert_eq!(ConfigError::NoJobType.message(), "No job type");
}

#[test]
fn a_job_of_unknown_type_is_refused() {
    match job_kind(Some("Cold")) {
        Err(ConfigError::UnknownJobType { kind }) => assert_eq!(kind, "cold"),
        _ => panic!("the type was accepted"),
    }
    match job_kind(Some(" warm")) {
        Err(ConfigError::UnknownJobType { kind }) => assert_eq!(kind, " warm"),
        _ => panic!("the type was accepted"),
    }
    let conf = job_config("Job site\n\tType Hot\n");
    match Job::new(conf.child("Job").unwrap(), job_template()) {
        Err(error) => assert_eq!(error.message(), "Job type hot not understood"),
        Ok(_) => panic!("the type was accepted"),
    }
}

#[test]
fn a_job_reports_the_first_setting_it_lacks() {
    assert!(Warm::from_settings(full_settings(), job_template()).is_ok());
    let mut settings = full_settings();
    settings.friend_name_key = None;
    assert_eq!(missing_key(Warm::from_settings(settings, job_template())), "FriendNameKey");
    let mut settings = full_settings();
    settings.friend_key = None;
    settings.friend_name_key = None;
    assert_eq!(missing_key(Warm::from_settings(settings, job_template())), "FriendKey");
    let mut settings = full_settings();
    settings.friend_pattern = None;
    assert_eq!(missing_key(Warm::from_settings(settings, job_template())), "FriendPattern");
    let mut settings = full_settings();
    settings.backlink_name_key = None;
    assert_eq!(missing_key(Warm::from_settings(settings, job_template())), "BacklinkNameKey");
    let mut settings = full_settings();
    settings.backlink_key = None;
    assert_eq!(missing_key(Warm::from_settings(settings, job_template())), "BacklinkKey");
    let mut settings = full_settings();
    settings.backlink_pattern = None;
    assert_eq!(missing_key(Warm::from_settings(settings, job_template())), "BacklinkPattern");
    let mut settings = full_settings();
    settings.content_key = None;
    settings.backlink_key = None;
    assert_eq!(missing_key(Warm::from_settings(settings, job_template())), "ContentKey");
    let mut settings = full_settings();
    settings.outdir = None;
    assert_eq!(missing_key(Warm::from_settings(settings, job_template())), "Out");
    let mut settings = full_settings();
    settings.indir = None;
    settings.outdir = None;
    assert_eq!(missing_key(Warm::from_settings(settings, job_template())), "In");
    let mut settings = full_settings();
    settings.name = None;
    settings.indir = None;
    assert_eq!(missing_key(Warm::from_settings(settings, job_template())), "Job");
}

#[test]
fn settings_are_read_as_they_are_found() {
    let conf = job_config("Job\n\tType warm\n\tOut o\n\tTemplate t\n\t\tBacklinkKey bl\n");
    let section = conf.child("Job").unwrap();
    let settings = Warm::read_settings(section);
    assert_eq!(settings.name, None);
    assert_eq!(settings.indir, None);
    assert_eq!(settings.outdir, Some("o".to_string()));
    assert_eq!(settings.content_key, None);
    assert_eq!(settings.backlink_key, Some("bl".to_string()));
    assert_eq!(settings.friend_key, None);
    assert_eq!(missing_key(Warm::new(section, job_template())), "Job");
    assert_eq!(
        ConfigError::Missing { key: "In".to_string() }.message(),
        "The job lacks In"
    );
    let bare = job_config("Job site\n\tType warm\n\tIn i\n\tOut o\n");
    let section = bare.child("Job").unwrap();
    assert_eq!(Warm::template_path(section), None);
    assert_eq!(missing_key(Warm::new(section, job_template())), "ContentKey");
    assert!(matches!(
        Job::of_kind(JobKind::Warm, section, job_template()),
        Err(ConfigError::Missing { .. })
    ));
}

#[test]
fn the_first_line_with_a_key_is_the_one_that_counts() {
    let conf = job_config(
        "Job site\n\tType warm\n\tIn first\n\tIn second\n\tOut o\n\tTemplate\n\t\tContentKey c\n\t\tContentKey d\n\tTemplate later.bpl\n\t\tBacklinkKey bl\n",
    );
    let section = conf.child("Job").unwrap();
    assert_eq!(Warm::template_path(section), None);
    let settings = Warm::read_settings(section);
    assert_eq!(settings.name, Some("site".to_string()));
    assert_eq!(settings.indir, Some("first".to_string()));
    assert_eq!(settings.content_key, Some("c".to_string()));
    assert_eq!(settings.backlink_key, None);
    assert_eq!(missing_key(Warm::new(section, job_template())), "BacklinkPattern");
}

#[test]
fn the_type_is_looked_at_before_the_settings() {
    let conf = job_config("Job\n\tType cold\n");
    match Job::new(conf.child("Job").unwrap(), job_template()) {
        Err(ConfigError::UnknownJobType { kind }) => assert_eq!(kind, "cold"),
        _ => panic!("the type was accepted"),
    }
    let warm = job_config("Job\n\tType warm\n");
    assert_eq!(
        missing_key(Job::new(warm.child("Job").unwrap(), job_template()).map(|Job::Warm(w)| w)),
        "Job"
    );
}

#[test]
fn a_setting_that_was_found_is_taken() {
    assert_eq!(require_setting(Some("x".to_string()), "Key").ok(), Some("x".to_string()));
    assert_eq!(missing_key(require_setting(None, "Key").map(|_| unreachable!())), "Key");
}

#[test]
fn a_pattern_that_was_found_is_taken() {
    let template = Document::from_str("{%pattern p}{x}{%end}", Options::default()).unwrap();
    let found = require_pattern(template.get_pattern("p"), "p").ok().unwrap();
    assert_eq!(found.compile(), "{x}");
    match require_pattern(template.get_pattern("q"), "q") {
        Err(SiteError::TemplateSlotMissing { slot }) => assert_eq!(slot, "q"),
        _ => panic!("a pattern was found"),
    }
}
