//! What a run is asked to do, as its configuration says it.

use crate::path::{path_components, PartView, SitePath};
use crate::text::{lowercase_text, lowercased};
use bempline::Document;
use confindent::Value;
use vstd::prelude::*;

verus! {

#[verifier::external_type_specification]
#[verifier::external_body]
pub struct ExValue(Value);

/// The value that a line of the configuration has itself, if it has one.
pub uninterp spec fn own_value(conf: Value) -> Option<Seq<char>>;

/// What the lines directly below a line of the configuration hold: under each
/// key the value of the first line with that key, where that line has a
/// value.
pub uninterp spec fn child_values(conf: Value) -> Map<Seq<char>, Seq<char>>;

/// What the lines two levels below a line of the configuration hold: under a
/// pair of keys, what the first line below with the first key holds under the
/// second.
pub uninterp spec fn nested_values(conf: Value) -> Map<(Seq<char>, Seq<char>), Seq<char>>;

/// What is held under a key, if anything is.
pub open spec fn held<K>(values: Map<K, Seq<char>>, key: K) -> Option<Seq<char>> {
    if values.contains_key(key) {
        Some(values[key])
    } else {
        None
    }
}

/// `Value::value_owned`: the value of a line of the configuration, if it has
/// one.
#[verifier::external_body]
fn config_value(conf: &Value) -> (value: Option<String>)
    ensures
        value.deep_view() == own_value(*conf),
{
    conf.value_owned()
}

/// `Value::child`: the first line below a line of the configuration that has
/// the given key. Its own value is what the line above holds under the key,
/// and what it holds under a key is what the line above holds under the two
/// keys; where there is no such line, the line above holds nothing under the
/// key.
#[verifier::external_body]
fn config_child<'a>(conf: &'a Value, key: &str) -> (child: Option<&'a Value>)
    ensures
        match child {
            Some(section) => {
                &&& own_value(*section) == held(child_values(*conf), key@)
                &&& forall|below: Seq<char>| #[trigger]
                    held(child_values(*section), below) == held(
                        nested_values(*conf),
                        (key@, below),
                    )
            },
            None => {
                &&& !child_values(*conf).contains_key(key@)
                &&& forall|below: Seq<char>|
                    !(#[trigger] nested_values(*conf).contains_key((key@, below)))
            },
        },
{
    conf.child(key)
}

/// `Value::child_value`: the value of the first line below a line of the
/// configuration that has the given key.
#[verifier::external_body]
fn config_child_value<'a>(conf: &'a Value, key: &str) -> (value: Option<&'a str>)
    ensures
        value.deep_view() == held(child_values(*conf), key@),
{
    conf.child_value(key)
}

/// `Value::child_owned`: as `Value::child_value`, in a string of its own.
#[verifier::external_body]
fn config_child_owned(conf: &Value, key: &str) -> (value: Option<String>)
    ensures
        value.deep_view() == held(child_values(*conf), key@),
{
    conf.child_owned(key)
}

/// Why a configuration cannot be used.
#[derive(Debug)]
pub enum ConfigError {
    /// The job does not say of what type it is.
    NoJobType,
    /// The job is of a type that is not known.
    UnknownJobType { kind: String },
    /// A line that the job needs is missing, or has no value.
    Missing { key: String },
}

/// The mathematical value of a [`ConfigError`].
pub enum ConfigErrorView {
    NoJobType,
    UnknownJobType { kind: Seq<char> },
    Missing { key: Seq<char> },
}

impl View for ConfigError {
    type V = ConfigErrorView;

    open spec fn view(&self) -> ConfigErrorView {
        match self {
            ConfigError::NoJobType => ConfigErrorView::NoJobType,
            ConfigError::UnknownJobType { kind } => ConfigErrorView::UnknownJobType { kind: kind@ },
            ConfigError::Missing { key } => ConfigErrorView::Missing { key: key@ },
        }
    }
}

/// The sentence that [`ConfigError::message`] gives for an error.
pub open spec fn config_message(error: ConfigErrorView) -> Seq<char> {
    match error {
        ConfigErrorView::NoJobType => "No job type"@,
        ConfigErrorView::UnknownJobType { kind } => "Job type "@ + kind + " not understood"@,
        ConfigErrorView::Missing { key } => "The job lacks "@ + key,
    }
}

impl ConfigError {
    /// A sentence that says what is wrong.
    pub fn message(&self) -> (text: String)
        ensures
            text@ == config_message(self@),
    {
        match self {
            ConfigError::NoJobType => "No job type".to_owned(),
            ConfigError::UnknownJobType { kind } => {
                let mut text = "Job type ".to_owned();
                text.append(kind.as_str());
                text.append(" not understood");
                text
            },
            ConfigError::Missing { key } => {
                let mut text = "The job lacks ".to_owned();
                text.append(key.as_str());
                text
            },
        }
    }
}

/// The types of job.
#[derive(Clone, Copy, Debug, PartialEq, Eq, Structural)]
pub enum JobKind {
    Warm,
}

/// The type of job that a configuration asks for, read from what its `Type`
/// line holds; upper and lower case count as the same.
pub open spec fn job_kind_spec(kind: Option<Seq<char>>) -> Result<JobKind, ConfigErrorView> {
    match kind {
        None => Err(ConfigErrorView::NoJobType),
        Some(written) => if lowercased(written) == "warm"@ {
            Ok(JobKind::Warm)
        } else {
            Err(ConfigErrorView::UnknownJobType { kind: lowercased(written) })
        },
    }
}

/// Tells the type of job from what the `Type` line of a configuration holds.
pub fn job_kind(kind: Option<&str>) -> (found: Result<JobKind, ConfigError>)
    ensures
        match found {
            Ok(k) => job_kind_spec(kind.deep_view()) == Ok::<JobKind, ConfigErrorView>(k),
            Err(e) => job_kind_spec(kind.deep_view()) == Err::<JobKind, ConfigErrorView>(e@),
        },
{
    match kind {
        None => Err(ConfigError::NoJobType),
        Some(written) => {
            let lower = lowercase_text(written);
            let warm = "warm".to_owned();
            if lower.eq(&warm) {
                Ok(JobKind::Warm)
            } else {
                Err(ConfigError::UnknownJobType { kind: lower })
            }
        },
    }
}

/// What the lines of a job hold, each as it was found.
#[derive(Debug)]
pub struct WarmSettings {
    pub name: Option<String>,
    pub indir: Option<String>,
    pub outdir: Option<String>,
    pub content_key: Option<String>,
    pub backlink_pattern: Option<String>,
    pub backlink_key: Option<String>,
    pub backlink_name_key: Option<String>,
    pub friend_pattern: Option<String>,
    pub friend_key: Option<String>,
    pub friend_name_key: Option<String>,
}

/// The mathematical value of a [`WarmSettings`].
pub struct WarmSettingsView {
    pub name: Option<Seq<char>>,
    pub indir: Option<Seq<char>>,
    pub outdir: Option<Seq<char>>,
    pub content_key: Option<Seq<char>>,
    pub backlink_pattern: Option<Seq<char>>,
    pub backlink_key: Option<Seq<char>>,
    pub backlink_name_key: Option<Seq<char>>,
    pub friend_pattern: Option<Seq<char>>,
    pub friend_key: Option<Seq<char>>,
    pub friend_name_key: Option<Seq<char>>,
}

impl View for WarmSettings {
    type V = WarmSettingsView;

    open spec fn view(&self) -> WarmSettingsView {
        WarmSettingsView {
            name: self.name.deep_view(),
            indir: self.indir.deep_view(),
            outdir: self.outdir.deep_view(),
            content_key: self.content_key.deep_view(),
            backlink_pattern: self.backlink_pattern.deep_view(),
            backlink_key: self.backlink_key.deep_view(),
            backlink_name_key: self.backlink_name_key.deep_view(),
            friend_pattern: self.friend_pattern.deep_view(),
            friend_key: self.friend_key.deep_view(),
            friend_name_key: self.friend_name_key.deep_view(),
        }
    }
}

/// What the lines of a job hold in a configuration: the name is the value of
/// the job's own line, the directories stand directly below it, and the keys
/// of the template stand below its `Template` line.
pub open spec fn settings_of(conf: Value) -> WarmSettingsView {
    WarmSettingsView {
        name: own_value(conf),
        indir: held(child_values(conf), "In"@),
        outdir: held(child_values(conf), "Out"@),
        content_key: held(nested_values(conf), ("Template"@, "ContentKey"@)),
        backlink_pattern: held(nested_values(conf), ("Template"@, "BacklinkPattern"@)),
        backlink_key: held(nested_values(conf), ("Template"@, "BacklinkKey"@)),
        backlink_name_key: held(nested_values(conf), ("Template"@, "BacklinkNameKey"@)),
        friend_pattern: held(nested_values(conf), ("Template"@, "FriendPattern"@)),
        friend_key: held(nested_values(conf), ("Template"@, "FriendKey"@)),
        friend_name_key: held(nested_values(conf), ("Template"@, "FriendNameKey"@)),
    }
}

/// The type of job that a configuration asks for: what its `Type` line
/// holds, read without regard to case.
pub open spec fn kind_of(conf: Value) -> Result<JobKind, ConfigErrorView> {
    job_kind_spec(held(child_values(conf), "Type"@))
}

/// The job that settings describe: the first setting that is missing is
/// reported, complete settings give the job.
pub open spec fn warm_spec(settings: WarmSettingsView) -> Result<WarmView, ConfigErrorView> {
    match first_missing(settings) {
        Some(key) => Err(ConfigErrorView::Missing { key }),
        None => Ok(warm_of(settings)),
    }
}

/// The job that a configuration describes: its type must be known, and its
/// settings complete.
pub open spec fn job_spec(conf: Value) -> Result<WarmView, ConfigErrorView> {
    match kind_of(conf) {
        Err(error) => Err(error),
        Ok(JobKind::Warm) => warm_spec(settings_of(conf)),
    }
}

/// A job that turns a tree of documents into a tree of pages.
#[derive(Debug)]
pub struct Warm {
    pub name: String,
    pub indir: SitePath,
    pub outdir: SitePath,
    pub template: Document,
    pub content_key: String,
    pub backlink_pattern: String,
    pub backlink_key: String,
    pub backlink_name_key: String,
    pub friend_pattern: String,
    pub friend_key: String,
    pub friend_name_key: String,
}

/// The mathematical value of a [`Warm`], without its template.
pub struct WarmView {
    pub name: Seq<char>,
    pub indir: Seq<PartView>,
    pub outdir: Seq<PartView>,
    pub content_key: Seq<char>,
    pub backlink_pattern: Seq<char>,
    pub backlink_key: Seq<char>,
    pub backlink_name_key: Seq<char>,
    pub friend_pattern: Seq<char>,
    pub friend_key: Seq<char>,
    pub friend_name_key: Seq<char>,
}

impl View for Warm {
    type V = WarmView;

    open spec fn view(&self) -> WarmView {
        WarmView {
            name: self.name@,
            indir: self.indir@,
            outdir: self.outdir@,
            content_key: self.content_key@,
            backlink_pattern: self.backlink_pattern@,
            backlink_key: self.backlink_key@,
            backlink_name_key: self.backlink_name_key@,
            friend_pattern: self.friend_pattern@,
            friend_key: self.friend_key@,
            friend_name_key: self.friend_name_key@,
        }
    }
}

/// Takes a setting that was looked up under `key`, or reports that it is
/// missing.
pub fn require_setting(found: Option<String>, key: &str) -> (taken: Result<String, ConfigError>)
    ensures
        match (found, taken) {
            (Some(value), Ok(text)) => text@ == value@,
            (None, Err(error)) => error@ == (ConfigErrorView::Missing { key: key@ }),
            _ => false,
        },
{
    match found {
        Some(value) => Ok(value),
        None => Err(ConfigError::Missing { key: key.to_owned() }),
    }
}

/// The first line that a job needs and that the settings lack, in the order
/// in which a job reads them.
pub open spec fn first_missing(settings: WarmSettingsView) -> Option<Seq<char>> {
    if settings.name is None {
        Some("Job"@)
    } else if settings.indir is None {
        Some("In"@)
    } else if settings.outdir is None {
        Some("Out"@)
    } else if settings.content_key is None {
        Some("ContentKey"@)
    } else if settings.backlink_pattern is None {
        Some("BacklinkPattern"@)
    } else if settings.backlink_key is None {
        Some("BacklinkKey"@)
    } else if settings.backlink_name_key is None {
        Some("BacklinkNameKey"@)
    } else if settings.friend_pattern is None {
        Some("FriendPattern"@)
    } else if settings.friend_key is None {
        Some("FriendKey"@)
    } else if settings.friend_name_key is None {
        Some("FriendNameKey"@)
    } else {
        None
    }
}

/// The job that complete settings describe.
pub open spec fn warm_of(settings: WarmSettingsView) -> WarmView {
    WarmView {
        name: settings.name->0,
        indir: path_components(settings.indir->0),
        outdir: path_components(settings.outdir->0),
        content_key: settings.content_key->0,
        backlink_pattern: settings.backlink_pattern->0,
        backlink_key: settings.backlink_key->0,
        backlink_name_key: settings.backlink_name_key->0,
        friend_pattern: settings.friend_pattern->0,
        friend_key: settings.friend_key->0,
        friend_name_key: settings.friend_name_key->0,
    }
}

impl Warm {
    /// Reads the lines of a job from its configuration, each as it is found.
    pub fn read_settings(conf: &Value) -> (settings: WarmSettings)
        ensures
            settings@ == settings_of(*conf),
    {
        let name = config_value(conf);
        let indir = match config_child_value(conf, "In") {
            Some(text) => Some(text.to_owned()),
            None => None,
        };
        let outdir = match config_child_value(conf, "Out") {
            Some(text) => Some(text.to_owned()),
            None => None,
        };
        match config_child(conf, "Template") {
            Some(section) => WarmSettings {
                name,
                indir,
                outdir,
                content_key: config_child_owned(section, "ContentKey"),
                backlink_pattern: config_child_owned(section, "BacklinkPattern"),
                backlink_key: config_child_owned(section, "BacklinkKey"),
                backlink_name_key: config_child_owned(section, "BacklinkNameKey"),
                friend_pattern: config_child_owned(section, "FriendPattern"),
                friend_key: config_child_owned(section, "FriendKey"),
                friend_name_key: config_child_owned(section, "FriendNameKey"),
            },
            None => WarmSettings {
                name,
                indir,
                outdir,
                content_key: None,
                backlink_pattern: None,
                backlink_key: None,
                backlink_name_key: None,
                friend_pattern: None,
                friend_key: None,
                friend_name_key: None,
            },
        }
    }

    /// Where the configuration of a job says its template is.
    pub fn template_path(conf: &Value) -> (path: Option<String>)
        ensures
            path.deep_view() == held(child_values(*conf), "Template"@),
    {
        match config_child(conf, "Template") {
            Some(section) => config_value(section),
            None => None,
        }
    }

    /// Makes a job from its settings and its template. A setting that is
    /// missing is reported, the first one in the order in which a job reads
    /// them.
    pub fn from_settings(settings: WarmSettings, template: Document) -> (made: Result<
        Warm,
        ConfigError,
    >)
        ensures
            match made {
                Ok(warm) => warm_spec(settings@) == Ok::<WarmView, ConfigErrorView>(warm@)
                    && warm.template == template,
                Err(error) => warm_spec(settings@) == Err::<WarmView, ConfigErrorView>(error@),
            },
    {
        let name = match require_setting(settings.name, "Job") {
            Ok(v) => v,
            Err(e) => {
                return Err(e);
            },
        };
        let indir = match require_setting(settings.indir, "In") {
            Ok(v) => v,
            Err(e) => {
                return Err(e);
            },
        };
        let outdir = match require_setting(settings.outdir, "Out") {
            Ok(v) => v,
            Err(e) => {
                return Err(e);
            },
        };
        let content_key = match require_setting(settings.content_key, "ContentKey") {
            Ok(v) => v,
            Err(e) => {
                return Err(e);
            },
        };
        let backlink_pattern = match require_setting(settings.backlink_pattern, "BacklinkPattern") {
            Ok(v) => v,
            Err(e) => {
                return Err(e);
            },
        };
        let backlink_key = match require_setting(settings.backlink_key, "BacklinkKey") {
            Ok(v) => v,
            Err(e) => {
                return Err(e);
            },
        };
        let backlink_name_key = match require_setting(
            settings.backlink_name_key,
            "BacklinkNameKey",
        ) {
            Ok(v) => v,
            Err(e) => {
                return Err(e);
            },
        };
        let friend_pattern = match require_setting(settings.friend_pattern, "FriendPattern") {
            Ok(v) => v,
            Err(e) => {
                return Err(e);
            },
        };
        let friend_key = match require_setting(settings.friend_key, "FriendKey") {
            Ok(v) => v,
            Err(e) => {
                return Err(e);
            },
        };
        let friend_name_key = match require_setting(settings.friend_name_key, "FriendNameKey") {
            Ok(v) => v,
            Err(e) => {
                return Err(e);
            },
        };
        Ok(
            Warm {
                name,
                indir: SitePath::parse(indir.as_str()),
                outdir: SitePath::parse(outdir.as_str()),
                template,
                content_key,
                backlink_pattern,
                backlink_key,
                backlink_name_key,
                friend_pattern,
                friend_key,
                friend_name_key,
            },
        )
    }

    /// Makes a job from its configuration and its template.
    pub fn new(conf: &Value, template: Document) -> (made: Result<Warm, ConfigError>)
        ensures
            match made {
                Ok(warm) => warm_spec(settings_of(*conf)) == Ok::<WarmView, ConfigErrorView>(
                    warm@,
                ) && warm.template == template,
                Err(error) => warm_spec(settings_of(*conf)) == Err::<WarmView, ConfigErrorView>(
                    error@,
                ),
            },
    {
        Warm::from_settings(Warm::read_settings(conf), template)
    }
}

/// What a run is asked to do.
#[derive(Debug)]
pub enum Job {
    Warm(Warm),
}

impl Job {
    /// Makes the job of the given type from its configuration and template.
    pub fn of_kind(kind: JobKind, conf: &Value, template: Document) -> (made: Result<
        Job,
        ConfigError,
    >)
        ensures
            match made {
                Ok(Job::Warm(warm)) => warm_spec(settings_of(*conf)) == Ok::<
                    WarmView,
                    ConfigErrorView,
                >(warm@) && warm.template == template,
                Err(error) => warm_spec(settings_of(*conf)) == Err::<WarmView, ConfigErrorView>(
                    error@,
                ),
            },
    {
        match kind {
            JobKind::Warm => match Warm::new(conf, template) {
                Ok(warm) => Ok(Job::Warm(warm)),
                Err(e) => Err(e),
            },
        }
    }

    /// Which type of job a configuration asks for.
    pub fn kind(conf: &Value) -> (found: Result<JobKind, ConfigError>)
        ensures
            match found {
                Ok(kind) => kind_of(*conf) == Ok::<JobKind, ConfigErrorView>(kind),
                Err(error) => kind_of(*conf) == Err::<JobKind, ConfigErrorView>(error@),
            },
    {
        job_kind(config_child_value(conf, "Type"))
    }

    /// Makes a job from its configuration and its template.
    pub fn new(conf: &Value, template: Document) -> (made: Result<Job, ConfigError>)
        ensures
            match made {
                Ok(Job::Warm(warm)) => job_spec(*conf) == Ok::<WarmView, ConfigErrorView>(warm@)
                    && warm.template == template,
                Err(error) => job_spec(*conf) == Err::<WarmView, ConfigErrorView>(error@),
            },
    {
        match Job::kind(conf) {
            Ok(kind) => Job::of_kind(kind, conf, template),
            Err(e) => Err(e),
        }
    }
}

} // verus!
