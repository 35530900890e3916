//! config: the persisted install config.
//!
//! Its one field is the account that the agent runs as. A later run of `apply` as SYSTEM must
//! lock the socket directory down for that very account, which it cannot derive from its own
//! token, so the first interactive run records it.

use vstd::prelude::*;
use crate::protocol::text_of;

verus! {

/// What the `toml` crate writes for a document with one string under a key.
pub uninterp spec fn toml_document(key: Seq<char>, value: Seq<char>) -> Seq<char>;

/// Why the `toml` crate does not read a document as a table of whatever values, if it does not:
/// the text of its error.
pub uninterp spec fn toml_problem(document: Seq<char>) -> Option<Seq<char>>;

/// What the `toml` crate reads as the string under a key of a document: `None` where nothing
/// stands there, and the text of the error where it is no string, or the whole no document.
pub uninterp spec fn toml_lookup(document: Seq<char>, key: Seq<char>) -> Result<
    Option<Seq<char>>,
    Seq<char>,
>;

/// Whether a key needs no quotes in a document.
pub open spec fn is_bare_key(key: Seq<char>) -> bool {
    key.len() > 0 && forall|i: int|
        0 <= i < key.len() ==> ({
            let c = #[trigger] key[i];
            'a' <= c <= 'z' || 'A' <= c <= 'Z' || '0' <= c <= '9' || c == '-' || c == '_'
        })
}

/// `toml::to_string` on a map of one string. It never fails on one. Under a bare key, whatever
/// the string holds is quoted and escaped so that the document is one that can be read, and the
/// string reads back as itself.
#[verifier::external_body]
fn toml_write(key: &str, value: &str) -> (r: Result<String, String>)
    ensures
        r is Ok,
        r->Ok_0@ == toml_document(key@, value@),
        is_bare_key(key@) ==> toml_problem(r->Ok_0@) is None,
        is_bare_key(key@) ==> toml_lookup(r->Ok_0@, key@) is Ok && toml_lookup(
            r->Ok_0@,
            key@,
        )->Ok_0 == Some(value@),
{
    match toml::to_string(&std::collections::BTreeMap::from([(key, value)])) {
        Ok(document) => Ok(document),
        Err(e) => Err(e.to_string()),
    }
}

/// `toml::from_str` to a map whose values are ignored, or the text of the error. It reports what
/// is no document, and a number that no type can hold.
#[verifier::external_body]
fn toml_check(document: &str) -> (r: Result<(), String>)
    ensures
        match r {
            Ok(_) => toml_problem(document@) is None,
            Err(e) => toml_problem(document@) == Some(e@),
        },
{
    match toml::from_str::<std::collections::BTreeMap<String, serde::de::IgnoredAny>>(document) {
        Ok(_) => Ok(()),
        Err(e) => Err(e.to_string()),
    }
}

/// `toml::de::DeTable::parse`, and `toml::de::ValueDeserializer` for the string under a key of the
/// table, if anything stands there; or the text of the error. What stands under the other keys is
/// left alone.
#[verifier::external_body]
fn toml_read(document: &str, key: &str) -> (r: Result<Option<String>, String>)
    ensures
        match r {
            Ok(v) => toml_lookup(document@, key@) == Ok::<_, Seq<char>>(text_of(v)),
            Err(e) => toml_lookup(document@, key@) == Err::<Option<Seq<char>>, _>(e@),
        },
{
    match toml::de::DeTable::parse(document) {
        Ok(t) => match t.into_inner().remove(key).map(toml::de::ValueDeserializer::from) {
            Some(v) => match <String as serde::Deserialize>::deserialize(v) {
                Ok(s) => Ok(Some(s)),
                Err(e) => Err(e.message().to_owned()),
            },
            None => Ok(None),
        },
        Err(e) => Err(e.to_string()),
    }
}

#[derive(Debug, Clone, PartialEq, Eq)]
pub struct Config {
    /// The account the agent task runs as, which is the one the socket directory admits.
    pub target_user: String,
}

/// Why a config cannot be read or written, or no account be told.
#[derive(Debug, Clone, PartialEq, Eq)]
pub enum ConfigError {
    /// It cannot be written, and why.
    NotWritable(String),
    /// It is no document with an account that is a string, and why.
    NotReadable(String),
    /// The document does not name the account.
    MissingUser,
    NoTargetUser,
}

impl ConfigError {
    pub open spec fn text(self) -> Seq<char> {
        match self {
            ConfigError::NotWritable(reason) => reason@,
            ConfigError::NotReadable(reason) => reason@,
            ConfigError::MissingUser => "missing field `target_user`"@,
            ConfigError::NoTargetUser =>
            "cannot resolve the target user: pass --user <account> (required when apply runs as SYSTEM with no saved config)"@,
        }
    }

    pub fn message(&self) -> (s: String)
        ensures
            s@ == self.text(),
    {
        match self {
            ConfigError::NotWritable(reason) => reason.clone(),
            ConfigError::NotReadable(reason) => reason.clone(),
            ConfigError::MissingUser => "missing field `target_user`".to_owned(),
            ConfigError::NoTargetUser =>
            "cannot resolve the target user: pass --user <account> (required when apply runs as SYSTEM with no saved config)".to_owned(),
        }
    }
}

impl Config {
    /// The config as a document, which reads back as the same config.
    pub fn to_toml(&self) -> (r: Result<String, ConfigError>)
        ensures
            r is Ok,
            r->Ok_0@ == toml_document("target_user"@, self.target_user@),
            toml_problem(r->Ok_0@) is None,
            toml_lookup(r->Ok_0@, "target_user"@) == Ok::<_, Seq<char>>(
                Some(self.target_user@),
            ),
    {
        proof {
            reveal_strlit("target_user");
        }
        match toml_write("target_user", self.target_user.as_str()) {
            Ok(s) => Ok(s),
            Err(reason) => Err(ConfigError::NotWritable(reason)),
        }
    }

    /// The config that a document holds. What stands under other keys is ignored, if it can be
    /// read at all. The error of an account that is missing or no string is the bare message,
    /// without the place in the document.
    pub fn from_toml(s: &str) -> (r: Result<Config, ConfigError>)
        ensures
            match toml_problem(s@) {
                Some(reason) => r is Err && r->Err_0 is NotReadable && r->Err_0->NotReadable_0@
                    == reason,
                None => match toml_lookup(s@, "target_user"@) {
                    Ok(Some(user)) => r is Ok && r->Ok_0.target_user@ == user,
                    Ok(None) => r == Err::<Config, _>(ConfigError::MissingUser),
                    Err(reason) => r is Err && r->Err_0 is NotReadable
                        && r->Err_0->NotReadable_0@ == reason,
                },
            },
    {
        match toml_check(s) {
            Ok(_) => Config::from_lookup(toml_read(s, "target_user")),
            Err(reason) => Err(ConfigError::NotReadable(reason)),
        }
    }

    /// The config with the account that was found in a document, or why there is none.
    pub fn from_lookup(user: Result<Option<String>, String>) -> (r: Result<Config, ConfigError>)
        ensures
            r == match user {
                Ok(Some(u)) => Ok(Config { target_user: u }),
                Ok(None) => Err(ConfigError::MissingUser),
                Err(reason) => Err(ConfigError::NotReadable(reason)),
            },
    {
        match user {
            Ok(Some(u)) => Ok(Config { target_user: u }),
            Ok(None) => Err(ConfigError::MissingUser),
            Err(reason) => Err(ConfigError::NotReadable(reason)),
        }
    }
}

/// Whether a source names an account.
pub open spec fn names_one(source: Option<&str>) -> bool {
    source is Some && source->0@.len() > 0
}

/// Resolve the target account, preferring an explicit source, so that a run as SYSTEM never
/// derives it from its own token: the command line, then the saved config, then the interactive
/// user. An empty name is none. Without any, this fails rather than guess.
pub fn resolve_target_user(
    cli: Option<&str>,
    cfg: Option<&str>,
    interactive_current: Option<&str>,
) -> (r: Result<String, ConfigError>)
    ensures
        if names_one(cli) {
            r is Ok && r->Ok_0@ == cli->0@
        } else if names_one(cfg) {
            r is Ok && r->Ok_0@ == cfg->0@
        } else if names_one(interactive_current) {
            r is Ok && r->Ok_0@ == interactive_current->0@
        } else {
            r == Err::<String, _>(ConfigError::NoTargetUser)
        },
{
    if let Some(s) = cli {
        if !s.is_empty() {
            return Ok(s.to_owned());
        }
    }
    if let Some(s) = cfg {
        if !s.is_empty() {
            return Ok(s.to_owned());
        }
    }
    if let Some(s) = interactive_current {
        if !s.is_empty() {
            return Ok(s.to_owned());
        }
    }
    Err(ConfigError::NoTargetUser)
}

// Laws.

/// The account is that of the first source that names one: the command line, then the saved
/// config, then the interactive user. Where none does, nothing is guessed.
pub proof fn law_account_comes_from_the_first_source(
    cli: Option<&str>,
    cfg: Option<&str>,
    current: Option<&str>,
    r: Result<String, ConfigError>,
)
    requires
        call_ensures(resolve_target_user, (cli, cfg, current), r),
    ensures
        cli is Some && cli->0@.len() > 0 ==> r is Ok && r->Ok_0@ == cli->0@,
        (cli is None || cli->0@.len() == 0) && cfg is Some && cfg->0@.len() > 0 ==> r is Ok
            && r->Ok_0@ == cfg->0@,
        r is Ok ==> r->Ok_0@.len() > 0,
        r is Err <==> (cli is None || cli->0@.len() == 0) && (cfg is None || cfg->0@.len() == 0) && (
        current is None || current->0@.len() == 0),
{
}

} // verus!
