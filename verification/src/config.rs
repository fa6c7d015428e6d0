//! The declarative configuration of a server: its settings, superuser, roles
//! and databases, as read from the configuration file.
use postgresql_embedded::{Error, VersionReq};
use vstd::prelude::*;

verus! {

/// One server setting, `key = value`.
pub struct ConfigItem {
    pub key: String,
    pub value: String,
}

/// The superuser the server is set up with.
pub struct Superuser {
    pub name: String,
    /// The password, possibly holding `$VAR` references to the environment.
    pub password: String,
}

/// A database role.
pub struct Role {
    pub name: String,
    /// The password, possibly holding `$VAR` references to the environment.
    pub password: String,
    pub login: bool,
}

/// A group role and its members.
pub struct RoleGroup {
    pub role: String,
    pub members: Vec<String>,
}

/// Who gets which privilege on a schema.
pub struct SchemaPrivileges {
    pub usage: Option<Vec<String>>,
    pub create: Option<Vec<String>>,
}

/// A schema of a database.
pub struct Schema {
    pub name: String,
    pub owner: String,
    pub privileges: Option<SchemaPrivileges>,
}

/// A database and what it holds.
pub struct Database {
    pub name: String,
    pub owner: String,
    pub schema_dump_file: String,
    pub migrations_dir: String,
    pub extensions: Option<Vec<String>>,
    pub schemas: Option<Vec<Schema>>,
}

/// The whole configuration.
pub struct Config {
    /// The Postgres version requirement, such as `=17.2.0`.
    pub version: String,
    pub config: Option<Vec<ConfigItem>>,
    pub superuser: Superuser,
    pub roles: Vec<Role>,
    pub role_groups: Option<Vec<RoleGroup>>,
    pub databases: Vec<Database>,
}

/// The position of the first role called `name`, if any.
pub open spec fn first_role_named(roles: Seq<Role>, name: Seq<char>) -> Option<int> {
    if exists|i: int| 0 <= i < roles.len() && roles[i].name@ == name {
        Some(
            choose|i: int|
                0 <= i < roles.len() && roles[i].name@ == name && forall|j: int|
                    0 <= j < i ==> roles[j].name@ != name,
        )
    } else {
        None
    }
}

/// A role called `name` with none of that name before it is the first one.
proof fn lemma_first_role_named(roles: Seq<Role>, name: Seq<char>, k: int)
    requires
        0 <= k < roles.len(),
        roles[k].name@ == name,
        forall|j: int| 0 <= j < k ==> roles[j].name@ != name,
    ensures
        first_role_named(roles, name) == Some(k),
{
    let w = choose|i: int|
        0 <= i < roles.len() && roles[i].name@ == name && forall|j: int|
            0 <= j < i ==> roles[j].name@ != name;
    assert(0 <= w < roles.len() && roles[w].name@ == name);
    if w < k {
        assert(roles[w].name@ != name);
    }
    if k < w {
        assert(roles[k].name@ != name);
    }
}

/// The role that the credentials of `name` are taken from: the first role
/// with that name.
pub fn find_role(roles: &Vec<Role>, name: &String) -> (r: Option<usize>)
    ensures
        match r {
            Some(k) => k < roles@.len() && first_role_named(roles@, name@) == Some(k as int),
            None => first_role_named(roles@, name@) is None,
        },
{
    let mut i: usize = 0;
    while i < roles.len()
        invariant
            i <= roles@.len(),
            forall|j: int| 0 <= j < i ==> roles@[j].name@ != name@,
        decreases roles@.len() - i,
    {
        if roles[i].name == *name {
            proof {
                lemma_first_role_named(roles@, name@, i as int);
            }
            return Some(i);
        }
        i += 1;
    }
    None
}

/// The settings the server is started with: `max_connections = 100`, then
/// the configured settings in their order (a later one overrides an earlier
/// one with the same key).
pub open spec fn server_settings_of(config: Config) -> Seq<(Seq<char>, Seq<char>)> {
    let items: Seq<ConfigItem> = match config.config {
        Some(items) => items@,
        None => Seq::empty(),
    };
    Seq::new(
        items.len() + 1,
        |i: int|
            if i == 0 {
                (max_connections_key(), hundred())
            } else {
                (items[i - 1].key@, items[i - 1].value@)
            },
    )
}

/// `max_connections`
pub open spec fn max_connections_key() -> Seq<char> {
    seq!['m', 'a', 'x', '_', 'c', 'o', 'n', 'n', 'e', 'c', 't', 'i', 'o', 'n', 's']
}

/// `100`
pub open spec fn hundred() -> Seq<char> {
    seq!['1', '0', '0']
}

/// The settings are `max_connections = 100` followed by every configured
/// item, each once and in its order, with its key and value as written.
pub proof fn lemma_every_configured_setting_is_applied(config: Config, items: Seq<ConfigItem>)
    requires
        items == (match config.config {
            Some(v) => v@,
            None => Seq::<ConfigItem>::empty(),
        }),
    ensures
        server_settings_of(config).len() == items.len() + 1,
        server_settings_of(config)[0] == (
            seq!['m', 'a', 'x', '_', 'c', 'o', 'n', 'n', 'e', 'c', 't', 'i', 'o', 'n', 's'],
            seq!['1', '0', '0'],
        ),
        forall|i: int|
            0 <= i < items.len() ==> server_settings_of(config)[i + 1] == (
                #[trigger] items[i].key@,
                items[i].value@,
            ),
{
}

/// The settings the server is started with, in the order they are applied:
/// `max_connections = 100`, then each configured item.
pub fn server_settings(config: &Config) -> (r: Vec<(String, String)>)
    ensures
        r@.len() == server_settings_of(*config).len(),
        forall|i: int|
            0 <= i < r@.len() ==> (#[trigger] r@[i].0@, r@[i].1@) == server_settings_of(*config)[i],
        r@.len() == 1 + match config.config {
            Some(v) => v@.len(),
            None => 0,
        },
        config.config matches Some(v) ==> forall|i: int|
            0 <= i < v@.len() ==> (#[trigger] r@[i + 1].0@, r@[i + 1].1@) == (v@[i].key@, v@[i].value@),
{
    proof {
        let items = if config.config is Some {
            config.config->Some_0@
        } else {
            Seq::<ConfigItem>::empty()
        };
        lemma_every_configured_setting_is_applied(*config, items);
    }
    let key = "max_connections";
    let value = "100";
    proof {
        reveal_strlit("max_connections");
        reveal_strlit("100");
    }
    let mut r: Vec<(String, String)> = Vec::new();
    r.push((key.to_string(), value.to_string()));
    assert(key@ == max_connections_key());
    assert(value@ == hundred());
    match &config.config {
        Some(items) => {
            let mut i: usize = 0;
            while i < items.len()
                invariant
                    i <= items@.len(),
                    config.config == Some(*items),
                    r@.len() == i + 1,
                    forall|j: int|
                        0 <= j < r@.len() ==> (#[trigger] r@[j].0@, r@[j].1@) == server_settings_of(
                            *config,
                        )[j],
                decreases items@.len() - i,
            {
                let item = &items[i];
                r.push((item.key.clone(), item.value.clone()));
                i += 1;
            }
        },
        None => {},
    }
    r
}

/// A requirement on the server's version, as the embedded server takes it.
#[verifier::external_type_specification]
#[verifier::external_body]
pub struct ExVersionReq(VersionReq);

/// An error of the embedded server's crate.
#[verifier::external_type_specification]
#[verifier::external_body]
pub struct ExEmbeddedError(Error);

/// Whether semver's `VersionReq::parse` accepts `text` as a version
/// requirement.
pub uninterp spec fn accepts_version_requirement(text: Seq<char>) -> bool;

/// Calls `VersionReq::parse` (semver, as postgresql_embedded re-exports it)
/// and converts its error into postgresql_embedded's `Error` with that
/// crate's `From`. The contract names whether the text is accepted, a
/// function of the text alone; semver's grammar, and which requirement is
/// parsed (the type is opaque here), are left to semver.
#[verifier::external_body]
fn parse_version_requirement(text: &str) -> (r: Result<VersionReq, Error>)
    ensures
        r is Ok <==> accepts_version_requirement(text@),
{
    match VersionReq::parse(text) {
        Ok(requirement) => Ok(requirement),
        Err(e) => Err(Error::from(e)),
    }
}

/// Why the configured server version cannot be used.
pub enum VersionError {
    /// The `version` setting is not a version requirement; the parser's
    /// error is kept.
    Invalid(Error),
}

/// The version requirement of the server to start: the configuration's
/// `version` setting, parsed. It is refused exactly when semver does not
/// accept it.
pub fn server_version(config: &Config) -> (r: Result<VersionReq, VersionError>)
    ensures
        r is Ok <==> accepts_version_requirement(config.version@),
{
    match parse_version_requirement(config.version.as_str()) {
        Ok(requirement) => Ok(requirement),
        Err(e) => Err(VersionError::Invalid(e)),
    }
}

} // verus!
