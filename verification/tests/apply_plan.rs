use pg_trellis::apply::{
    database_action, plan_apply, role_action, RoleAction, ApplyOptions, ApplyStep, DatabaseAction, MigrationAction,
    Privilege,
};
use pg_trellis::config::{
    find_role, server_settings, server_version, Config, ConfigItem, Database, Role, Schema, SchemaPrivileges,
    Superuser,
};

fn s(x: &str) -> String {
    x.to_string()
}

fn sample_config() -> Config {
    Config {
        version: s("=17.2.0"),
        config: Some(vec![ConfigItem { key: s("shared_buffers"), value: s("256MB") }]),
        superuser: Superuser { name: s("postgres"), password: s("$PGPASS") },
        roles: vec![
            Role { name: s("app"), password: s("secret"), login: true },
            Role { name: s("reader"), password: s("r"), login: false },
        ],
        role_groups: None,
        databases: vec![Database {
            name: s("shop"),
            owner: s("app"),
            schema_dump_file: s("schema.sql"),
            migrations_dir: s("migrations"),
            extensions: Some(vec![s("pgcrypto")]),
            schemas: Some(vec![Schema {
                name: s("sales"),
                owner: s("app"),
                privileges: Some(SchemaPrivileges { usage: Some(vec![s("reader")]), create: None }),
            }]),
        }],
    }
}

fn describe(step: &ApplyStep) -> String {
    match step {
        ApplyStep::EnsureRole { role, password } => format!("ensure-role {role} {password}"),
        ApplyStep::SetRoleLogin { role, login } => format!("login {role} {login}"),
        ApplyStep::EnsureDatabase { database, owner, may_create } => {
            format!("ensure-db {database} {owner} {may_create}")
        }
        ApplyStep::MissingOwner { database, owner } => format!("missing-owner {database} {owner}"),
        ApplyStep::ConnectAsOwner { database, role, password } => {
            format!("connect-owner {database} {role} {password}")
        }
        ApplyStep::ConnectAsSuperuser { database, user, password } => {
            format!("connect-super {database} {user} {password}")
        }
        ApplyStep::CreateExtension { database, extension } => format!("extension {database} {extension}"),
        ApplyStep::CreateSchema { database, schema, owner } => format!("schema {database} {schema} {owner}"),
        ApplyStep::GrantSchemaPrivilege { database, schema, role, privilege } => {
            format!("grant {} {database} {schema} {role}", privilege.keyword())
        }
        ApplyStep::DisconnectSuperuser => s("disconnect-super"),
        ApplyStep::LoadSchemaDump { database, dump_file } => format!("load {database} {dump_file}"),
        ApplyStep::CreateTrackingTables { database } => format!("tracking {database}"),
        ApplyStep::MigrateUp { database, migrations_dir } => format!("up {database} {migrations_dir}"),
        ApplyStep::RollBack { database, migrations_dir } => format!("rollback {database} {migrations_dir}"),
        ApplyStep::DisconnectOwner => s("disconnect-owner"),
    }
}

fn plan(config: &Config, options: &ApplyOptions) -> Vec<String> {
    plan_apply(config, options).iter().map(describe).collect()
}

#[test]
fn full_plan_in_order() {
    let options = ApplyOptions { config: true, schema: false, migration: Some(MigrationAction::Up), serving: true };
    assert_eq!(
        plan(&sample_config(), &options),
        vec![
            "ensure-role app secret",
            "login app true",
            "ensure-role reader r",
            "login reader false",
            "ensure-db shop app true",
            "connect-owner shop app secret",
            "connect-super shop postgres $PGPASS",
            "extension shop pgcrypto",
            "disconnect-super",
            "connect-super shop postgres $PGPASS",
            "schema shop sales app",
            "grant USAGE shop sales reader",
            "disconnect-super",
            "tracking shop",
            "up shop migrations",
            "disconnect-owner",
        ]
    );
}

#[test]
fn schema_load_and_rollback() {
    let options = ApplyOptions { config: false, schema: true, migration: Some(MigrationAction::Rollback), serving: false };
    let mut config = sample_config();
    config.databases[0].extensions = None;
    config.databases[0].schemas = None;
    assert_eq!(
        plan(&config, &options),
        vec![
            "connect-owner shop app secret",
            "load shop schema.sql",
            "rollback shop migrations",
            "disconnect-owner",
        ]
    );
}

#[test]
fn empty_extension_list_still_connects() {
    let options = ApplyOptions { config: false, schema: false, migration: None, serving: false };
    let mut config = sample_config();
    config.databases[0].extensions = Some(vec![]);
    config.databases[0].schemas = None;
    assert_eq!(
        plan(&config, &options),
        vec!["connect-owner shop app secret", "connect-super shop postgres $PGPASS", "disconnect-super", "tracking shop", "disconnect-owner"]
    );
}

#[test]
fn missing_owner_stops_the_plan() {
    let options = ApplyOptions { config: false, schema: false, migration: None, serving: false };
    let mut config = sample_config();
    config.databases[0].extensions = None;
    config.databases[0].schemas = None;
    let mut second = Database {
        name: s("ghost"),
        owner: s("nobody"),
        schema_dump_file: s("x"),
        migrations_dir: s("m"),
        extensions: None,
        schemas: None,
    };
    config.databases.push(Database { name: s("ghost"), owner: s("nobody"), ..second });
    second = Database {
        name: s("later"),
        owner: s("app"),
        schema_dump_file: s("x"),
        migrations_dir: s("m"),
        extensions: None,
        schemas: None,
    };
    config.databases.push(second);
    assert_eq!(
        plan(&config, &options),
        vec!["connect-owner shop app secret", "tracking shop", "disconnect-owner", "missing-owner ghost nobody"]
    );
}

#[test]
fn first_role_of_a_name_gives_the_credentials() {
    let mut config = sample_config();
    config.roles.push(Role { name: s("app"), password: s("other"), login: true });
    assert_eq!(find_role(&config.roles, &s("app")), Some(0));
    assert_eq!(find_role(&config.roles, &s("reader")), Some(1));
    assert_eq!(find_role(&config.roles, &s("nobody")), None);
}

#[test]
fn database_actions() {
    assert_eq!(database_action(true, false), DatabaseAction::AssignOwner);
    assert_eq!(database_action(true, true), DatabaseAction::AssignOwner);
    assert_eq!(database_action(false, true), DatabaseAction::Create);
    assert_eq!(database_action(false, false), DatabaseAction::Refuse);
}

#[test]
fn privilege_keywords() {
    assert_eq!(Privilege::Usage.keyword(), "USAGE");
    assert_eq!(Privilege::Create.keyword(), "CREATE");
}

#[test]
fn settings_start_with_max_connections() {
    let settings = server_settings(&sample_config());
    assert_eq!(
        settings,
        vec![(s("max_connections"), s("100")), (s("shared_buffers"), s("256MB"))]
    );
    let mut config = sample_config();
    config.config = None;
    assert_eq!(server_settings(&config), vec![(s("max_connections"), s("100"))]);
}

#[test]
fn server_version_is_parsed_from_the_configuration() {
    let mut config = sample_config();
    assert!(server_version(&config).is_ok());
    config.version = s("latest");
    assert!(server_version(&config).is_err());
    config.version = s(">=16, <18");
    assert!(server_version(&config).is_ok());
}

#[test]
fn roles_are_created_only_when_missing() {
    assert_eq!(role_action(false), RoleAction::Create);
    assert_eq!(role_action(true), RoleAction::Keep);
}
