//! Applying a configuration: the ordered list of steps that bring a server
//! in line with its configuration, and the decisions taken while they run.
use vstd::prelude::*;

use crate::config::{find_role, first_role_named, Config, Database, Role, Schema, Superuser};

verus! {

/// Which way to run a database's migrations.
#[derive(Debug, Clone, Copy, PartialEq, Eq, Structural)]
pub enum MigrationAction {
    Up,
    Rollback,
}

/// A privilege granted on a schema.
#[derive(Debug, Clone, Copy, PartialEq, Eq, Structural)]
pub enum Privilege {
    Usage,
    Create,
}

/// `USAGE`
pub open spec fn usage_keyword() -> Seq<char> {
    seq!['U', 'S', 'A', 'G', 'E']
}

/// `CREATE`
pub open spec fn create_keyword() -> Seq<char> {
    seq!['C', 'R', 'E', 'A', 'T', 'E']
}

impl Privilege {
    /// The SQL keyword of the privilege.
    pub open spec fn keyword_of(self) -> Seq<char> {
        match self {
            Privilege::Usage => usage_keyword(),
            Privilege::Create => create_keyword(),
        }
    }

    /// The SQL keyword of the privilege: `USAGE` or `CREATE`.
    pub fn keyword(&self) -> (k: &'static str)
        ensures
            k@ == self.keyword_of(),
    {
        match self {
            Privilege::Usage => {
                proof {
                    reveal_strlit("USAGE");
                }
                "USAGE"
            },
            Privilege::Create => {
                proof {
                    reveal_strlit("CREATE");
                }
                "CREATE"
            },
        }
    }
}

/// What a run of `apply` is asked to do.
pub struct ApplyOptions {
    /// Set up the roles and databases first.
    pub config: bool,
    /// Load each database's schema dump (instead of only creating the
    /// migration tracking table).
    pub schema: bool,
    /// Run each database's migrations this way, if at all.
    pub migration: Option<MigrationAction>,
    /// A server was started by this process, so missing databases may be
    /// created.
    pub serving: bool,
}

/// One step of applying a configuration. Passwords are carried as written in
/// the configuration; they are resolved against the environment when the
/// step runs.
pub enum ApplyStep {
    /// Create the role unless it exists.
    EnsureRole { role: String, password: String },
    /// Allow or forbid the role to log in.
    SetRoleLogin { role: String, login: bool },
    /// Give an existing database its owner, or create it where allowed.
    EnsureDatabase { database: String, owner: String, may_create: bool },
    /// The owner of the database has no credentials: the run stops here.
    MissingOwner { database: String, owner: String },
    /// Connect to the database as its owner.
    ConnectAsOwner { database: String, role: String, password: String },
    /// Connect to the database as the superuser.
    ConnectAsSuperuser { database: String, user: String, password: String },
    CreateExtension { database: String, extension: String },
    CreateSchema { database: String, schema: String, owner: String },
    GrantSchemaPrivilege { database: String, schema: String, role: String, privilege: Privilege },
    /// Close the superuser connection.
    DisconnectSuperuser,
    /// Load the schema dump, unless it was loaded before.
    LoadSchemaDump { database: String, dump_file: String },
    /// Create the migration tracking table if it is missing.
    CreateTrackingTables { database: String },
    MigrateUp { database: String, migrations_dir: String },
    RollBack { database: String, migrations_dir: String },
    /// Close the owner connection.
    DisconnectOwner,
}

/// The abstract form of a step, with the text of its strings.
pub enum StepView {
    EnsureRole { role: Seq<char>, password: Seq<char> },
    SetRoleLogin { role: Seq<char>, login: bool },
    EnsureDatabase { database: Seq<char>, owner: Seq<char>, may_create: bool },
    MissingOwner { database: Seq<char>, owner: Seq<char> },
    ConnectAsOwner { database: Seq<char>, role: Seq<char>, password: Seq<char> },
    ConnectAsSuperuser { database: Seq<char>, user: Seq<char>, password: Seq<char> },
    CreateExtension { database: Seq<char>, extension: Seq<char> },
    CreateSchema { database: Seq<char>, schema: Seq<char>, owner: Seq<char> },
    GrantSchemaPrivilege {
        database: Seq<char>,
        schema: Seq<char>,
        role: Seq<char>,
        privilege: Privilege,
    },
    DisconnectSuperuser,
    LoadSchemaDump { database: Seq<char>, dump_file: Seq<char> },
    CreateTrackingTables { database: Seq<char> },
    MigrateUp { database: Seq<char>, migrations_dir: Seq<char> },
    RollBack { database: Seq<char>, migrations_dir: Seq<char> },
    DisconnectOwner,
}

impl View for ApplyStep {
    type V = StepView;

    open spec fn view(&self) -> StepView {
        match self {
            ApplyStep::EnsureRole { role, password } => StepView::EnsureRole {
                role: role@,
                password: password@,
            },
            ApplyStep::SetRoleLogin { role, login } => StepView::SetRoleLogin {
                role: role@,
                login: *login,
            },
            ApplyStep::EnsureDatabase { database, owner, may_create } => StepView::EnsureDatabase {
                database: database@,
                owner: owner@,
                may_create: *may_create,
            },
            ApplyStep::MissingOwner { database, owner } => StepView::MissingOwner {
                database: database@,
                owner: owner@,
            },
            ApplyStep::ConnectAsOwner { database, role, password } => StepView::ConnectAsOwner {
                database: database@,
                role: role@,
                password: password@,
            },
            ApplyStep::ConnectAsSuperuser { database, user, password } =>
            StepView::ConnectAsSuperuser {
                database: database@,
                user: user@,
                password: password@,
            },
            ApplyStep::CreateExtension { database, extension } => StepView::CreateExtension {
                database: database@,
                extension: extension@,
            },
            ApplyStep::CreateSchema { database, schema, owner } => StepView::CreateSchema {
                database: database@,
                schema: schema@,
                owner: owner@,
            },
            ApplyStep::GrantSchemaPrivilege { database, schema, role, privilege } =>
            StepView::GrantSchemaPrivilege {
                database: database@,
                schema: schema@,
                role: role@,
                privilege: *privilege,
            },
            ApplyStep::DisconnectSuperuser => StepView::DisconnectSuperuser,
            ApplyStep::LoadSchemaDump { database, dump_file } => StepView::LoadSchemaDump {
                database: database@,
                dump_file: dump_file@,
            },
            ApplyStep::CreateTrackingTables { database } => StepView::CreateTrackingTables {
                database: database@,
            },
            ApplyStep::MigrateUp { database, migrations_dir } => StepView::MigrateUp {
                database: database@,
                migrations_dir: migrations_dir@,
            },
            ApplyStep::RollBack { database, migrations_dir } => StepView::RollBack {
                database: database@,
                migrations_dir: migrations_dir@,
            },
            ApplyStep::DisconnectOwner => StepView::DisconnectOwner,
        }
    }
}

/// The abstract form of a list of steps.
pub open spec fn steps_view(steps: Seq<ApplyStep>) -> Seq<StepView> {
    Seq::new(steps.len(), |i: int| steps[i]@)
}

/// For each role, in order: create it if missing, then set its login.
pub open spec fn role_steps(roles: Seq<Role>) -> Seq<StepView>
    decreases roles.len(),
{
    if roles.len() == 0 {
        Seq::empty()
    } else {
        let r = roles.last();
        role_steps(roles.drop_last()) + seq![
            StepView::EnsureRole { role: r.name@, password: r.password@ },
            StepView::SetRoleLogin { role: r.name@, login: r.login },
        ]
    }
}

/// For each database, in order: make sure it exists with its owner.
pub open spec fn ensure_database_steps(databases: Seq<Database>, may_create: bool) -> Seq<StepView>
    decreases databases.len(),
{
    if databases.len() == 0 {
        Seq::empty()
    } else {
        let d = databases.last();
        ensure_database_steps(databases.drop_last(), may_create) + seq![
            StepView::EnsureDatabase { database: d.name@, owner: d.owner@, may_create },
        ]
    }
}

/// Setting up roles and databases: all roles first, then all databases.
pub open spec fn config_steps(config: Config, serving: bool) -> Seq<StepView> {
    role_steps(config.roles@) + ensure_database_steps(config.databases@, serving)
}

/// Creating each extension in the database.
pub open spec fn extension_steps(database: Seq<char>, extensions: Seq<String>) -> Seq<StepView>
    decreases extensions.len(),
{
    if extensions.len() == 0 {
        Seq::empty()
    } else {
        extension_steps(database, extensions.drop_last()) + seq![
            StepView::CreateExtension { database, extension: extensions.last()@ },
        ]
    }
}

/// Granting `privilege` on the schema to each role.
pub open spec fn grant_steps(
    database: Seq<char>,
    schema: Seq<char>,
    roles: Seq<String>,
    privilege: Privilege,
) -> Seq<StepView>
    decreases roles.len(),
{
    if roles.len() == 0 {
        Seq::empty()
    } else {
        grant_steps(database, schema, roles.drop_last(), privilege) + seq![
            StepView::GrantSchemaPrivilege { database, schema, role: roles.last()@, privilege },
        ]
    }
}

/// The grants of a list of roles that may be absent.
pub open spec fn optional_grant_steps(
    database: Seq<char>,
    schema: Seq<char>,
    roles: Option<Vec<String>>,
    privilege: Privilege,
) -> Seq<StepView> {
    match roles {
        Some(rs) => grant_steps(database, schema, rs@, privilege),
        None => Seq::empty(),
    }
}

/// The grants on one schema: `USAGE` to its usage roles, then `CREATE` to its
/// create roles.
pub open spec fn privilege_steps(database: Seq<char>, schema: Schema) -> Seq<StepView> {
    match schema.privileges {
        Some(p) => optional_grant_steps(database, schema.name@, p.usage, Privilege::Usage)
            + optional_grant_steps(database, schema.name@, p.create, Privilege::Create),
        None => Seq::empty(),
    }
}

/// For each schema, in order: create it, then grant its privileges.
pub open spec fn schema_steps(database: Seq<char>, schemas: Seq<Schema>) -> Seq<StepView>
    decreases schemas.len(),
{
    if schemas.len() == 0 {
        Seq::empty()
    } else {
        let s = schemas.last();
        schema_steps(database, schemas.drop_last()) + seq![
            StepView::CreateSchema { database, schema: s.name@, owner: s.owner@ },
        ] + privilege_steps(database, s)
    }
}

/// Work done over a superuser connection to the database.
pub open spec fn as_superuser(database: Seq<char>, superuser: Superuser, inner: Seq<StepView>) -> Seq<
    StepView,
> {
    seq![
        StepView::ConnectAsSuperuser {
            database,
            user: superuser.name@,
            password: superuser.password@,
        },
    ] + inner + seq![StepView::DisconnectSuperuser]
}

/// The extension steps of a database, over their own superuser connection.
pub open spec fn database_extension_steps(config: Config, d: Database) -> Seq<StepView> {
    match d.extensions {
        Some(exts) => as_superuser(d.name@, config.superuser, extension_steps(d.name@, exts@)),
        None => Seq::empty(),
    }
}

/// The schema steps of a database, over their own superuser connection.
pub open spec fn database_schema_steps(config: Config, d: Database) -> Seq<StepView> {
    match d.schemas {
        Some(schemas) => as_superuser(d.name@, config.superuser, schema_steps(d.name@, schemas@)),
        None => Seq::empty(),
    }
}

/// Loading the schema dump, or else creating the tracking table.
pub open spec fn schema_load_steps(d: Database, options: ApplyOptions) -> Seq<StepView> {
    if options.schema {
        seq![StepView::LoadSchemaDump { database: d.name@, dump_file: d.schema_dump_file@ }]
    } else {
        seq![StepView::CreateTrackingTables { database: d.name@ }]
    }
}

/// Running the migrations, as asked.
pub open spec fn migration_steps(d: Database, options: ApplyOptions) -> Seq<StepView> {
    match options.migration {
        Some(MigrationAction::Up) => seq![
            StepView::MigrateUp { database: d.name@, migrations_dir: d.migrations_dir@ },
        ],
        Some(MigrationAction::Rollback) => seq![
            StepView::RollBack { database: d.name@, migrations_dir: d.migrations_dir@ },
        ],
        None => Seq::empty(),
    }
}

/// The steps for one database: connect as its owner (whose credentials are
/// those of the first role of that name), create extensions and schemas as
/// the superuser, load the schema or create the tracking table, run the
/// migrations, disconnect. Without credentials for the owner, the only step
/// is the one that stops the run.
pub open spec fn database_steps(config: Config, d: Database, options: ApplyOptions) -> Seq<StepView> {
    match first_role_named(config.roles@, d.owner@) {
        None => seq![StepView::MissingOwner { database: d.name@, owner: d.owner@ }],
        Some(i) => seq![
            StepView::ConnectAsOwner {
                database: d.name@,
                role: config.roles@[i].name@,
                password: config.roles@[i].password@,
            },
        ] + database_extension_steps(config, d) + database_schema_steps(config, d)
            + schema_load_steps(d, options) + migration_steps(d, options) + seq![
            StepView::DisconnectOwner,
        ],
    }
}

/// Whether one of these databases has an owner without credentials.
pub open spec fn has_missing_owner(config: Config, databases: Seq<Database>) -> bool {
    exists|i: int|
        0 <= i < databases.len() && first_role_named(config.roles@, #[trigger] databases[i].owner@)
            is None
}

/// The steps for the databases, in order, up to and including the first one
/// whose owner has no credentials.
pub open spec fn databases_steps(config: Config, databases: Seq<Database>, options: ApplyOptions) -> Seq<
    StepView,
>
    decreases databases.len(),
{
    if databases.len() == 0 {
        Seq::empty()
    } else {
        let before = databases.drop_last();
        if has_missing_owner(config, before) {
            databases_steps(config, before, options)
        } else {
            databases_steps(config, before, options) + database_steps(
                config,
                databases.last(),
                options,
            )
        }
    }
}

/// Everything that applying the configuration does, in order.
pub open spec fn apply_plan(config: Config, options: ApplyOptions) -> Seq<StepView> {
    (if options.config {
        config_steps(config, options.serving)
    } else {
        Seq::empty()
    }) + databases_steps(config, config.databases@, options)
}

/// Appends one step.
fn push_step(steps: &mut Vec<ApplyStep>, step: ApplyStep)
    ensures
        steps_view(final(steps)@) == steps_view(old(steps)@).push(step@),
{
    steps.push(step);
    assert(steps_view(steps@) =~= steps_view(old(steps)@).push(step@));
}

fn push_role_steps(steps: &mut Vec<ApplyStep>, roles: &Vec<Role>)
    ensures
        steps_view(final(steps)@) == steps_view(old(steps)@) + role_steps(roles@),
{
    let ghost start = steps_view(steps@);
    assert(roles@.take(0) =~= Seq::<Role>::empty());
    assert(start + role_steps(roles@.take(0)) =~= start);
    let mut i: usize = 0;
    while i < roles.len()
        invariant
            i <= roles@.len(),
            steps_view(steps@) == start + role_steps(roles@.take(i as int)),
        decreases roles@.len() - i,
    {
        let r = &roles[i];
        push_step(steps, ApplyStep::EnsureRole { role: r.name.clone(), password: r.password.clone() });
        push_step(steps, ApplyStep::SetRoleLogin { role: r.name.clone(), login: r.login });
        assert(roles@.take(i + 1).drop_last() =~= roles@.take(i as int));
        assert(steps_view(steps@) =~= start + role_steps(roles@.take(i + 1)));
        i += 1;
    }
    assert(roles@.take(roles@.len() as int) =~= roles@);
}

fn push_ensure_database_steps(steps: &mut Vec<ApplyStep>, databases: &Vec<Database>, may_create: bool)
    ensures
        steps_view(final(steps)@) == steps_view(old(steps)@) + ensure_database_steps(
            databases@,
            may_create,
        ),
{
    let ghost start = steps_view(steps@);
    assert(databases@.take(0) =~= Seq::<Database>::empty());
    assert(start + ensure_database_steps(databases@.take(0), may_create) =~= start);
    let mut i: usize = 0;
    while i < databases.len()
        invariant
            i <= databases@.len(),
            steps_view(steps@) == start + ensure_database_steps(databases@.take(i as int), may_create),
        decreases databases@.len() - i,
    {
        let d = &databases[i];
        push_step(
            steps,
            ApplyStep::EnsureDatabase { database: d.name.clone(), owner: d.owner.clone(), may_create },
        );
        assert(databases@.take(i + 1).drop_last() =~= databases@.take(i as int));
        assert(steps_view(steps@) =~= start + ensure_database_steps(databases@.take(i + 1), may_create));
        i += 1;
    }
    assert(databases@.take(databases@.len() as int) =~= databases@);
}

fn push_extension_steps(steps: &mut Vec<ApplyStep>, database: &String, extensions: &Vec<String>)
    ensures
        steps_view(final(steps)@) == steps_view(old(steps)@) + extension_steps(
            database@,
            extensions@,
        ),
{
    let ghost start = steps_view(steps@);
    assert(extensions@.take(0) =~= Seq::<String>::empty());
    assert(start + extension_steps(database@, extensions@.take(0)) =~= start);
    let mut i: usize = 0;
    while i < extensions.len()
        invariant
            i <= extensions@.len(),
            steps_view(steps@) == start + extension_steps(database@, extensions@.take(i as int)),
        decreases extensions@.len() - i,
    {
        push_step(
            steps,
            ApplyStep::CreateExtension { database: database.clone(), extension: extensions[i].clone() },
        );
        assert(extensions@.take(i + 1).drop_last() =~= extensions@.take(i as int));
        assert(steps_view(steps@) =~= start + extension_steps(database@, extensions@.take(i + 1)));
        i += 1;
    }
    assert(extensions@.take(extensions@.len() as int) =~= extensions@);
}

fn push_grant_steps(
    steps: &mut Vec<ApplyStep>,
    database: &String,
    schema: &String,
    roles: &Option<Vec<String>>,
    privilege: Privilege,
)
    ensures
        steps_view(final(steps)@) == steps_view(old(steps)@) + optional_grant_steps(
            database@,
            schema@,
            *roles,
            privilege,
        ),
{
    match roles {
        None => {
            assert(steps_view(steps@) =~= steps_view(steps@) + Seq::<StepView>::empty());
        },
        Some(roles) => {
            let ghost start = steps_view(steps@);
            assert(roles@.take(0) =~= Seq::<String>::empty());
            assert(start + grant_steps(database@, schema@, roles@.take(0), privilege) =~= start);
            let mut i: usize = 0;
            while i < roles.len()
                invariant
                    i <= roles@.len(),
                    steps_view(steps@) == start + grant_steps(
                        database@,
                        schema@,
                        roles@.take(i as int),
                        privilege,
                    ),
                decreases roles@.len() - i,
            {
                push_step(
                    steps,
                    ApplyStep::GrantSchemaPrivilege {
                        database: database.clone(),
                        schema: schema.clone(),
                        role: roles[i].clone(),
                        privilege,
                    },
                );
                assert(roles@.take(i + 1).drop_last() =~= roles@.take(i as int));
                assert(steps_view(steps@) =~= start + grant_steps(
                    database@,
                    schema@,
                    roles@.take(i + 1),
                    privilege,
                ));
                i += 1;
            }
            assert(roles@.take(roles@.len() as int) =~= roles@);
        },
    }
}

fn push_schema_steps(steps: &mut Vec<ApplyStep>, database: &String, schemas: &Vec<Schema>)
    ensures
        steps_view(final(steps)@) == steps_view(old(steps)@) + schema_steps(database@, schemas@),
{
    let ghost start = steps_view(steps@);
    assert(schemas@.take(0) =~= Seq::<Schema>::empty());
    assert(start + schema_steps(database@, schemas@.take(0)) =~= start);
    let mut i: usize = 0;
    while i < schemas.len()
        invariant
            i <= schemas@.len(),
            steps_view(steps@) == start + schema_steps(database@, schemas@.take(i as int)),
        decreases schemas@.len() - i,
    {
        let s = &schemas[i];
        let ghost before = steps_view(steps@);
        push_step(
            steps,
            ApplyStep::CreateSchema {
                database: database.clone(),
                schema: s.name.clone(),
                owner: s.owner.clone(),
            },
        );
        let ghost created = steps_view(steps@);
        match &s.privileges {
            Some(p) => {
                push_grant_steps(steps, database, &s.name, &p.usage, Privilege::Usage);
                push_grant_steps(steps, database, &s.name, &p.create, Privilege::Create);
                assert(steps_view(steps@) =~= created + privilege_steps(database@, *s));
            },
            None => {
                assert(steps_view(steps@) =~= created + privilege_steps(database@, *s));
            },
        }
        assert(schemas@.take(i + 1).drop_last() =~= schemas@.take(i as int));
        assert(schemas@.take(i + 1).last() == *s);
        assert(steps_view(steps@) =~= start + schema_steps(database@, schemas@.take(i + 1)));
        i += 1;
    }
    assert(schemas@.take(schemas@.len() as int) =~= schemas@);
}

/// Appends the extension steps of a database.
fn push_database_extension_steps(steps: &mut Vec<ApplyStep>, config: &Config, d: &Database)
    ensures
        steps_view(final(steps)@) == steps_view(old(steps)@) + database_extension_steps(*config, *d),
{
    let ghost start = steps_view(steps@);
    match &d.extensions {
        Some(exts) => {
            push_step(
                steps,
                ApplyStep::ConnectAsSuperuser {
                    database: d.name.clone(),
                    user: config.superuser.name.clone(),
                    password: config.superuser.password.clone(),
                },
            );
            push_extension_steps(steps, &d.name, exts);
            push_step(steps, ApplyStep::DisconnectSuperuser);
        },
        None => {},
    }
    assert(steps_view(steps@) =~= start + database_extension_steps(*config, *d));
}

/// Appends the schema steps of a database.
fn push_database_schema_steps(steps: &mut Vec<ApplyStep>, config: &Config, d: &Database)
    ensures
        steps_view(final(steps)@) == steps_view(old(steps)@) + database_schema_steps(*config, *d),
{
    let ghost start = steps_view(steps@);
    match &d.schemas {
        Some(schemas) => {
            push_step(
                steps,
                ApplyStep::ConnectAsSuperuser {
                    database: d.name.clone(),
                    user: config.superuser.name.clone(),
                    password: config.superuser.password.clone(),
                },
            );
            push_schema_steps(steps, &d.name, schemas);
            push_step(steps, ApplyStep::DisconnectSuperuser);
        },
        None => {},
    }
    assert(steps_view(steps@) =~= start + database_schema_steps(*config, *d));
}

/// Appends the schema-loading and migration steps of a database.
fn push_load_and_migration_steps(steps: &mut Vec<ApplyStep>, d: &Database, options: &ApplyOptions)
    ensures
        steps_view(final(steps)@) == steps_view(old(steps)@) + schema_load_steps(*d, *options)
            + migration_steps(*d, *options),
{
    let ghost start = steps_view(steps@);
    if options.schema {
        push_step(
            steps,
            ApplyStep::LoadSchemaDump {
                database: d.name.clone(),
                dump_file: d.schema_dump_file.clone(),
            },
        );
    } else {
        push_step(steps, ApplyStep::CreateTrackingTables { database: d.name.clone() });
    }
    let ghost loaded = steps_view(steps@);
    assert(loaded =~= start + schema_load_steps(*d, *options));
    match options.migration {
        Some(MigrationAction::Up) => {
            push_step(
                steps,
                ApplyStep::MigrateUp {
                    database: d.name.clone(),
                    migrations_dir: d.migrations_dir.clone(),
                },
            );
        },
        Some(MigrationAction::Rollback) => {
            push_step(
                steps,
                ApplyStep::RollBack {
                    database: d.name.clone(),
                    migrations_dir: d.migrations_dir.clone(),
                },
            );
        },
        None => {},
    }
    assert(steps_view(steps@) =~= loaded + migration_steps(*d, *options));
}

/// Appends the steps of one database; tells whether its owner has
/// credentials.
fn push_database_steps(
    steps: &mut Vec<ApplyStep>,
    config: &Config,
    d: &Database,
    options: &ApplyOptions,
) -> (found: bool)
    ensures
        found == (first_role_named(config.roles@, d.owner@) is Some),
        steps_view(final(steps)@) == steps_view(old(steps)@) + database_steps(*config, *d, *options),
{
    let ghost start = steps_view(steps@);
    match find_role(&config.roles, &d.owner) {
        None => {
            push_step(
                steps,
                ApplyStep::MissingOwner { database: d.name.clone(), owner: d.owner.clone() },
            );
            assert(steps_view(steps@) =~= start + database_steps(*config, *d, *options));
            false
        },
        Some(i) => {
            let owner = &config.roles[i];
            push_step(
                steps,
                ApplyStep::ConnectAsOwner {
                    database: d.name.clone(),
                    role: owner.name.clone(),
                    password: owner.password.clone(),
                },
            );
            push_database_extension_steps(steps, config, d);
            push_database_schema_steps(steps, config, d);
            push_load_and_migration_steps(steps, d, options);
            push_step(steps, ApplyStep::DisconnectOwner);
            assert(steps_view(steps@) =~= start + database_steps(*config, *d, *options));
            true
        },
    }
}

/// Once a database without owner credentials is reached, later databases add
/// nothing.
proof fn lemma_databases_steps_stop(config: Config, databases: Seq<Database>, options: ApplyOptions, n: int)
    requires
        0 <= n <= databases.len(),
        has_missing_owner(config, databases.take(n)),
    ensures
        databases_steps(config, databases, options) == databases_steps(
            config,
            databases.take(n),
            options,
        ),
    decreases databases.len() - n,
{
    if n < databases.len() {
        let longer = databases.take(n + 1);
        assert(longer.drop_last() =~= databases.take(n));
        let i = choose|i: int|
            0 <= i < n && first_role_named(config.roles@, #[trigger] databases.take(n)[i].owner@)
                is None;
        assert(longer[i] == databases.take(n)[i]);
        assert(has_missing_owner(config, longer));
        lemma_databases_steps_stop(config, databases, options, n + 1);
    } else {
        assert(databases.take(n) =~= databases);
    }
}

/// One more database adds its steps, and, where its owner has credentials,
/// keeps the run going.
proof fn lemma_databases_steps_next(config: Config, databases: Seq<Database>, options: ApplyOptions, i: int)
    requires
        0 <= i < databases.len(),
        !has_missing_owner(config, databases.take(i)),
    ensures
        databases_steps(config, databases.take(i + 1), options) == databases_steps(
            config,
            databases.take(i),
            options,
        ) + database_steps(config, databases[i], options),
        first_role_named(config.roles@, databases[i].owner@) is None ==> has_missing_owner(
            config,
            databases.take(i + 1),
        ),
        first_role_named(config.roles@, databases[i].owner@) is Some ==> !has_missing_owner(
            config,
            databases.take(i + 1),
        ),
{
    let next = databases.take(i + 1);
    assert(next.drop_last() =~= databases.take(i));
    assert(next.last() == databases[i]);
    if first_role_named(config.roles@, databases[i].owner@) is None {
        assert(next[i] == databases[i]);
    } else {
        assert forall|j: int| 0 <= j < next.len() implies first_role_named(
            config.roles@,
            #[trigger] next[j].owner@,
        ) is Some by {
            if j < i {
                assert(next[j] == databases.take(i)[j]);
            }
        }
    }
}

/// Appends the steps of the databases, up to the first one whose owner has
/// no credentials.
fn push_databases_steps(steps: &mut Vec<ApplyStep>, config: &Config, options: &ApplyOptions)
    ensures
        steps_view(final(steps)@) == steps_view(old(steps)@) + databases_steps(
            *config,
            config.databases@,
            *options,
        ),
{
    let ghost start = steps_view(steps@);
    let databases = &config.databases;
    assert(databases@.take(0) =~= Seq::<Database>::empty());
    assert(start + databases_steps(*config, databases@.take(0), *options) =~= start);
    let mut i: usize = 0;
    while i < databases.len()
        invariant
            i <= databases@.len(),
            databases@ == config.databases@,
            start == steps_view(old(steps)@),
            !has_missing_owner(*config, databases@.take(i as int)),
            steps_view(steps@) == start + databases_steps(*config, databases@.take(i as int), *options),
        decreases databases@.len() - i,
    {
        let found = push_database_steps(steps, config, &databases[i], options);
        proof {
            lemma_databases_steps_next(*config, databases@, *options, i as int);
            assert(steps_view(steps@) =~= start + databases_steps(*config, databases@.take(i + 1), *options));
        }
        if !found {
            proof {
                lemma_databases_steps_stop(*config, databases@, *options, i + 1);
            }
            return;
        }
        i += 1;
    }
    assert(databases@.take(databases@.len() as int) =~= databases@);
}

/// The steps that apply `config` as `options` ask, in the order they must
/// run: when asked, every role (created if missing, login set), then every
/// database (owned as configured, created where allowed); then, database by
/// database, the owner connection, extensions and schemas over a superuser
/// connection, the schema dump or tracking table, and the migrations. The
/// first database whose owner has no credentials ends the list.
pub fn plan_apply(config: &Config, options: &ApplyOptions) -> (steps: Vec<ApplyStep>)
    ensures
        steps_view(steps@) == apply_plan(*config, *options),
{
    let mut steps: Vec<ApplyStep> = Vec::new();
    assert(steps_view(steps@) =~= Seq::<StepView>::empty());
    if options.config {
        push_role_steps(&mut steps, &config.roles);
        push_ensure_database_steps(&mut steps, &config.databases, options.serving);
        assert(steps_view(steps@) =~= config_steps(*config, options.serving));
    }
    push_databases_steps(&mut steps, config, options);
    steps
}


/// The two connections a plan opens to a database.
#[derive(Debug, Clone, Copy, PartialEq, Eq, Structural)]
pub enum Connection {
    Owner,
    Superuser,
}

/// The database a step works on over the given connection, if it does.
pub open spec fn work_on(step: StepView, connection: Connection) -> Option<Seq<char>> {
    match (connection, step) {
        (Connection::Superuser, StepView::CreateExtension { database, .. }) => Some(database),
        (Connection::Superuser, StepView::CreateSchema { database, .. }) => Some(database),
        (Connection::Superuser, StepView::GrantSchemaPrivilege { database, .. }) => Some(database),
        (Connection::Owner, StepView::LoadSchemaDump { database, .. }) => Some(database),
        (Connection::Owner, StepView::CreateTrackingTables { database }) => Some(database),
        (Connection::Owner, StepView::MigrateUp { database, .. }) => Some(database),
        (Connection::Owner, StepView::RollBack { database, .. }) => Some(database),
        _ => None,
    }
}

/// The database a step connects to over the given connection, if it does.
pub open spec fn connects_to(step: StepView, connection: Connection) -> Option<Seq<char>> {
    match (connection, step) {
        (Connection::Superuser, StepView::ConnectAsSuperuser { database, .. }) => Some(database),
        (Connection::Owner, StepView::ConnectAsOwner { database, .. }) => Some(database),
        _ => None,
    }
}

/// Whether a step closes the given connection.
pub open spec fn disconnects(step: StepView, connection: Connection) -> bool {
    match (connection, step) {
        (Connection::Superuser, StepView::DisconnectSuperuser) => true,
        (Connection::Owner, StepView::DisconnectOwner) => true,
        _ => false,
    }
}

/// Whether, at position `i` of `steps`, the connection is open to `database`:
/// it was made before `i` and not closed since.
pub open spec fn connection_open(
    steps: Seq<StepView>,
    i: int,
    connection: Connection,
    database: Seq<char>,
) -> bool {
    exists|j: int|
        0 <= j < i && #[trigger] connects_to(steps[j], connection) == Some(database) && forall|k: int|
            j < k < i ==> !disconnects(#[trigger] steps[k], connection)
}

/// Every step that works over the connection runs while that connection is
/// open to the database it works on.
pub open spec fn work_guarded(steps: Seq<StepView>, connection: Connection) -> bool {
    forall|i: int|
        0 <= i < steps.len() && (#[trigger] work_on(steps[i], connection)) is Some
            ==> connection_open(steps, i, connection, work_on(steps[i], connection)->0)
}

/// No step works over, or closes, the connection.
pub open spec fn inert_for(steps: Seq<StepView>, connection: Connection) -> bool {
    forall|i: int|
        0 <= i < steps.len() ==> (#[trigger] work_on(steps[i], connection)) is None && !disconnects(
            steps[i],
            connection,
        )
}

/// Every step is superuser work on `database`.
pub open spec fn all_superuser_work_on(steps: Seq<StepView>, database: Seq<char>) -> bool {
    forall|i: int|
        0 <= i < steps.len() ==> #[trigger] work_on(steps[i], Connection::Superuser) == Some(database)
}

proof fn lemma_guarded_concat(a: Seq<StepView>, b: Seq<StepView>, connection: Connection)
    requires
        work_guarded(a, connection),
        work_guarded(b, connection),
    ensures
        work_guarded(a + b, connection),
{
    let s = a + b;
    assert forall|i: int|
        0 <= i < s.len() && (#[trigger] work_on(s[i], connection)) is Some implies connection_open(
        s,
        i,
        connection,
        work_on(s[i], connection)->0,
    ) by {
        let db = work_on(s[i], connection)->0;
        if i < a.len() {
            assert(s[i] == a[i]);
            assert(work_on(a[i], connection) is Some);
            assert(connection_open(a, i, connection, db));
            let j = choose|j: int|
                0 <= j < i && #[trigger] connects_to(a[j], connection) == Some(db) && forall|k: int|
                    j < k < i ==> !disconnects(#[trigger] a[k], connection);
            assert(s[j] == a[j]);
            assert forall|k: int| j < k < i implies !disconnects(#[trigger] s[k], connection) by {
                assert(s[k] == a[k]);
            }
        } else {
            let ib = i - a.len();
            assert(s[i] == b[ib]);
            assert(work_on(b[ib], connection) is Some);
            assert(connection_open(b, ib, connection, db));
            let j = choose|j: int|
                0 <= j < ib && #[trigger] connects_to(b[j], connection) == Some(db) && forall|k: int|
                    j < k < ib ==> !disconnects(#[trigger] b[k], connection);
            assert(s[j + a.len()] == b[j]);
            assert forall|k: int| j + a.len() < k < i implies !disconnects(#[trigger] s[k], connection) by {
                assert(s[k] == b[k - a.len()]);
            }
        }
    }
}

/// Work between a connection and its closing is guarded by that connection.
proof fn lemma_bracket_guarded(
    open: StepView,
    inner: Seq<StepView>,
    close: StepView,
    connection: Connection,
    database: Seq<char>,
)
    requires
        connects_to(open, connection) == Some(database),
        work_on(close, connection) is None,
        forall|i: int|
            0 <= i < inner.len() ==> !disconnects(#[trigger] inner[i], connection) && (work_on(
                inner[i],
                connection,
            ) is Some ==> work_on(inner[i], connection) == Some(database)),
    ensures
        work_guarded(seq![open] + inner + seq![close], connection),
{
    let s = seq![open] + inner + seq![close];
    assert forall|i: int|
        0 <= i < s.len() && (#[trigger] work_on(s[i], connection)) is Some implies connection_open(
        s,
        i,
        connection,
        work_on(s[i], connection)->0,
    ) by {
        assert(work_on(open, connection) is None);
        assert(0 < i <= inner.len());
        assert(s[i] == inner[i - 1]);
        assert(connects_to(s[0], connection) == Some(database));
        assert forall|k: int| 0 < k < i implies !disconnects(#[trigger] s[k], connection) by {
            assert(s[k] == inner[k - 1]);
        }
    }
}

proof fn lemma_extension_steps_work(database: Seq<char>, extensions: Seq<String>)
    ensures
        all_superuser_work_on(extension_steps(database, extensions), database),
    decreases extensions.len(),
{
    if extensions.len() > 0 {
        lemma_extension_steps_work(database, extensions.drop_last());
    }
}

proof fn lemma_grant_steps_work(
    database: Seq<char>,
    schema: Seq<char>,
    roles: Seq<String>,
    privilege: Privilege,
)
    ensures
        all_superuser_work_on(grant_steps(database, schema, roles, privilege), database),
    decreases roles.len(),
{
    if roles.len() > 0 {
        lemma_grant_steps_work(database, schema, roles.drop_last(), privilege);
    }
}

proof fn lemma_privilege_steps_work(database: Seq<char>, schema: Schema)
    ensures
        all_superuser_work_on(privilege_steps(database, schema), database),
{
    match schema.privileges {
        Some(p) => {
            match p.usage {
                Some(rs) => lemma_grant_steps_work(database, schema.name@, rs@, Privilege::Usage),
                None => {},
            }
            match p.create {
                Some(rs) => lemma_grant_steps_work(database, schema.name@, rs@, Privilege::Create),
                None => {},
            }
        },
        None => {},
    }
}

proof fn lemma_schema_steps_work(database: Seq<char>, schemas: Seq<Schema>)
    ensures
        all_superuser_work_on(schema_steps(database, schemas), database),
    decreases schemas.len(),
{
    if schemas.len() > 0 {
        lemma_schema_steps_work(database, schemas.drop_last());
        lemma_privilege_steps_work(database, schemas.last());
    }
}

/// Whether the steps may stand inside an owner connection to `database`:
/// none closes it or stops the run, and any owner work is on `database`.
pub open spec fn fits_owner_session(steps: Seq<StepView>, database: Seq<char>) -> bool {
    forall|i: int|
        0 <= i < steps.len() ==> !disconnects(#[trigger] steps[i], Connection::Owner) && !(
        steps[i] is MissingOwner) && (work_on(steps[i], Connection::Owner) is Some ==> work_on(
            steps[i],
            Connection::Owner,
        ) == Some(database))
}

proof fn lemma_fits_concat(a: Seq<StepView>, b: Seq<StepView>, database: Seq<char>)
    requires
        fits_owner_session(a, database),
        fits_owner_session(b, database),
    ensures
        fits_owner_session(a + b, database),
{
    assert forall|i: int| 0 <= i < (a + b).len() implies !disconnects(
        #[trigger] (a + b)[i],
        Connection::Owner,
    ) && !((a + b)[i] is MissingOwner) && (work_on((a + b)[i], Connection::Owner) is Some
        ==> work_on((a + b)[i], Connection::Owner) == Some(database)) by {
        if i < a.len() {
            assert((a + b)[i] == a[i]);
        } else {
            assert((a + b)[i] == b[i - a.len()]);
        }
    }
}

/// A superuser connection doing superuser work on `database` guards that
/// work, and may stand inside the owner connection to `database`.
proof fn lemma_as_superuser_shape(database: Seq<char>, superuser: Superuser, inner: Seq<StepView>)
    requires
        all_superuser_work_on(inner, database),
    ensures
        work_guarded(as_superuser(database, superuser, inner), Connection::Superuser),
        fits_owner_session(as_superuser(database, superuser, inner), database),
{
    let open = StepView::ConnectAsSuperuser {
        database,
        user: superuser.name@,
        password: superuser.password@,
    };
    assert forall|i: int| 0 <= i < inner.len() implies !disconnects(
        #[trigger] inner[i],
        Connection::Superuser,
    ) && (work_on(inner[i], Connection::Superuser) is Some ==> work_on(
        inner[i],
        Connection::Superuser,
    ) == Some(database)) by {
        assert(work_on(inner[i], Connection::Superuser) == Some(database));
    }
    lemma_bracket_guarded(open, inner, StepView::DisconnectSuperuser, Connection::Superuser, database);
    let s = as_superuser(database, superuser, inner);
    assert forall|i: int| 0 <= i < s.len() implies !disconnects(#[trigger] s[i], Connection::Owner)
        && !(s[i] is MissingOwner) && (work_on(s[i], Connection::Owner) is Some ==> work_on(
        s[i],
        Connection::Owner,
    ) == Some(database)) by {
        if 0 < i < s.len() - 1 {
            assert(s[i] == inner[i - 1]);
            assert(work_on(inner[i - 1], Connection::Superuser) == Some(database));
        }
    }
}

/// The extension part of a database's steps.
proof fn lemma_extension_part(config: Config, d: Database)
    ensures
        work_guarded(database_extension_steps(config, d), Connection::Superuser),
        fits_owner_session(database_extension_steps(config, d), d.name@),
{
    match d.extensions {
        Some(exts) => {
            lemma_extension_steps_work(d.name@, exts@);
            lemma_as_superuser_shape(d.name@, config.superuser, extension_steps(d.name@, exts@));
        },
        None => {},
    }
}

/// The schema part of a database's steps.
proof fn lemma_schema_part(config: Config, d: Database)
    ensures
        work_guarded(database_schema_steps(config, d), Connection::Superuser),
        fits_owner_session(database_schema_steps(config, d), d.name@),
{
    match d.schemas {
        Some(schemas) => {
            lemma_schema_steps_work(d.name@, schemas@);
            lemma_as_superuser_shape(d.name@, config.superuser, schema_steps(d.name@, schemas@));
        },
        None => {},
    }
}

/// The loading and migration part of a database's steps.
proof fn lemma_tail_part(d: Database, options: ApplyOptions)
    ensures
        inert_for(schema_load_steps(d, options) + migration_steps(d, options), Connection::Superuser),
        fits_owner_session(schema_load_steps(d, options) + migration_steps(d, options), d.name@),
{
}

proof fn lemma_role_steps_inert(roles: Seq<Role>)
    ensures
        inert_for(role_steps(roles), Connection::Owner),
        inert_for(role_steps(roles), Connection::Superuser),
        no_missing_owner(role_steps(roles)),
    decreases roles.len(),
{
    if roles.len() > 0 {
        lemma_role_steps_inert(roles.drop_last());
    }
}

proof fn lemma_ensure_database_steps_inert(databases: Seq<Database>, may_create: bool)
    ensures
        inert_for(ensure_database_steps(databases, may_create), Connection::Owner),
        inert_for(ensure_database_steps(databases, may_create), Connection::Superuser),
        no_missing_owner(ensure_database_steps(databases, may_create)),
    decreases databases.len(),
{
    if databases.len() > 0 {
        lemma_ensure_database_steps_inert(databases.drop_last(), may_create);
    }
}

/// The steps of one database guard their work with both connections; a
/// database whose owner has credentials gets no stopping step, and one whose
/// owner has none gets only that.
proof fn lemma_database_steps_shape(config: Config, d: Database, options: ApplyOptions)
    ensures
        work_guarded(database_steps(config, d, options), Connection::Owner),
        work_guarded(database_steps(config, d, options), Connection::Superuser),
        first_role_named(config.roles@, d.owner@) is Some ==> no_missing_owner(
            database_steps(config, d, options),
        ),
        first_role_named(config.roles@, d.owner@) is None ==> database_steps(config, d, options)
            == seq![StepView::MissingOwner { database: d.name@, owner: d.owner@ }],
{
    match first_role_named(config.roles@, d.owner@) {
        None => {},
        Some(i) => {
            let open = StepView::ConnectAsOwner {
                database: d.name@,
                role: config.roles@[i].name@,
                password: config.roles@[i].password@,
            };
            let close = StepView::DisconnectOwner;
            let ext = database_extension_steps(config, d);
            let sch = database_schema_steps(config, d);
            let tail = schema_load_steps(d, options) + migration_steps(d, options);
            lemma_extension_part(config, d);
            lemma_schema_part(config, d);
            lemma_tail_part(d, options);
            lemma_fits_concat(ext, sch, d.name@);
            lemma_fits_concat(ext + sch, tail, d.name@);
            let inner = ext + sch + tail;
            let whole = seq![open] + inner + seq![close];
            assert(database_steps(config, d, options) =~= whole);
            lemma_bracket_guarded(open, inner, close, Connection::Owner, d.name@);
            assert(inert_for(seq![open], Connection::Superuser));
            assert(inert_for(seq![close], Connection::Superuser));
            lemma_guarded_concat(seq![open], ext, Connection::Superuser);
            lemma_guarded_concat(seq![open] + ext, sch, Connection::Superuser);
            lemma_guarded_concat(seq![open] + ext + sch, tail, Connection::Superuser);
            lemma_guarded_concat(seq![open] + ext + sch + tail, seq![close], Connection::Superuser);
            assert(seq![open] + ext + sch + tail + seq![close] =~= whole);
            assert forall|k: int| 0 <= k < whole.len() implies !(#[trigger] whole[k] is MissingOwner) by {
                if 0 < k < whole.len() - 1 {
                    assert(whole[k] == inner[k - 1]);
                }
            }
        },
    }
}

/// No step stops the run for a missing owner.
pub open spec fn no_missing_owner(steps: Seq<StepView>) -> bool {
    forall|i: int| 0 <= i < steps.len() ==> !(#[trigger] steps[i] is MissingOwner)
}

/// The steps of the databases guard their work with both connections;
/// without a database lacking owner credentials no step stops the run, and
/// with one, the last step (and only it) stops the run.
proof fn lemma_databases_steps_shape(config: Config, databases: Seq<Database>, options: ApplyOptions)
    ensures
        work_guarded(databases_steps(config, databases, options), Connection::Owner),
        work_guarded(databases_steps(config, databases, options), Connection::Superuser),
        !has_missing_owner(config, databases) ==> no_missing_owner(
            databases_steps(config, databases, options),
        ),
        has_missing_owner(config, databases) ==> {
            let steps = databases_steps(config, databases, options);
            &&& steps.len() > 0
            &&& steps.last() is MissingOwner
            &&& no_missing_owner(steps.drop_last())
        },
    decreases databases.len(),
{
    if databases.len() > 0 {
        let before = databases.drop_last();
        let d = databases.last();
        let prev = databases_steps(config, before, options);
        lemma_databases_steps_shape(config, before, options);
        lemma_database_steps_shape(config, d, options);
        if !has_missing_owner(config, before) {
            let cur = database_steps(config, d, options);
            lemma_guarded_concat(prev, cur, Connection::Owner);
            lemma_guarded_concat(prev, cur, Connection::Superuser);
            let steps = databases_steps(config, databases, options);
            if first_role_named(config.roles@, d.owner@) is None {
                assert(steps.drop_last() =~= prev);
            } else {
                assert forall|i: int| 0 <= i < databases.len() implies first_role_named(
                    config.roles@,
                    #[trigger] databases[i].owner@,
                ) is Some by {
                    if i < before.len() {
                        assert(databases[i] == before[i]);
                    }
                }
            }
        } else {
            let i = choose|i: int|
                0 <= i < before.len() && first_role_named(config.roles@, #[trigger] before[i].owner@)
                    is None;
            assert(databases[i] == before[i]);
        }
    }
}

/// Every piece of work in a plan runs over an open connection of the right
/// kind to the database it works on: extensions, schemas and grants over a
/// superuser connection; the schema dump, the tracking table and the
/// migrations over the owner's connection. Each such step comes after the
/// connection to its database was made, with no closing of that connection in
/// between.
pub proof fn lemma_work_runs_over_open_connections(config: Config, options: ApplyOptions)
    ensures
        work_guarded(apply_plan(config, options), Connection::Owner),
        work_guarded(apply_plan(config, options), Connection::Superuser),
{
    lemma_role_steps_inert(config.roles@);
    lemma_ensure_database_steps_inert(config.databases@, options.serving);
    let head = if options.config {
        config_steps(config, options.serving)
    } else {
        Seq::empty()
    };
    assert(inert_for(head, Connection::Owner));
    assert(inert_for(head, Connection::Superuser));
    let tail = databases_steps(config, config.databases@, options);
    lemma_databases_steps_shape(config, config.databases@, options);
    lemma_guarded_concat(head, tail, Connection::Owner);
    lemma_guarded_concat(head, tail, Connection::Superuser);
}

/// A database whose owner has no credentials ends the run: the plan holds a
/// stopping step exactly when some database lacks owner credentials, and
/// nothing follows that step.
pub proof fn lemma_missing_owner_ends_plan(config: Config, options: ApplyOptions)
    ensures
        forall|i: int|
            0 <= i < apply_plan(config, options).len() && #[trigger] apply_plan(
                config,
                options,
            )[i] is MissingOwner ==> i == apply_plan(config, options).len() - 1,
        (exists|i: int|
            0 <= i < apply_plan(config, options).len() && #[trigger] apply_plan(
                config,
                options,
            )[i] is MissingOwner) <==> has_missing_owner(config, config.databases@),
{
    lemma_role_steps_inert(config.roles@);
    lemma_ensure_database_steps_inert(config.databases@, options.serving);
    lemma_databases_steps_shape(config, config.databases@, options);
    let head = if options.config {
        config_steps(config, options.serving)
    } else {
        Seq::empty()
    };
    let tail = databases_steps(config, config.databases@, options);
    let plan = apply_plan(config, options);
    assert(plan == head + tail);
    assert(no_missing_owner(head));
    if has_missing_owner(config, config.databases@) {
        assert(plan[plan.len() - 1] == tail.last());
        assert forall|i: int| 0 <= i < plan.len() && #[trigger] plan[i] is MissingOwner implies i
            == plan.len() - 1 by {
            if i < head.len() {
                assert(plan[i] == head[i]);
            } else if i < plan.len() - 1 {
                assert(plan[i] == tail.drop_last()[i - head.len()]);
            }
        }
    } else {
        assert forall|i: int| 0 <= i < plan.len() implies !(#[trigger] plan[i] is MissingOwner) by {
            if i < head.len() {
                assert(plan[i] == head[i]);
            } else {
                assert(plan[i] == tail[i - head.len()]);
            }
        }
    }
}

proof fn lemma_contains_in_concat(a: Seq<StepView>, b: Seq<StepView>, x: StepView)
    ensures
        (a.contains(x) || b.contains(x)) ==> (a + b).contains(x),
{
    if a.contains(x) {
        let j = choose|j: int| 0 <= j < a.len() && a[j] == x;
        assert((a + b)[j] == x);
    } else if b.contains(x) {
        let j = choose|j: int| 0 <= j < b.len() && b[j] == x;
        assert((a + b)[a.len() + j] == x);
    }
}

proof fn lemma_grant_steps_have(
    database: Seq<char>,
    schema: Seq<char>,
    roles: Seq<String>,
    privilege: Privilege,
    r: int,
)
    requires
        0 <= r < roles.len(),
    ensures
        grant_steps(database, schema, roles, privilege).contains(
            StepView::GrantSchemaPrivilege { database, schema, role: roles[r]@, privilege },
        ),
    decreases roles.len(),
{
    let x = StepView::GrantSchemaPrivilege { database, schema, role: roles[r]@, privilege };
    let rest = grant_steps(database, schema, roles.drop_last(), privilege);
    let last = seq![
        StepView::GrantSchemaPrivilege { database, schema, role: roles.last()@, privilege },
    ];
    if r == roles.len() - 1 {
        assert(last[0] == x);
    } else {
        assert(roles.drop_last()[r] == roles[r]);
        lemma_grant_steps_have(database, schema, roles.drop_last(), privilege, r);
    }
    lemma_contains_in_concat(rest, last, x);
}

proof fn lemma_schema_steps_have(database: Seq<char>, schemas: Seq<Schema>, si: int, x: StepView)
    requires
        0 <= si < schemas.len(),
        privilege_steps(database, schemas[si]).contains(x),
    ensures
        schema_steps(database, schemas).contains(x),
    decreases schemas.len(),
{
    let s = schemas.last();
    let rest = schema_steps(database, schemas.drop_last());
    let create = seq![StepView::CreateSchema { database, schema: s.name@, owner: s.owner@ }];
    if si == schemas.len() - 1 {
        lemma_contains_in_concat(rest + create, privilege_steps(database, s), x);
    } else {
        assert(schemas.drop_last()[si] == schemas[si]);
        lemma_schema_steps_have(database, schemas.drop_last(), si, x);
        lemma_contains_in_concat(rest, create, x);
        lemma_contains_in_concat(rest + create, privilege_steps(database, s), x);
    }
}

proof fn lemma_databases_steps_grow(
    config: Config,
    databases: Seq<Database>,
    options: ApplyOptions,
    k: int,
    x: StepView,
)
    requires
        0 <= k <= databases.len(),
        databases_steps(config, databases.take(k), options).contains(x),
    ensures
        databases_steps(config, databases, options).contains(x),
    decreases databases.len() - k,
{
    if k < databases.len() {
        let longer = databases.take(k + 1);
        assert(longer.drop_last() =~= databases.take(k));
        let a = databases_steps(config, databases.take(k), options);
        if !has_missing_owner(config, databases.take(k)) {
            lemma_contains_in_concat(a, database_steps(config, longer.last(), options), x);
        }
        lemma_databases_steps_grow(config, databases, options, k + 1, x);
    } else {
        assert(databases.take(k) =~= databases);
    }
}

/// Every role listed under a schema's `usage` privileges is granted `USAGE`
/// on that schema, and every role listed under its `create` privileges is
/// granted `CREATE`, in the database the schema belongs to: the plan holds
/// the grant step, for each database up to the first one whose owner has no
/// credentials.
pub proof fn lemma_schema_grants_are_planned(config: Config, options: ApplyOptions, di: int, si: int)
    requires
        0 <= di < config.databases@.len(),
        !has_missing_owner(config, config.databases@.take(di + 1)),
        config.databases@[di].schemas is Some,
        0 <= si < config.databases@[di].schemas->Some_0@.len(),
    ensures
        ({
            let d = config.databases@[di];
            let s = d.schemas->Some_0@[si];
            s.privileges matches Some(p) ==> {
                &&& p.usage matches Some(roles) ==> forall|r: int|
                    0 <= r < roles@.len() ==> apply_plan(config, options).contains(
                        StepView::GrantSchemaPrivilege {
                            database: d.name@,
                            schema: s.name@,
                            role: (#[trigger] roles@[r])@,
                            privilege: Privilege::Usage,
                        },
                    )
                &&& p.create matches Some(roles) ==> forall|r: int|
                    0 <= r < roles@.len() ==> apply_plan(config, options).contains(
                        StepView::GrantSchemaPrivilege {
                            database: d.name@,
                            schema: s.name@,
                            role: (#[trigger] roles@[r])@,
                            privilege: Privilege::Create,
                        },
                    )
            }
        }),
{
    let dbs = config.databases@;
    let d = dbs[di];
    let schemas = d.schemas->Some_0@;
    let s = schemas[si];
    assert(dbs.take(di + 1)[di] == d);
    assert(first_role_named(config.roles@, d.owner@) is Some);
    if has_missing_owner(config, dbs.take(di)) {
        let i = choose|i: int|
            0 <= i < dbs.take(di).len() && first_role_named(config.roles@, #[trigger] dbs.take(di)[i].owner@)
                is None;
        assert(dbs.take(di + 1)[i] == dbs.take(di)[i]);
    }
    lemma_databases_steps_next(config, dbs, options, di);
    let head = if options.config {
        config_steps(config, options.serving)
    } else {
        Seq::empty()
    };
    assert forall|x: StepView| privilege_steps(d.name@, s).contains(x) implies apply_plan(
        config,
        options,
    ).contains(x) by {
        lemma_schema_steps_have(d.name@, schemas, si, x);
        let inner = schema_steps(d.name@, schemas);
        let connect = seq![
            StepView::ConnectAsSuperuser {
                database: d.name@,
                user: config.superuser.name@,
                password: config.superuser.password@,
            },
        ];
        lemma_contains_in_concat(connect, inner, x);
        lemma_contains_in_concat(connect + inner, seq![StepView::DisconnectSuperuser], x);
        let i = first_role_named(config.roles@, d.owner@)->Some_0;
        let owner = seq![
            StepView::ConnectAsOwner {
                database: d.name@,
                role: config.roles@[i].name@,
                password: config.roles@[i].password@,
            },
        ];
        let a = owner + database_extension_steps(config, d);
        let b = database_schema_steps(config, d);
        lemma_contains_in_concat(a, b, x);
        lemma_contains_in_concat(a + b, schema_load_steps(d, options), x);
        lemma_contains_in_concat(a + b + schema_load_steps(d, options), migration_steps(d, options), x);
        lemma_contains_in_concat(
            a + b + schema_load_steps(d, options) + migration_steps(d, options),
            seq![StepView::DisconnectOwner],
            x,
        );
        assert(database_steps(config, d, options).contains(x));
        lemma_contains_in_concat(
            databases_steps(config, dbs.take(di), options),
            database_steps(config, d, options),
            x,
        );
        lemma_databases_steps_grow(config, dbs, options, di + 1, x);
        lemma_contains_in_concat(head, databases_steps(config, dbs, options), x);
    }
    match s.privileges {
        Some(p) => {
            let usage = optional_grant_steps(d.name@, s.name@, p.usage, Privilege::Usage);
            let create = optional_grant_steps(d.name@, s.name@, p.create, Privilege::Create);
            match p.usage {
                Some(roles) => {
                    assert forall|r: int| 0 <= r < roles@.len() implies apply_plan(config, options).contains(
                        StepView::GrantSchemaPrivilege {
                            database: d.name@,
                            schema: s.name@,
                            role: (#[trigger] roles@[r])@,
                            privilege: Privilege::Usage,
                        },
                    ) by {
                        let x = StepView::GrantSchemaPrivilege {
                            database: d.name@,
                            schema: s.name@,
                            role: roles@[r]@,
                            privilege: Privilege::Usage,
                        };
                        lemma_grant_steps_have(d.name@, s.name@, roles@, Privilege::Usage, r);
                        lemma_contains_in_concat(usage, create, x);
                    }
                },
                None => {},
            }
            match p.create {
                Some(roles) => {
                    assert forall|r: int| 0 <= r < roles@.len() implies apply_plan(config, options).contains(
                        StepView::GrantSchemaPrivilege {
                            database: d.name@,
                            schema: s.name@,
                            role: (#[trigger] roles@[r])@,
                            privilege: Privilege::Create,
                        },
                    ) by {
                        let x = StepView::GrantSchemaPrivilege {
                            database: d.name@,
                            schema: s.name@,
                            role: roles@[r]@,
                            privilege: Privilege::Create,
                        };
                        lemma_grant_steps_have(d.name@, s.name@, roles@, Privilege::Create, r);
                        lemma_contains_in_concat(usage, create, x);
                    }
                },
                None => {},
            }
        },
        None => {},
    }
}

/// What to do with a configured database, given whether it exists.
#[derive(Debug, Clone, Copy, PartialEq, Eq, Structural)]
pub enum DatabaseAction {
    /// It exists: make the configured owner its owner.
    AssignOwner,
    /// It is missing and may be created.
    Create,
    /// It is missing and cannot be created without a server of our own.
    Refuse,
}

/// An existing database is given its owner; a missing one is created only
/// when the server was started by this process.
pub fn database_action(exists: bool, may_create: bool) -> (a: DatabaseAction)
    ensures
        a == (if exists {
            DatabaseAction::AssignOwner
        } else if may_create {
            DatabaseAction::Create
        } else {
            DatabaseAction::Refuse
        }),
{
    if exists {
        DatabaseAction::AssignOwner
    } else if may_create {
        DatabaseAction::Create
    } else {
        DatabaseAction::Refuse
    }
}

/// What to do with a configured role, given whether it exists.
#[derive(Debug, Clone, Copy, PartialEq, Eq, Structural)]
pub enum RoleAction {
    /// It is missing: create it with its password.
    Create,
    /// It exists: leave it as it is.
    Keep,
}

/// A missing role is created; an existing one is kept.
pub fn role_action(exists: bool) -> (a: RoleAction)
    ensures
        a == (if exists {
            RoleAction::Keep
        } else {
            RoleAction::Create
        }),
{
    if exists {
        RoleAction::Keep
    } else {
        RoleAction::Create
    }
}

} // verus!
