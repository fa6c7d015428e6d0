# pg_trellis

Trellis configures and runs Postgres servers from a declarative YAML file
(roles, databases, schemas, privileges, extensions) and manages schema
migrations.

- `src/` is the library, with its contracts and proofs:
  - `config`: the configuration model, role lookup, server settings and
    the server version requirement;
  - `apply`: the ordered plan of steps that applies a configuration, with
    proofs that work runs over the right open connection and that a database
    without owner credentials ends the run;
  - `migration`: reading `<version>_<description>.up.sql` names, turning a
    directory listing into migrations ordered by version, the state machine
    that runs them (with proofs that every step keeps it consistent, that it
    never applies a migration twice or one the database holds, and that a
    second run against the same database applies nothing), and rollback
    decisions;
  - `create`: naming a new migration's `.up.sql` / `.down.sql` pair, with
    proofs that a migration created at an instant of the years 0000 to 9999,
    with a non-empty description, is found by the scan and rolled back by the
    rollback;
  - `schema_dump`: removing `\restrict` / `\unrestrict` meta-commands from a
    schema dump;
  - `secret`: resolving variable references in passwords against the
    variables that the program reads from its environment;
  - `cli`: what an invocation does, from its flags;
  - `text`: character and number helpers.
- The configuration's `role_groups` are read but not acted on: no role
  memberships are granted from them.
- `app/` is the program: argument parsing, reading the configuration, the
  embedded server, and the database and file work, driven by the library.
- `tests/` runs the library on concrete values.
