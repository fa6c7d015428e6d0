//! Declarative set-up of Postgres servers: the configuration model, the plan
//! of steps that applies it, and the naming, ordering, running and rolling
//! back of schema migrations, each stated as a contract and proved.

pub mod apply;
pub mod cli;
pub mod config;
pub mod create;
pub mod migration;
pub mod schema_dump;
pub mod secret;
pub mod text;
