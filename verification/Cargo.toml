[package]
name = "pg_trellis"
version = "0.1.0"
edition = "2021"
publish = false

[dependencies]
chrono = "=0.4.45"
subst = "=0.3.8"
clap = { version = "=4.6.7", features = ["derive"] }
colored = "=3.1.1"
dotenv = "=0.15.0"
postgresql_embedded = "=0.22.0"
serde = { version = "=1.0.229", features = ["derive"] }
serde-saphyr = "=2.0.0"
sqlx = { version = "=0.9.0", default-features = false, features = ["postgres", "runtime-tokio"] }
tokio = { version = "=1.54.1", features = ["macros", "rt-multi-thread", "signal"] }
