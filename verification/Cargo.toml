[package]
name = "furcons_bsky_labeler"
version = "0.1.0"
edition = "2021"
publish = false

[dependencies]
anyhow = "*"
atrium-api = "=0.25.8"
atrium-crypto = "=0.1.3"
atrium-xrpc-client = "=0.5.15"
axum = { version = "*", features = ["ws"] }
chrono = "=0.4.45"
chrono-tz = "=0.10.4"
config = { version = "*", default-features = false, features = ["toml"] }
deunicode = "=1.6.2"
env_logger = "*"
futures = "*"
icu_casemap = "=2.3.0"
icu_locale = "=2.3.1"
icu_normalizer = "=2.3.0"
ipld-core = "=0.4.3"
log = "*"
reqwest = { version = "*", default-features = false, features = ["json", "rustls-tls"] }
serde = { version = "*", features = ["derive"] }
serde_json = "*"
sqlx = { version = "*", default-features = false, features = ["postgres", "runtime-tokio"] }
tokio = { version = "*", features = ["rt-multi-thread", "macros", "net", "time", "sync", "fs"] }
tokio-tungstenite = "*"
zstd = "=0.14.0"

[dev-dependencies]
serde_ipld_dagcbor = "=0.7.0"
