[package]
name = "nat_common"
version = "0.1.0"
edition = "2021"
publish = false

[dependencies]
bincode = "1.3"
serde = { version = "1", features = ["derive"] }
tokio = { version = "1", features = ["full"] }
dotenvy = "0.15"
log = "0.4"
env_logger = "0.11"
actix = "0.13"
actix-web = { version = "4", default-features = false, features = ["macros"] }
actix-files = "0.6"
tera = { version = "1", default-features = false }
listenfd = "1"
async-trait = "0.1"
derive_more = "0.99"
tracing-subscriber = "0.3"
sea-orm = { version = "1", default-features = false, features = ["macros", "runtime-tokio-rustls"] }
