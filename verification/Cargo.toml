[package]
name = "email_bot"
version = "0.1.0"
edition = "2021"
publish = false

[dependencies]
ammonia = "=4.2.4"
anyhow = "1"
async-imap = { version = "=0.12.0", default-features = false, features = ["runtime-tokio"] }
base64 = "=0.22.1"
chrono = { version = "=0.4.45", default-features = false, features = ["now", "std"] }
futures-util = { version = "0.3", default-features = false }
html2text = { version = "=0.17.4", default-features = false }
lettre = { version = "=0.11.23", default-features = false, features = ["smtp-transport", "tokio1", "tokio1-native-tls"] }
mail-parser = { version = "=0.11.9", default-features = false }
matrix-sdk = { version = "=0.16.1", default-features = false, features = ["native-tls"] }
mime = "=0.3.17"
native-tls = "0.2"
rusqlite = { version = "=0.41.1", default-features = false, features = ["bundled"] }
serde = { version = "1", features = ["derive"] }
serde_json = "1"
tokio = { version = "1", features = ["fs", "macros", "net", "rt-multi-thread", "signal", "sync", "time"] }
tokio-native-tls = "0.3"
toml = "=1.1.8"
tracing = "0.1"
tracing-subscriber = { version = "0.3", default-features = false, features = ["env-filter", "fmt"] }
uuid = { version = "=1.29.0", features = ["v4"] }
