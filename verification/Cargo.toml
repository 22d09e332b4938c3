[package]
name = "fren-date"
version = "0.1.0"
edition = "2021"
publish = false

[dependencies]
chrono = "0.4"
deunicode = "1"
unicode-normalization = "0.1"
regex = "1"
pure-rust-locales = "*"
clap = { version = "4", features = ["derive"] }
clap_complete = "4"
anstream = "*"
anstyle = "1"
uuid = { version = "1", features = ["v7"] }
serde = { version = "1", features = ["derive"] }
serde_json = "1"
thiserror = "*"
libc = "0.2"
