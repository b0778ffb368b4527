[package]
name = "rowexec"
version = "0.1.0"
edition = "2021"
publish = false

[dependencies]
boolinator = "2.4"
futures = "0.3"
im-rc = "15"
serde = { version = "1", features = ["derive"] }
sqlparser = "0.6"
thiserror = "1"
