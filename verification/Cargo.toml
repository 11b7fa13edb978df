[package]
name = "omemfs"
version = "0.1.0"
edition = "2021"
publish = false

[dependencies]
anstyle = "=1.0.14"
atty = "=0.2.14"
chrono = { version = "=0.4.45", features = ["serde"] }
filetime = "=0.2.29"
rand = "0.9"
rpassword = "=7.5.4"
serde = { version = "=1.0.229", features = ["derive"] }
serde_json = "=1.0.154"
thiserror = "=2.0.21"
