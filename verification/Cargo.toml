[package]
name = "mq-mount"
version = "0.1.0"
edition = "2021"
publish = false

[dependencies]
async-trait = "*"
clap = { version = "4", features = ["derive"] }
glob = "*"
libc = "0.2"
miette = { version = "7", features = ["fancy"] }
mq-lang = "=0.7.0"
mq-markdown = "=0.7.0"
nfsserve = "*"
notify = "*"
rustc-hash = "2"
thiserror = "2"
tokio = { version = "1", features = ["full"] }
tracing = "0.1"
tracing-subscriber = { version = "0.3", features = ["env-filter"] }
