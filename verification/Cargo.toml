[package]
name = "poetry_udeps"
version = "0.1.0"
edition = "2021"
publish = false

[dependencies]
anyhow = "*"
clap = { version = "*", features = ["derive"] }
clap-verbosity-flag = "*"
flume = "*"
ignore = "*"
toml = "*"
tracing = "*"
tracing-log = "*"
tracing-subscriber = "*"
xshell = "*"
