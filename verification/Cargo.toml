[package]
name = "adr"
version = "0.1.0"
edition = "2021"
publish = false

[dependencies]
chrono = "0.4"
clap = { version = "4", features = ["derive"] }
clap_complete = "4"
is-terminal = "0.4"
pathdiff = "0.2"
thiserror = "2"
