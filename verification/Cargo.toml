[package]
name = "recommendation_system"
version = "0.1.0"
edition = "2021"
publish = false

[dependencies]
anyhow = "1"
clap = "2"
common_macros = "0.1"
csv = "1"
log = "0.4"
num-traits = "0.2"
rustyline = "6"
simplelog = "0.8"
thiserror = "1"
