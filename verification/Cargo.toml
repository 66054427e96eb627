[package]
name = "island"
version = "0.1.0"
edition = "2021"
publish = false

[dependencies]
clap = { version = "*", features = ["derive"] }
elf = "*"
landlock = "*"
landlockconfig = "*"
lddtree = "*"
libc = "*"
serde = { version = "*", features = ["derive"] }
tempfile = "*"
thiserror = "*"
toml = "*"
