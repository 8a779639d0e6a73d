[package]
name = "hg_core"
version = "0.1.0"
edition = "2021"
publish = false

[dependencies]
clap = { version = "4", features = ["cargo"] }
home = "=0.5.12"
itertools = "=0.10.5"
libc = "=0.2.191"
log = "0.4"
