[package]
name = "buffett_core"
version = "0.1.0"
edition = "2021"
publish = false

[dependencies]
clap = "2"
dirs = "1"
libc = "0.2"
log = "0.4"
serde = "1"
serde_derive = "1"
untrusted = "0.6"
