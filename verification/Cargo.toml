[package]
name = "difftastic"
version = "0.1.0"
edition = "2021"
publish = false

[dependencies]
libc = "0.2"
log = "0.4"
mimalloc = { version = "0.1", default-features = false }
owo-colors = "3"
pretty_env_logger = "0.4"
rayon = "1"
serde_json = "1"
