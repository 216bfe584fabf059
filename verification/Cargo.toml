[package]
name = "git_workspace"
version = "0.1.0"
edition = "2021"
publish = false

[dependencies]
anyhow = "*"
atomic-counter = "*"
console = "*"
expanduser = "*"
fs_extra = "*"
indicatif = "*"
rayon = "*"
serde = { version = "*", features = ["derive"] }
serde_json = "*"
structopt = "*"
ureq = "*"
walkdir = "*"
