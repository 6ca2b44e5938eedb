[package]
name = "repo_reconcile"
version = "0.1.0"
edition = "2021"
publish = false

[dependencies]
clap = "*"
fern = "*"
log = "*"
rayon = "*"
reqwest = { version = "*", default-features = false, features = ["blocking"] }
tar = "*"
