[package]
name = "treemerge"
version = "0.1.0"
edition = "2021"
publish = false

[dependencies]
clap = "*"
colog = "*"
log = "*"
serde_json = "*"
