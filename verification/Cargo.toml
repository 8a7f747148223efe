[package]
name = "worktree"
version = "0.1.0"
edition = "2021"
publish = false

[dependencies]
anyhow = "1"
crossbeam-channel = "0.5"
ignore = "0.4"
log = "0.4"
parking_lot = "0.11"
smol = "1"
