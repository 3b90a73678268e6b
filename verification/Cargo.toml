[package]
name = "tdgame"
version = "0.1.0"
edition = "2021"
publish = false

[dependencies]
atomic-counter = "*"
dashmap = "*"
fastrand = "*"
seahash = "*"
smallvec = "*"
snmalloc-rs = "*"
