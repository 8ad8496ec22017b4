[package]
name = "fs_swarm"
version = "0.1.0"
edition = "2021"
publish = false

[dependencies]
anyhow = "1"
bitvec = "1"
threadpool = "1"
