[package]
name = "pathfinder"
version = "0.1.0"
edition = "2021"
publish = false

[dependencies]
colored = "2"
priority-queue = "1"
rand = "0.8"
