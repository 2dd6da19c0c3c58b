[package]
name = "skill_discovery"
version = "0.1.0"
edition = "2021"
publish = false

[dependencies]
dirs = "5"
tracing = "0.1"
