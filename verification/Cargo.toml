[package]
name = "task_voting"
version = "0.1.0"
edition = "2021"
publish = false

[dependencies]
schnorrkel = "*"
merlin = "*"

[dev-dependencies]
rand = "*"
