[package]
name = "slint_node_editor"
version = "0.1.0"
edition = "2021"
publish = false

[dependencies]
rust-sugiyama = "*"
slint = { version = "*", default-features = false, features = ["std", "compat-1-2"] }
