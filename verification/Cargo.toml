[package]
name = "glib"
version = "0.1.0"
edition = "2021"
publish = false

[dependencies]
linked_hash_set = "0.1"
include_dir = "0.6"
glium = "0.32"

[dev-dependencies]
regex = "1"
