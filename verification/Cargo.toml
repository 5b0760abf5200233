[package]
name = "dir_index"
version = "0.1.0"
edition = "2021"
publish = false

[dependencies]
fs_extra = "1.3.0"
