[package]
name = "avl_bst"
version = "0.1.0"
edition = "2021"
publish = false

[dependencies]
dotenv = "0.15"
rand = "0.8"
