[package]
name = "vim_golf_judge"
version = "0.1.0"
edition = "2021"
publish = false

[dependencies]
sha1 = "*"
nvim-rs = { version = "*", features = ["use_tokio"] }
tokio = { version = "*", features = ["full"] }
