[package]
name = "dice_expr"
version = "0.1.0"
edition = "2021"
publish = false

[dependencies]
rand = "0.7"
cursive = { version = "0.15", default-features = false, features = ["crossterm-backend", "toml"] }
enumset = "1"
