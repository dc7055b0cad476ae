[package]
name = "wordle_words"
version = "0.1.0"
edition = "2021"
publish = false

[dependencies]
clap = { version = "4", features = ["derive"] }
cursive = { version = "*", default-features = false, features = ["crossterm-backend"] }
