[package]
name = "gba_agb_font"
version = "0.1.0"
edition = "2021"
publish = false

[dependencies]
image = { version = "*", default-features = false, features = ["png"] }
asefile = "*"
clap = { version = "4", features = ["cargo"] }
agb = { version = "*", default-features = false }
