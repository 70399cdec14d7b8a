[package]
name = "tfenv_rs"
version = "0.1.0"
edition = "2021"
publish = false

[dependencies]
regex = "*"
scraper = "*"
sha2 = "*"
hex = "*"
zip = { version = "*", default-features = false, features = ["deflate"] }
reqwest = { version = "*", default-features = false, features = ["blocking"] }
clap = { version = "*", features = ["derive"] }
dirs = "*"
anyhow = "*"
tempfile = "*"
which = "*"
