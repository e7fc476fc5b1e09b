[package]
name = "quizcrawler"
version = "0.1.0"
edition = "2021"
publish = false

[dependencies]
rand = "=0.7.3"
uuid = { version = "=0.8.2", features = ["v4", "serde"] }
onig = { version = "=6.5.3", default-features = false }
unicode-segmentation = "=1.13.3"
serde = { version = "=1.0.229", features = ["derive"] }
toml = "=0.5.11"
ron = "=0.6.6"
directories = "=3.0.2"
structopt = "=0.3.26"
crossterm = "=0.17.7"
tui = { version = "=0.10.0", default-features = false, features = ["crossterm"] }
