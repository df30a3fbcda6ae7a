[package]
name = "browsy"
version = "0.1.0"
edition = "2021"
publish = false

[dependencies]
html5ever = "0.27"
markup5ever_rcdom = "0.3"
url = "2"
taffy = "0.5"
serde = { version = "1", features = ["derive"] }
serde_json = "1"
reqwest = { version = "0.12", default-features = false, features = ["blocking", "cookies"] }
