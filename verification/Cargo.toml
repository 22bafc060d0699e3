[package]
name = "docext"
version = "0.1.0"
edition = "2021"
publish = false

[dependencies]
base64 = "0.22"
proc-macro2 = "1"
pulldown-cmark = { version = "*", default-features = false }
quote = "1"
syn = { version = "2", features = ["full"] }
url = "2"

[dev-dependencies]
regex = "1"
