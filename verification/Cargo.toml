[package]
name = "garage_core"
version = "0.1.0"
edition = "2021"
publish = false

[dependencies]
gethostname = "*"
hex = "*"
hmac = "*"
rmp-serde = "*"
serde = { version = "*", features = ["derive"] }
sha2 = "*"
sodiumoxide = "*"
structopt = "*"
toml = "*"
