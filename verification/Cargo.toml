[package]
name = "regurgitate"
version = "0.1.0"
edition = "2021"
publish = false

[dependencies]
blot-lib = { version = "=0.1.2", default-features = false, features = ["sha3"] }
csv = "=1.4.0"
reqwest = { version = "=0.13.5", default-features = false, features = ["blocking", "json"] }
serde = { version = "=1.0.229", features = ["derive"] }
serde_derive = "=1.0.229"
serde_json = "=1.0.154"
toml = "=1.2.1"
