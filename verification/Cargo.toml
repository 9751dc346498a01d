[package]
name = "xbrl_facts"
version = "0.1.0"
edition = "2021"
publish = false

[dependencies]
quick-xml = "0.37"
rust_decimal = { version = "1", features = ["serde"] }
sha2 = "0.10"
hex = "0.4"
ed25519-dalek = { version = "2", features = ["rand_core"] }
rand_core = { version = "0.6", features = ["getrandom"] }
serde = { version = "1", features = ["derive"] }
serde_json = { version = "1", features = ["preserve_order"] }
clap = { version = "4", features = ["derive"] }
thiserror = "2"
