[package]
name = "cefact_units"
version = "0.1.0"
edition = "2021"
publish = false

[dependencies]
heck = "0.5"
unicode-normalization = "0.1"
calamine = "*"
proc-macro2 = "1"
quote = "1"
syn = { version = "2", features = ["full"] }
serde = { version = "1", features = ["derive"] }
