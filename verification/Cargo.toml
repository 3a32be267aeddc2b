[package]
name = "symbolic_expr"
version = "0.1.0"
edition = "2021"
publish = false

[dependencies]
num-rational = { version = "0.4", default-features = false, features = ["std"] }
num-traits = { version = "0.2", default-features = false, features = ["std"] }
