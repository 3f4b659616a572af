[package]
name = "mailcheck"
version = "0.1.0"
edition = "2021"
publish = false

[dependencies]
openssl = "=0.10.81"
rustc-serialize = "=0.3.25"
encoding = "=0.2.33"
