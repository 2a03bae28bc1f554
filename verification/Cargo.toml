[package]
name = "infix_eval"
version = "0.1.0"
edition = "2021"

[dependencies]
regex = "=1.13.1"
rustc_apfloat = "*"
