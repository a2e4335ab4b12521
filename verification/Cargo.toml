[package]
name = "sais_rs"
version = "0.0.1"
edition = "2021"
publish = false

[dependencies]
rayon = "1.10"
thiserror = "2"
libsais-sys = "0.2.0"
