[package]
name = "bruhos"
version = "0.1.0"
edition = "2021"
publish = false

[dependencies]
spin = "=0.12.3"
stivale = "=0.1.0"
