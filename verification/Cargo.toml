[package]
name = "nakamoto"
version = "0.1.0"
edition = "2021"
publish = false

[dependencies]
bitcoin = "=0.26.2"
fastrand = "=1.9.0"
log = "=0.4.35"
