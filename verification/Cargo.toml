[package]
name = "atm"
version = "0.1.0"
edition = "2021"
publish = false

[dependencies]
tar = "=0.4.46"
flate2 = "=1.1.10"
