[package]
name = "dapp-lib"
version = "0.1.0"
edition = "2021"
publish = false

[dependencies]
async-std = "1.13"
smol = "2.0"
