[package]
name = "crdts"
version = "0.1.0"
edition = "2021"
publish = false

[dependencies]
num = "*"
num-bigint = "*"
num-rational = "*"
bincode = "1"
serde = "*"
serde_derive = "*"
