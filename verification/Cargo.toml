[package]
name = "offences"
version = "0.1.0"
edition = "2021"
publish = false

[dependencies]
parity-scale-codec = "*"
sp-runtime = "*"
sp-staking = "*"
sp-std = "*"
frame-support = "*"
frame-system = "*"
sp-genesis-builder = "*"
serde_json = "*"
