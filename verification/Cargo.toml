[package]
name = "coverageinfo_iface"
version = "0.1.0"
edition = "2021"
publish = false

[dependencies]
abi_stable = "*"
