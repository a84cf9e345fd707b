[package]
name = "qtv_stark"
version = "0.1.0"
edition = "2021"
publish = false

[dependencies]
keccak-asm = "=0.1.9"
sha3 = "=0.10.9"
