[package]
name = "bf_jit"
version = "0.1.0"
edition = "2021"
publish = false

[dependencies]
memmap = "=0.7.0"
iced-x86 = { version = "=1.21.0", default-features = false, features = ["std", "code_asm"] }
