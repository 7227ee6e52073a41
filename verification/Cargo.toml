[package]
name = "ftl"
version = "0.1.0"
edition = "2021"
publish = false

[dependencies]
critical-section = { version = "1.2.0", features = ["std"] }
embedded-alloc = "0.7.0"
riscv = "0.16.1"
riscv-rt = "0.18.0"
