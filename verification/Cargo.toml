[package]
name = "rust_os"
version = "0.1.0"
edition = "2021"
publish = false

[dependencies]
crossbeam-queue = "=0.3.14"
pc-keyboard = "=0.5.1"
spin = "=0.12.3"
x86_64 = "=0.15.5"
