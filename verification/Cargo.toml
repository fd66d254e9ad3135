[package]
name = "disassembly"
version = "0.1.0"
edition = "2021"
publish = false

[dependencies]
iced-x86 = "1"
