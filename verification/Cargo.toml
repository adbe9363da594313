[package]
name = "dumpbin"
version = "0.1.0"
edition = "2021"
publish = false

[dependencies]
forensic-rs = "*"
frnsc-liveregistry-rs = "*"
