[package]
name = "sre_engine"
version = "0.1.0"
edition = "2021"
publish = false

[dependencies]
bitflags = "2"
num_enum = "0.7"
