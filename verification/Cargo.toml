[package]
name = "explode"
version = "0.1.0"
edition = "2021"

[dependencies]
arraydeque = "0.4"
