[package]
name = "blazingly-wire"
version = "0.1.0"
edition = "2021"
publish = false

[dependencies]
httparse = "1"
httpdate = "1"
