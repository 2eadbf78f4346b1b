[package]
name = "strpatch"
version = "0.1.0"
edition = "2021"
publish = false

[dependencies]
bytebuffer = "*"
encoding_rs = "*"
iced-x86 = { version = "*", default-features = false, features = ["decoder", "std"] }
