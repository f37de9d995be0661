[package]
name = "but_hunk_assignment"
version = "0.1.0"
edition = "2021"
publish = false

[dependencies]
bstr = "1"
itertools = "*"
uuid = { version = "1", features = ["v4"] }
