[package]
name = "typeset_parsing"
version = "0.1.0"
edition = "2021"
publish = false

[dependencies]
smallvec = "*"
unicode-xid = "*"
