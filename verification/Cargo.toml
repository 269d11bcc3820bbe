[package]
name = "netscape_cookie"
version = "0.1.0"
edition = "2021"
publish = false

[dependencies]
cookie = "0.15"
time = "0.2"
