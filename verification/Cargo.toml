[package]
name = "ethsync"
version = "0.1.0"
edition = "2021"
publish = false

[dependencies]
ethcore = "*"
ethcore-util = "*"
