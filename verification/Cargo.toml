[package]
name = "hermes"
version = "0.1.0"
edition = "2021"
publish = false

[dependencies]
rand = "0.8"
time = "0.3"
getopts = "0.2"
