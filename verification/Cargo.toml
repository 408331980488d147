[package]
name = "euler"
version = "0.1.0"
edition = "2021"

[dependencies]
num-integer = "0.1"
primal = "0.3"
