[package]
name = "bcl"
version = "0.1.0"
edition = "2021"
publish = false

[dependencies]
libc = "0.2"
rand = "0.5"
time = "0.1"
num = "0.2"
statistical = "1"
is_sorted = "0.1"
