[package]
name = "parblock"
version = "0.1.0"
edition = "2021"
publish = false

[dependencies]
libfs = "*"
blocking-threadpool = "*"
crossbeam-channel = "*"
walkdir = "*"
log = "*"
cfg-if = "*"
