[package]
name = "dedup"
version = "0.1.0"
edition = "2021"
publish = false

[dependencies]
clap = "2"
crypto-hash = "0.3"
threadpool = "1"
walkdir = "2"
