[package]
name = "bonsai_db"
version = "0.1.0"
edition = "2021"

[dependencies]
anyhow = "1"
crc32fast = "1"
