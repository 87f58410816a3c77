[package]
name = "cache_proj"
version = "0.1.0"
edition = "2021"
publish = false

[dependencies]
roaring = "=0.10.12"
murmur3 = "=0.5.2"
rand = "=0.8.8"
chrono = "=0.4.45"
byte-slice-cast = "1"
