[package]
name = "ewm_cortex"
version = "0.2.0"
edition = "2021"
publish = false

[dependencies]
fastmurmur3 = "=0.2.0"
sha1 = "=0.10.6"
roaring = "=0.10.12"
