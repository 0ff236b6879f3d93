[package]
name = "hdrsample"
version = "0.1.0"
edition = "2021"
publish = false

[dependencies]
byteorder = "=1.5.0"
flate2 = "=1.1.10"
base64 = "=0.22.1"
