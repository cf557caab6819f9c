[package]
name = "array2b"
version = "0.1.0"
edition = "2021"
publish = false

[dependencies]
csc411_image = "=0.5.2"
clap = "=3.2.25"
