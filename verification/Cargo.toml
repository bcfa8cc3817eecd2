[package]
name = "wordlist"
version = "0.1.0"
edition = "2021"
publish = false

[dependencies]
clap = "4"
rand = "0.8"
unicode-segmentation = "1"
