[package]
name = "typoglycemia"
version = "0.1.0"
edition = "2021"
publish = false

[dependencies]
atoi = "2"
rand = "0.9"
unicode-segmentation = "1"
