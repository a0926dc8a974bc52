[package]
name = "encenv"
version = "0.1.0"
edition = "2021"
publish = false

[dependencies]
aes-soft = "=0.6.4"
block-modes = "0.7"
argparse = "0.2"
