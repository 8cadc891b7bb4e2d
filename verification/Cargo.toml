[package]
name = "gannai"
version = "0.1.0"
edition = "2021"
publish = false

[dependencies]
rand = "*"
bobyqa = "*"
argparse = "*"
dot = "*"
itertools = "*"
rayon = "*"
rustc-serialize = "*"
