[package]
name = "elfdeps"
version = "0.1.0"
edition = "2021"
publish = false

[dependencies]
goblin = "*"
cpp_demangle = "*"
glob = "*"
term = "*"
structopt = "*"
itertools = "*"
groupable = "*"
