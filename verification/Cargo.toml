[package]
name = "rumpsteak"
version = "0.1.0"
edition = "2021"
publish = false

[dependencies]
memchr = "=2.8.3"
bitvec = "=1.1.1"
futures = "=0.3.34"
petgraph = "=0.6.5"
argh = "=0.1.19"
termcolor = "=1.4.1"
atty = "=0.2.14"
heck = "=0.3.3"
indexmap = "=2.14.2"
thiserror = "=1.0.69"
askama = "*"
