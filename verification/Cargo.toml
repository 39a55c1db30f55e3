[package]
name = "pagerank"
version = "0.1.0"
edition = "2021"
publish = false

[dependencies]
getopts = "*"
memmap = "*"
time = "*"
timely = "*"
timely_communication = "*"
