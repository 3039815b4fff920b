[package]
name = "dangerous_deliveries"
version = "0.1.0"
edition = "2021"
publish = false

[dependencies]
rand = "0.8"
petgraph = "0.6"
rltk = "0.8"
console_engine = "2"
project-root = "0.2"
