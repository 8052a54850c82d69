[package]
name = "simple_simple_sync"
version = "0.1.0"
edition = "2021"
publish = false

[dependencies]
uuid = { version = "*", features = ["v4"] }
hostname = "*"
directories = "*"
pnet = "*"
structopt = "*"
