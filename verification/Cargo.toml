[package]
name = "ls"
version = "0.1.0"
edition = "2021"
publish = false

[dependencies]
chrono = "0.4"
umask = "2"
users = "0.11"
structopt = "0.3"
