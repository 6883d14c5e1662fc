[package]
name = "top_dag"
version = "0.1.0"
edition = "2021"
publish = false

[dependencies]
quick-xml = { version = "0.22", default-features = false }
libc = "0.2"
