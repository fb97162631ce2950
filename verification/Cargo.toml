[package]
name = "pandoraslogs"
version = "0.1.0"
edition = "2021"
publish = false

[dependencies]
memchr = "2"
libc = "0.2"
memmap2 = "0.9"
core_affinity = "0.8"
