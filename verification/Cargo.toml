[package]
name = "cship"
version = "0.1.0"
edition = "2021"
publish = false

[dependencies]
nu-ansi-term = "0.50"
unicode-width = "0.2"
procfs = { version = "0.17", default-features = false }
ctty = "*"
libc = "0.2"
terminal_size = "0.4"
libproc = "*"
tracing = "0.1"
