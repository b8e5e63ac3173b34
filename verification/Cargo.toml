[package]
name = "luna"
version = "0.1.0"
edition = "2021"
publish = false

[dependencies]
unicode-ident = "*"
clap = { version = "*", features = ["derive"] }
rustyline = "*"
directories-next = "*"
