[package]
name = "compile_sysy"
version = "0.1.0"
edition = "2021"
publish = false

[dependencies]
clap = { version = "=4.6.7", features = ["derive"] }
lalrpop-util = "=0.23.2"
