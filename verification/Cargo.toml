[package]
name = "execute"
version = "0.1.0"
edition = "2021"
publish = false

[dependencies]
cranelift = "0.110"
target-lexicon = "0.12"
memmap2 = "0.9"
getopts = "0.2"
