[package]
name = "borrow_advisor"
version = "0.1.0"
edition = "2021"
publish = false

[dependencies]
syntex_syntax = "=0.59.1"
