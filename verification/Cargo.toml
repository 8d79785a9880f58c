[package]
name = "ebc_2024"
version = "0.1.0"
edition = "2021"
publish = false
