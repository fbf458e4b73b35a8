[package]
name = "quant_research_framework_rs"
version = "0.2.0"
edition = "2021"
publish = false

[dependencies]
rand = "0.9"
csv = "1"
statrs = "0.18"
