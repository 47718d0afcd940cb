[package]
name = "infojenn"
version = "0.1.0"
edition = "2021"
publish = false

[dependencies]
ontolius = "*"
anyhow = "*"
thiserror = "*"
