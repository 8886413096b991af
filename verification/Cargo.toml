[package]
name = "mlustre"
version = "0.1.0"
edition = "2021"
publish = false

[dependencies]
anyhow = "*"
pest = "*"
pest_derive = "*"
structopt = "*"
