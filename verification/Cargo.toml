[package]
name = "salesforce"
version = "0.1.0"
edition = "2021"
publish = false

[dependencies]
quick-xml = "*"
structopt = "*"
strum = "*"
strum_macros = "*"
