[package]
name = "dom_select"
version = "0.1.0"
edition = "2021"
publish = false

[dev-dependencies]
select = "0.6"
