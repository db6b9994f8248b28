[package]
name = "dao_projects"
version = "0.1.0"
edition = "2021"
publish = false

[dependencies]
ink = "4"
parity-scale-codec = { version = "3", default-features = false, features = ["derive"] }
scale-info = { version = "2", default-features = false, features = ["derive"] }
