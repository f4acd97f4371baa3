[package]
name = "pencil"
version = "1.1.0"
edition = "2021"
publish = false

[dependencies]
thiserror = "*"
tokio = { version = "*", features = ["fs", "rt", "macros"] }
flate2 = "*"
pdf-writer = "*"
swash = "*"
ashpd = "*"
open = "*"
