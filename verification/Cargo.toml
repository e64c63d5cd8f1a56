[package]
name = "corn"
version = "0.1.0"
edition = "2021"
publish = false

[dependencies]
itoa = "1"
indexmap = "2"
lalrpop-util = "*"
logos = "*"
serde = { version = "1", features = ["derive"] }
serde_core = "*"
thiserror = "*"
