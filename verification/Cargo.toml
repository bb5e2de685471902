[package]
name = "ouro"
version = "0.1.0"
edition = "2021"
publish = false

[dependencies]
arrayvec = "*"
zed-sum-tree = "*"
logos = "*"
index_vec = "*"
regex-syntax = "*"
async-lsp = { version = "0.2", features = ["tokio"] }
lsp-types = "0.95"
tokio = { version = "1", features = ["macros", "rt", "io-std"] }
tokio-util = { version = "0.7", features = ["compat"] }
tower = "0.4"
tracing = "0.1"
tracing-subscriber = "0.3"
