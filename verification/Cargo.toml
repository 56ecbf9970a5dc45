[package]
name = "minilang"
version = "0.1.0"
edition = "2021"
publish = false

[dependencies]
ariadne = "*"
chrono = "*"
log = "*"
once_cell = "*"
simplelog = "*"
tokio = { version = "*", features = ["macros", "rt-multi-thread", "io-std", "io-util"] }
tower-lsp = "*"
