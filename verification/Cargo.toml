[package]
name = "limit_order_book"
version = "0.1.0"
edition = "2021"
publish = false

[dependencies]
tokio = { version = "*", features = ["net", "rt", "macros", "rt-multi-thread"] }
