[package]
name = "html2csv"
version = "0.1.0"
edition = "2021"
publish = false

[dependencies]
scraper = "*"
ego-tree = "*"
anyhow = "*"
clap = { version = "*", features = ["derive"] }
colored = "*"
csv = "*"
reqwest = { version = "*", default-features = false }
tokio = { version = "*", features = ["macros", "rt-multi-thread"] }
