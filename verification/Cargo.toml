[package]
name = "docs_scraper"
version = "0.1.0"
edition = "2021"
publish = false

[dependencies]
scraper = "*"
sha2 = "0.10"
url = "2"
serde = { version = "1", features = ["derive"] }
quick-xml = { version = "*", features = ["serialize"] }
reqwest = { version = "*", default-features = false, features = ["rustls-tls"] }
tokio = { version = "1", features = ["macros", "rt-multi-thread"] }
meilisearch-sdk = "*"
config = { version = "*", default-features = false, features = ["json"] }
