[package]
name = "campus_query"
version = "0.1.0"
edition = "2021"
publish = false

[dependencies]
anyhow = "1"
axum = "*"
ordered-float = { version = "*", features = ["serde"] }
prompted = "*"
scraper = "*"
serde = { version = "1", features = ["derive"] }
serde_json = "1"
tokio = { version = "1", features = ["full"] }
tower-http = { version = "*", features = ["cors"] }
zip = { version = "*", default-features = false, features = ["deflate"] }
