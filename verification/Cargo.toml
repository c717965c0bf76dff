[package]
name = "datetime"
version = "0.1.0"
edition = "2021"
publish = false

[dependencies]
serde = "=1.0.229"
sqlx = { version = "=0.8.6", default-features = false, features = ["postgres"] }

[dev-dependencies]
regex = "=1.13.1"
