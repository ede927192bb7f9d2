[package]
name = "graviz"
version = "0.1.0"
edition = "2021"
publish = false

[dependencies]
async-graphql-parser = "7"
async-graphql-value = "7"
anyhow = "1"
serde = { version = "1", features = ["derive"] }
serde_json = "1"
ureq = { version = "3", features = ["json"] }
