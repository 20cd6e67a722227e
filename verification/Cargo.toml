[package]
name = "crust"
version = "0.1.0"
edition = "2021"
publish = false

[dependencies]
uuid = { version = "1", features = ["v4"] }
diesel = { version = "2", features = ["sqlite"] }
dotenv = "0.15"
indoc = "2"
rustyline = { version = "12", features = ["derive", "with-sqlite-history"] }
serde = { version = "1", features = ["derive"] }
