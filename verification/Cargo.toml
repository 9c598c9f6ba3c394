[package]
name = "this_week_in_open_source"
version = "0.1.0"
edition = "2021"
publish = false

[dependencies]
octocrab = "0.17"
tokio = { version = "1", features = ["macros", "rt-multi-thread"] }
url = "2"
