[package]
name = "habit_tracker"
version = "0.1.0"
edition = "2021"
publish = false

[dependencies]
chrono = "0.4"
cliclack = "*"
dirs = "*"
google-sheets4 = "5"
rand = "0.8"
serde = { version = "1", features = ["derive"] }
serde_json = "1"
time = "0.3"
tokio = { version = "1", features = ["macros", "rt-multi-thread", "fs"] }
toml = "*"
unicode-width = "*"
yup-oauth2 = "8"
