[package]
name = "star_citizen_playtime"
version = "0.1.0"
edition = "2021"
publish = false

[dependencies]
anyhow = "*"
chrono = "*"
clap = { version = "*", features = ["derive"] }
directories = "*"
reqwest = { version = "*", default-features = false, features = ["blocking"] }
sysinfo = "*"
uuid = { version = "*", features = ["v4"] }
