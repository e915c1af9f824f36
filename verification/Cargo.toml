[package]
name = "parcrypt"
version = "0.1.0"
edition = "2021"
publish = false

[dependencies]
bytemuck = "1"
clap = { version = "4", features = ["derive"] }
dialoguer = "0.11"
spinners = "4"
