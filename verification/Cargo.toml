[package]
name = "wrath"
version = "0.1.0"
edition = "2021"
publish = false

[dependencies]
anstream = "*"
anstyle = "*"
clap = { version = "*", features = ["derive"] }
serde = { version = "*", features = ["derive"] }
sysinfo = "*"
ureq = { version = "*", features = ["json"] }
