[package]
name = "noctalia-global-menu-bridge"
version = "0.1.0"
edition = "2021"
publish = false

[dependencies]
anyhow = "1"
enumflags2 = "0.7"
serde = { version = "1", features = ["derive"] }
serde_json = "1"
tiny_http = "0.12"
zbus = "4"
zvariant = "4"
