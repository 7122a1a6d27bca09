[package]
name = "mole"
version = "0.1.0"
edition = "2021"
publish = false

[dependencies]
arboard = { version = "3", default-features = false }
cairo-rs = "0.20"
clap = { version = "4", features = ["derive"] }
env_logger = "0.11"
log = "0.4"
notify = "6"
serde = { version = "1", features = ["derive"] }
thiserror = "1"
toml = "0.8"
x11rb = { version = "0.13", features = ["damage", "randr", "xtest"] }
zbus = "4"
zvariant = "4"
