[package]
name = "bevy_netahoy"
version = "0.1.0"
edition = "2021"
publish = false

[dependencies]
aeronet = { version = "0.21", default-features = false }
avian3d = { version = "=0.7.0", default-features = false, features = ["3d", "f32", "parry-f32"] }
bevy = { version = "=0.19.1", default-features = false }
bevy_ahoy = { version = "=0.2.0", default-features = false }
bevy_replicon = { version = "0.44", default-features = false }
bitflags = { version = "=2.13.2", features = ["serde"] }
serde = { version = "=1.0.229", features = ["derive"] }
