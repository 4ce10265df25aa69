[package]
name = "sdf_tiles"
version = "0.1.0"
edition = "2021"
publish = false

[dependencies]
rstar = "=0.8.4"
bevy = { version = "=0.5.0", default-features = false, features = ["render", "bevy_wgpu", "bevy_winit", "x11"] }
# bevy's derive crates use items of syn that only its "full" feature holds, and
# do not ask for it; darling's derive crate does, which turns it on for them.
darling = "=0.10.2"
