[package]
name = "iced_texture_cache"
version = "0.1.0"
edition = "2021"
publish = false

[dependencies]
iced_core = "=0.14.0"
iced_graphics = "=0.14.0"
iced_renderer = { version = "=0.14.0", default-features = false, features = ["wgpu", "tiny-skia"] }
iced_wgpu = "=0.14.0"
iced_tiny_skia = "=0.14.1"
iced_widget = "=0.14.2"
tiny-skia = "=0.11.4"
bytemuck = { version = "=1.25.2", features = ["derive"] }
log = "=0.4.35"
