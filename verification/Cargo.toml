[package]
name = "scoot"
version = "0.1.0"
edition = "2021"
publish = false

[dependencies]
smithay = { version = "0.7", default-features = false, features = ["wayland_frontend", "desktop", "backend_drm", "renderer_gl"] }
rustix = { version = "1", features = ["fs", "mm", "event"] }
libc = "0.2"
tracing = "0.1"
