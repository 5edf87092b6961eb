[package]
name = "phosphor_ui"
version = "0.1.0"
edition = "2021"
publish = false

[dependencies]
slotmap = "=1.1.1"
taffy = "=0.9.2"
winit = "=0.30.13"
softbuffer = "=0.4.8"
raw-window-handle = "=0.6.2"
tiny-skia = "=0.11.4"
skia-safe = "=0.156.0"
downcast-rs = "=2.0.2"
futures-core = "=0.3.34"
parking_lot = "=0.12.5"
tokio = { version = "=1.54.1", features = ["rt"] }
