[package]
name = "aether_monitor"
version = "0.1.0"
edition = "2021"
publish = false

[dependencies]
egui = "=0.27.2"
egui-wgpu = "=0.27.2"
objc2 = "=0.5.2"
objc2-app-kit = { version = "=0.2.2", features = ["all"] }
objc2-foundation = { version = "=0.2.2", features = ["all"] }
objc2-quartz-core = { version = "=0.2.2", features = ["all"] }
parking_lot = "=0.12.5"
pollster = "=0.3.0"
sysinfo = "=0.30.13"
triple_buffer = "=5.0.6"
