[package]
name = "flo_ui"
version = "0.1.0"
edition = "2021"
publish = false

[dependencies]
uuid = { version = "=1.29.0", features = ["v4", "serde"] }
flo_scene = "=0.2.0"
flo_curves = "=0.8.1"
flo_binding = "=3.0.0"
flo_draw = "=0.3.1"
flo_canvas = "=0.3.1"
flo_canvas_events = "=0.3.1"
futures = "=0.3.34"
serde = { version = "=1.0.229", features = ["derive"] }
