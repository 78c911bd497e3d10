[package]
name = "mandelbrot_dist"
version = "0.1.0"
edition = "2021"
publish = false

[dependencies]
uuid = { version = "1", features = ["v4"] }
serde = { version = "1", features = ["derive"] }
serde_json = "1"
tokio = { version = "1", features = ["rt-multi-thread", "macros", "net", "io-util", "time", "sync"] }
axum = "0.7"
tower-http = { version = "0.5", features = ["fs"] }
image = { version = "0.25", default-features = false, features = ["png"] }
