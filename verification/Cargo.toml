[package]
name = "nxtpdf"
version = "0.1.0"
edition = "2021"
publish = false

[dependencies]
lopdf = { version = "=0.46.0", default-features = false, features = ["chrono-clock"] }
serde = { version = "=1.0.229", features = ["derive"] }
thiserror = "=2.0.21"
log = "=0.4.35"
parking_lot = "=0.12.5"
image = { version = "=0.25.10", default-features = false, features = ["png"] }
pdfium-render = { version = "=0.8.37", features = ["sync"] }
