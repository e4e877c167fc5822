[package]
name = "sdr_core"
version = "0.1.0"
edition = "2021"
publish = false

[dependencies]
axum = { version = "=0.8.9", features = ["ws"] }
config = { version = "=0.15.27", default-features = false, features = ["toml"] }
futuredsp = "=0.9.0"
libusb1-sys = "=0.7.0"
log = "=0.4.35"
num-complex = "=0.4.6"
parking_lot = "=0.12.5"
rtl-sdr-rs = "=0.4.3"
rustfft = "=6.4.1"
serde = { version = "=1.0.229", features = ["derive"] }
serde_json = "=1.0.154"
thiserror = "=2.0.21"
tokio = { version = "=1.54.1", features = ["macros", "rt-multi-thread", "net", "sync", "time"] }
tower-http = { version = "=0.7.1", features = ["cors", "trace"] }
tracing = "=0.1.44"
tracing-subscriber = { version = "=0.3.23", features = ["env-filter", "json", "fmt"] }
utoipa = "=6.0.0"
utoipa-swagger-ui = { version = "=10.0.2", features = ["axum", "vendored"] }
