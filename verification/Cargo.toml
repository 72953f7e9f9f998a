[package]
name = "capture_the_ip"
version = "0.1.0"
edition = "2021"
publish = false

[dependencies]
time = { version = "=0.3.55", features = ["serde", "serde-well-known", "formatting", "parsing"] }
itertools = "=0.12.1"
url = "=2.5.8"
urlencoding = "=2.1.3"
indexmap = "=2.14.2"
axum = { version = "=0.6.20", features = ["headers", "http2"] }
tokio = { version = "=1.54.1", features = ["full"] }
serde = { version = "=1.0.229", features = ["derive"] }
diesel = { version = "=2.1.6", default-features = false, features = ["postgres_backend", "time"] }
diesel-async = { version = "=0.4.1", features = ["postgres", "deadpool"] }
deadpool = { version = "=0.9.5", features = ["rt_tokio_1"] }
tokio-graceful-shutdown = "=0.12.1"
tower-http = { version = "=0.4.4", features = ["compression-full", "timeout", "trace"] }
tower-default-headers = "=0.1.1"
log = "=0.4.35"
anyhow = "=1.0.104"
futures = "=0.3.34"
parking_lot = "=0.12.5"
forwarded-header-value = "=0.1.1"
tracing-subscriber = { version = "=0.3.23", features = ["env-filter"] }
rustls = "=0.22.4"
rustls-pemfile = "=2.2.0"
tokio-postgres = "=0.7.18"
tokio-postgres-rustls = "=0.11.1"
webpki-roots = "=0.26.11"
nix = { version = "=0.27.1", features = ["user"] }
privdrop = "=0.5.7"
fakedata_generator = "=0.8.0"
