[package]
name = "transform"
version = "0.1.0"
edition = "2021"
publish = false

[dependencies]
chrono = "=0.4.45"
rrule = "=0.14.0"
clap = { version = "=4.6.7", features = ["derive"] }
moka = { version = "=0.12.16", features = ["future"] }
reqwest = { version = "=0.13.5", default-features = false }
serde = { version = "=1.0.229", features = ["derive"] }
serde_derive = "=1.0.229"
tokio = { version = "=1.53.2", features = ["macros", "rt-multi-thread"] }
warp = { version = "=0.4.3", default-features = false, features = ["server"] }
