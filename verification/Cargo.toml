[package]
name = "sv_analysis"
version = "0.1.0"
edition = "2021"
publish = false

[dependencies]
serde = { version = "=1.0.229", features = ["derive"] }
serde_json = "=1.0.154"
regex = "=1.13.1"
tabled = "=0.22.0"
sv-parser = "=0.13.5"
wellen = "=0.25.7"
anyhow = "=1.0.104"
thiserror = "=2.0.21"
clap = { version = "=4.6.7", features = ["derive"] }
tokio = { version = "=1.54.1", features = ["macros", "rt-multi-thread", "sync"] }
rig-core = "=0.33.0"
async-trait = "=0.1.92"
futures = "=0.3.34"
rand = "=0.9.5"
