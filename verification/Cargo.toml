[package]
name = "prosemd"
version = "0.1.0"
edition = "2021"
publish = false

[dependencies]
async-std = { version = "=1.13.2", features = ["attributes", "unstable"] }
diff = "=0.1.13"
env_logger = "=0.8.4"
flate2 = "=1.1.10"
im = "=15.1.0"
log = "=0.4.34"
lru = "=0.6.6"
lspower = { version = "=1.5.0", default-features = false, features = ["runtime-agnostic"] }
nlprule = "=0.6.4"
serde = { version = "=1.0.229", features = ["derive"] }
serde_json = "=1.0.154"
structopt = "=0.3.26"
tree-sitter = "=0.19.5"
tree-sitter-markdown = "=0.7.1"
url = "=2.5.8"
xi-rope = "=0.3.0"
