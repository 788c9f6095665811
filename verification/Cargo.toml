[package]
name = "stal"
version = "0.1.0"
edition = "2021"
publish = false

[dependencies]
anyhow = "=1.0.104"
charabia = { version = "=0.10.0", default-features = false, features = ["chinese", "hebrew", "thai", "greek", "khmer", "vietnamese", "swedish-recomposition", "turkish", "german-segmentation", "latin-camelcase", "latin-snakecase"] }
clap = { version = "=4.6.7", features = ["derive"] }
env_logger = "=0.11.11"
fsio = "=0.4.1"
log = "=0.4.34"
normpath = "=1.5.2"
serde = { version = "=1.0.229", features = ["derive"] }
serde_json = "=1.0.151"
text-splitter = "=0.33.0"
thiserror = "=2.0.21"
walkdir = "=2.5.0"
