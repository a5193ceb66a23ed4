[package]
name = "tocken"
version = "0.1.0"
edition = "2021"
publish = false

[dependencies]
argh = "=0.1.19"
env_logger = "=0.11.11"
log = "=0.4.34"
serde = { version = "=1.0.229", features = ["derive"] }
serde_json = "=1.0.154"
tantivy-stemmers = { version = "=0.4.0", features = ["english_porter", "english_porter_2"] }
unicode-normalization = "=0.1.26"
unicode-segmentation = "=1.13.3"
