[package]
name = "amazon_cloudfront_client_routing_lib"
version = "1.0.0"
edition = "2021"
publish = false

[dependencies]
twox-hash = { version = "1.6.3", default-features = false }
