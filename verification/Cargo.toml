[package]
name = "region_render"
version = "0.1.0"
edition = "2021"
publish = false

[dependencies]
image = { version = "=0.23.14", default-features = false, features = ["png"] }
log = "=0.4.34"
simple_logger = "=1.16.0"
lambda_runtime = "=0.3.0"
aws_lambda_events = "=0.4.0"
rusoto_core = { version = "=0.46.0", default-features = false, features = ["rustls"] }
rusoto_s3 = { version = "=0.46.0", default-features = false, features = ["rustls"] }
serde_json = "1"
tokio = { version = "=1.54.1", features = ["macros", "io-util", "rt-multi-thread"] }

[dev-dependencies]
regex = "1"
