[package]
name = "active-storage"
version = "0.1.0"
edition = "2021"
publish = false

[dependencies]
aws-sdk-s3 = { version = "1", default-features = false }
aws-smithy-runtime-api = "1"
aws-smithy-types = "1"
aws-types = "1"
azure_core = { version = "0.21", default-features = false }
azure_storage = { version = "0.21", default-features = false }
azure_storage_blobs = { version = "0.21", default-features = false }
futures = "0.3"
google-cloud-storage = { version = "0.16", default-features = false, features = ["auth", "rustls-tls"] }
thiserror = "1"
tokio = { version = "1", features = ["rt", "fs"] }
