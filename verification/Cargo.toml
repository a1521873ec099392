[package]
name = "rlx-eda"
version = "0.1.0"
edition = "2021"
publish = false

[dependencies]
klayout-core = "*"
klayout-io = "*"
klayout-pdk = "*"
klayout-route = "*"
rlx-ir = "*"
rlx-opt = "*"
rlx-runtime = "*"
sha2 = "0.10"
toml = "0.8"
smallvec = "1"
serde = { version = "1", features = ["derive"] }
serde_json = "1"
serde_yaml = "0.9"
thiserror = "1"
image = { version = "0.24", default-features = false, features = ["png"] }
plotters = { version = "0.3", default-features = false, features = ["bitmap_backend", "bitmap_encoder", "line_series"] }
printpdf = "0.7"
