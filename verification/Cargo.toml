[package]
name = "pi_sync"
version = "0.1.0"
edition = "2021"
publish = false

[dependencies]
base64 = "=0.13.1"
regex = "=1.13.1"
ttl_cache = "=0.5.1"
clap = "=2.34.0"
notify = "=4.0.18"
slog = "=2.8.2"
slog-async = "=2.8.0"
slog-term = "=2.9.2"
lazy_static = "=1.5.1"
tempfile = "=3.27.0"
google-drive3 = "=1.0.14"
hyper = "=0.10.16"
hyper-native-tls = "=0.3.0"
yup-oauth2 = "=1.0.12"
