[package]
name = "ckbtc_minter"
version = "0.1.0"
edition = "2021"
publish = false

[dependencies]
bech32 = "0.9"
candid = "=0.8.4"
convert_case = "=0.6.0"
hex = "=0.4.3"
hmac = "0.12"
ic-canister-log = "=0.2.0"
ic-cdk = "=0.6.10"
k256 = { version = "0.13", default-features = false, features = ["arithmetic", "std"] }
prometheus = { version = "=0.13.4", default-features = false }
ripemd = "=0.1.3"
serde = { version = "=1.0.229", features = ["derive"] }
serde_bytes = "=0.11.19"
sha2 = "=0.10.9"
strum = "=0.24.1"
strum_macros = "=0.24.3"
