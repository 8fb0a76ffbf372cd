[package]
name = "fips203"
version = "0.1.0"
edition = "2021"
publish = false

[dependencies]
sha3 = { version = "0.10.2", default-features = false }
subtle = { version = "2.5.0", default-features = false, features = ["const-generics"] }
zeroize = { version = "1.6.0", default-features = false }
rand_core = { version = "0.6.4", features = ["getrandom"] }
rand_chacha = { version = "0.3.1" }
hex = { version = "0.4.3" }

[dev-dependencies]
rand = { version = "0.8.5" }
