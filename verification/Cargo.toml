[package]
name = "noir_halo2_backend_pse"
version = "0.1.0"
edition = "2021"
publish = false

[dependencies]
acvm = "0.12"
ark-bn254 = "0.4"
ark-ec = "0.4"
ark-ff = "0.4"
byteorder = "1"
circ = "*"
rug = { version = "1", default-features = false, features = ["integer"] }
