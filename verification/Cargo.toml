[package]
name = "grover"
version = "0.1.0"
edition = "2021"
publish = false

[dependencies]
ark-bn254 = "0.5"
ark-ec = "0.5"
ark-ff = "0.5"
ark-serialize = "0.5"
ark-std = "0.5"
sha2 = "0.10"

[dev-dependencies]
ark-groth16 = "0.5"
ark-relations = "0.5"
ark-snark = "0.5"
