[package]
name = "fri_pcs"
version = "0.1.0"
edition = "2021"
publish = false

[dependencies]
p3-field = "*"
p3-baby-bear = "*"
p3-mersenne-31 = "*"
p3-matrix = "*"
p3-interpolation = "*"
p3-commit = "*"
p3-merkle-tree = "*"
p3-symmetric = "*"
p3-keccak = "*"
p3-challenger = "*"
serde = "*"

[dev-dependencies]
rand = "*"
