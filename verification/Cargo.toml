[package]
name = "caravela"
version = "0.1.0"
edition = "2021"
publish = false

[dependencies]
rand = "0.8"
hashbrown = "*"
triple_accel = "*"
nalgebra = "*"
ndarray = "*"
rblas = "*"
nohash-hasher = "*"
num-traits = "*"

[dev-dependencies]
approx = "*"
