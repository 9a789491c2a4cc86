[package]
name = "raytracer"
version = "0.1.0"
edition = "2021"
publish = false

[dependencies]
bitvec = "1"
bmp = "0.5"
image = { version = "0.24", default-features = false, features = ["png", "jpeg"] }
minifb = "*"
num-integer = "0.1"
num-traits = "0.2"
pad = "0.1"
serde = { version = "1", features = ["derive"] }
serde_arrays = "*"
serde_cbor = "0.11"
size = "*"
strum = "*"
strum_macros = "*"
tobj = "*"
