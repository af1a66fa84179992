[package]
name = "engine"
version = "0.1.0"
edition = "2021"
publish = false

[dependencies]
harfrust = "*"
skrifa = "*"
read-fonts = "*"
hypher = "*"
krilla = "*"
png = "*"
zune-jpeg = "*"
zune-core = "*"
tiny-skia = "*"
moxcms = "*"
serde = { version = "1", features = ["derive"] }
serde_json = "1"
wasm-bindgen = "*"
js-sys = "*"
serde-wasm-bindgen = "*"
