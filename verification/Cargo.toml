[package]
name = "banner_bundle"
version = "0.1.0"
edition = "2021"
publish = false

[dependencies]
zip = { version = "*", default-features = false, features = ["deflate"] }
pathdiff = "*"
mime_guess = "*"
js-sys = "*"
web-sys = { version = "*", features = ["Blob", "BlobPropertyBag", "Url"] }
wasm-bindgen = "*"
console_error_panic_hook = "*"
