[package]
name = "recipe_search"
version = "0.1.0"
edition = "2021"
publish = false

[dependencies]
fuzzy-matcher = "=0.3.7"
serde = { version = "=1.0.229", features = ["derive"] }
serde-xml-rs = "=0.8.2"
serde-wasm-bindgen = "=0.6.5"
wasm-bindgen = "=0.2.130"
wasm-bindgen-futures = "=0.4.80"
js-sys = "=0.3.107"
web-sys = { version = "=0.3.107", features = ["Window", "Document", "Element", "Node", "NodeList", "Response", "Text", "console", "Location", "UrlSearchParams", "History"] }
thiserror = "=2.0.21"
console_error_panic_hook = "=0.1.7"
