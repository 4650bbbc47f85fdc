[package]
name = "emmuoviti_app"
version = "0.1.0"
edition = "2021"
publish = false

[dependencies]
reqwest = { version = "*", default-features = false }
leptos = { version = "*", features = ["csr"] }
leptos_meta = "*"
leptos_router = "*"
