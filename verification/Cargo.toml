[package]
name = "rojo_sync"
version = "0.1.0"
edition = "2021"
publish = false

[dependencies]
anyhow = "1"
globset = "0.4"
log = "0.4"
memofs = "*"
profiling = "1"
rbx_dom_weak = "3"
rbx_reflection = "5"
rbx_reflection_database = "1"
serde = { version = "1", features = ["derive"] }
serde_json = "1"
