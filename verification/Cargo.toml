[package]
name = "crdt_bench"
version = "0.1.0"
edition = "2021"
publish = false

[dependencies]
automerge = "*"
autosurgeon = "*"
cola-crdt = "*"
criterion = "*"
diamond-types = "*"
flate2 = "*"
serde = { version = "*", features = ["derive"] }
serde_json = "*"
yrs = "*"
