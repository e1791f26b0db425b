[package]
name = "filefinder"
version = "0.1.0"
edition = "2021"
publish = false

[dependencies]
ahash = "0.8"
arc-swap = "1"
ignore = "0.4"
memchr = "2"
num_cpus = "1"
parking_lot = "0.12"
rayon = "1"
serde = { version = "1", features = ["derive"] }
tauri = { version = "2", default-features = false }
time = { version = "0.3", features = ["formatting", "parsing"] }
winapi = { version = "0.3", features = ["errhandlingapi", "fileapi", "handleapi", "ioapiset", "minwindef", "ntdef", "winbase", "winerror", "winnt"] }
