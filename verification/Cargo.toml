[package]
name = "niv"
version = "0.1.0"
edition = "2021"
publish = false

[dependencies]
anyhow = "=1.0.104"
com_ptr = "=0.2.1"
image = "=0.23.14"
log = "=0.4.34"
num_cpus = "=1.17.0"
serde = { version = "=1.0.229", features = ["derive"] }
serde_json = "=1.0.154"
simplelog = "=0.9.0"
thiserror = "=1.0.69"
tokio = { version = "=1.54.1", features = ["rt-multi-thread", "sync"] }
winapi = { version = "=0.3.9", features = ["combaseapi", "d2d1", "d2d1_1", "dcommon", "dwrite", "dxgiformat", "objbase", "shobjidl", "shobjidl_core", "shtypes", "winerror", "winuser", "wtypesbase"] }
wita = { version = "=0.20.0", features = ["serde"] }
