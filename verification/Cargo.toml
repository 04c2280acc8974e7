[package]
name = "cycle_midi"
version = "0.1.0"
edition = "2021"
publish = false

[dependencies]
rand = "*"
midly = "*"
ctrlc = "*"
dirs = "*"
midir = "*"
notify-debouncer-mini = "*"
rtrb = "*"
serde = { version = "1", features = ["derive"] }
thread-priority = "*"
toml = "*"
