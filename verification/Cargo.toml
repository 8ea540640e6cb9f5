[package]
name = "todo_core"
version = "0.1.0"
edition = "2021"
publish = false

[dependencies]
chrono = "=0.4.45"
serde = { version = "=1.0.229", features = ["derive"] }
serde_json = "=1.0.151"
crossterm = "=0.28.1"
ratatui = "=0.28.1"
tui-textarea = "=0.6.1"
config = "=0.15.27"
