[package]
name = "cozoscript"
version = "0.1.0"
edition = "2021"
publish = false

[dependencies]
cstree = "=0.12.2"
termion = "=1.5.6"
notify = "=8.2.1"
notify-debouncer-mini = "=0.7.0"
display_tree = "=1.1.2"
pretty = "=0.12.5"
tabled = "=0.22.0"
cozo = { version = "=0.7.6", default-features = false, features = ["storage-sqlite", "graph-algo"] }
