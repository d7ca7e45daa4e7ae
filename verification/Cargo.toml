[package]
name = "leyden"
version = "0.1.0"
edition = "2021"
publish = false

[dependencies]
relm4 = { version = "=0.11.0", features = ["libadwaita", "gnome_49"] }
tracing = "=0.1.44"
tracing-subscriber = { version = "=0.3.23", features = ["env-filter"] }
