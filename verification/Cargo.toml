[package]
name = "typstpp"
version = "0.1.0"
edition = "2021"
publish = false

[dependencies]
rand = "0.8"
tokio = { version = "1", features = ["fs", "io-util", "io-std", "macros", "process", "rt-multi-thread", "signal", "sync"] }
clap = { version = "4", features = ["derive"] }
crossterm = "*"
notify-debouncer-full = "*"
