[package]
name = "doctor"
version = "0.1.0"
edition = "2021"
publish = false

[dependencies]
goblin = "*"
moka = { version = "0.12", features = ["sync"] }
symbolic = { version = "12", features = ["demangle"] }
anyhow = "1"
thiserror = "*"
log = "0.4"
env_logger = "*"
libc = "0.2"
clap = { version = "4", features = ["derive"] }
tokio = { version = "1", features = ["macros", "rt", "rt-multi-thread", "net", "signal", "time"] }
aya = "*"
aya-log = "*"
procfs = "*"
memmap2 = "*"
wholesym = "*"
blazesym = "*"
