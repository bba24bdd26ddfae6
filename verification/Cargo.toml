[package]
name = "shm_queue"
version = "0.1.0"
edition = "2021"
publish = false

[dependencies]
chrono = "0.4"
memmap2 = "0.9"
named-sem = "*"
thiserror = "1"
