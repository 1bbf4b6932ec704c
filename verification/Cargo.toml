[package]
name = "thread_sentry"
version = "0.1.0"
edition = "2021"
publish = false

[dependencies]
dashmap = "5.5"
smallvec = "1.11"
parking_lot = "0.12"
once_cell = "1.18"
backtrace = "0.3"
colored = "2.1"
syn = { version = "2", features = ["full"] }
quote = "1"
proc-macro2 = "1"
