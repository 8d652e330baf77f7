[package]
name = "stack-queue"
version = "0.1.0"
edition = "2021"
publish = false

[dependencies]
async-local = "=0.15.4"
async_t = { version = "=0.7.0", features = ["boxed"] }
cache-padded = "1"
criterion = { version = "0.5", features = ["async_tokio"] }
crossbeam-deque = "0.8"
darling = "0.21"
diesel = { version = "2", default-features = false }
flume = "0.10"
futures = "0.3"
kanal = "0.1"
jemallocator = "0.5"
pin-project = "1"
proc-macro2 = "1"
quote = "1"
redis = { version = "0.27", default-features = false }
static_assertions = "1"
swap-queue = "1"
syn = { version = "=2.0.119", features = ["full"] }
tokio = { version = "1", features = ["rt", "rt-multi-thread", "sync", "macros", "time"] }
