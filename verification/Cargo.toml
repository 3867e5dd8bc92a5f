[package]
name = "ostd_mm"
version = "0.1.0"
edition = "2021"
publish = false

[dependencies]
buddy_system_allocator = "*"
tracing = { version = "*", default-features = false }
tracing-core = { version = "*", default-features = false }
arrayvec = { version = "*", default-features = false }
rand = { version = "*", default-features = false }
rand_xoshiro = "*"
spin = "*"
smallvec = "*"
log = "*"
