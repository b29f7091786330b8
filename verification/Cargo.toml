[package]
name = "segment_alloc"
version = "0.1.0"
edition = "2021"
publish = false

[dependencies]
bit_field = "0.10"
bitmaps = "3"
memory_addr = "*"
axallocator = { version = "*", default-features = false }
log = "0.4"
