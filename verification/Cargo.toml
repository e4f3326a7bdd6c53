[package]
name = "vringbuf"
version = "0.1.0"
edition = "2021"
publish = false

[dependencies]
libc = "0.2"
mach = "0.3"
winapi = { version = "0.3", features = ["errhandlingapi", "handleapi", "memoryapi", "winnt", "sysinfoapi"] }
