[package]
name = "mikan_os"
version = "0.1.0"
edition = "2021"
publish = false

[dependencies]
elf = "0.7"
uefi = "*"
clap = { version = "4", features = ["derive"] }
linked_list_allocator = "0.10"
