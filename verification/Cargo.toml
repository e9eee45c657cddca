[package]
name = "wezterm_core"
version = "0.1.0"
edition = "2021"
publish = false

[dependencies]
regex = "1"
sha2 = "0.10"
hex = "0.4"
dirs-next = "2"
gethostname = "0.4"
filenamegen = "0.2"
libc = "0.2"
thiserror = "1"
log = "0.4"
