[package]
name = "er_alloc"
version = "0.1.0"
edition = "2021"
publish = false

[dependencies]
aes-ctr = "=0.6.0"
reed-solomon = "=0.2.1"
libc = "=0.2.191"
