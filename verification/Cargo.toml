[package]
name = "tg_rcore_tutorial"
version = "0.1.0"
edition = "2021"
publish = false

[dependencies]
riscv = "*"
virtio-drivers = "=0.1.0"
tg-sbi = "=0.4.2-preview.1"
