[package]
name = "candidateparser"
version = "0.2.0"
edition = "2021"
publish = false

[dependencies]
nom = "=3.2.1"
libc = "=0.2.191"
jni = "=0.21.1"
log = "=0.4.34"
android_logger = "=0.15.1"
