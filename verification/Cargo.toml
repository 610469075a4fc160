[package]
name = "slab_alloc"
version = "0.1.0"
edition = "2021"
publish = false

[dependencies]
object-alloc = "=0.1.0"
sysconf = "=0.3.4"
lazy_static = "=1.5.1"
