[package]
name = "pure_ecs_data"
version = "0.1.0"
edition = "2021"
publish = false

[dependencies]
bevy = { version = "=0.19.1", default-features = false, features = ["std", "bevy_log"] }
bevy_seedling = { version = "=0.8.0", default-features = false }
firewheel = { version = "=0.12.1", default-features = false, features = ["std"] }
rand = "=0.10.3"
paste = "=1.0.15"
seq-macro = "=0.3.6"
