[package]
name = "spreet"
version = "0.1.0"
edition = "2021"
publish = false

[dependencies]
resvg = "*"
crunch = "*"
multimap = "*"
sdf_glyph_renderer = "*"
oxipng = "*"
png = "*"
clap = { version = "*", features = ["derive"] }
exitcode = "*"
thiserror = "*"
serde = { version = "*", features = ["derive"] }
serde_json = "*"
walkdir = "*"
