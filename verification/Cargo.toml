[package]
name = "lice"
version = "0.1.0"
edition = "2021"
publish = false

[dependencies]
petgraph = "0.6"
fixedbitset = "0.4"
nom = "7"
eframe = { version = "0.26", default-features = false, features = ["glow", "default_fonts"] }
egui = { version = "0.26", default-features = false }
egui_graphs = { version = "0.19", default-features = false }
