[package]
name = "simple-ssh-manager"
version = "0.1.0"
edition = "2021"
publish = false

[dependencies]
age = "=0.11.5"
async-channel = "=2.5.0"
dirs = "=7.0.0"
gdk4-x11 = { version = "=0.9.6", features = ["xlib"] }
gtk4 = { version = "=0.9.7", features = ["v4_10"] }
ksni = { version = "=0.3.7", features = ["blocking"] }
serde = { version = "=1.0.229", features = ["derive"] }
serde_json = "=1.0.154"
vte4 = "=0.8.0"
x11-dl = "=2.21.0"
