[package]
name = "gst_backend"
version = "0.1.0"
edition = "2021"
publish = false

[dependencies]
gstreamer = "0.20"
gstreamer-audio = "0.20"
gtk-macros = "0.3"
gtk4 = "0.6"
log = "0.4"
urlencoding = "2"
