[package]
name = "mpd_client"
version = "0.1.0"
edition = "2021"
publish = false

[dependencies]
regex = "1"
gtk = "0.18"
gdk = "0.18"
gdk-pixbuf = "0.18"
