[package]
name = "gisture"
version = "0.1.0"
edition = "2021"
publish = false

[dependencies]
cacache = "=13.1.0"
chrono = "=0.4.45"
clap = "=4.6.7"
colored = "=3.1.1"
handlebars = "=6.4.4"
html-escape = "=0.2.15"
html-minifier = "=5.0.2"
portpicker = "=0.1.1"
pulldown-cmark = "=0.13.4"
serde = { version = "=1.0.229", features = ["derive"] }
serde_json = "=1.0.151"
sitemap = "=0.4.1"
syntect = "=5.3.0"
tokio = { version = "=1.53.2", features = ["rt-multi-thread", "macros"] }
ureq = "=3.4.2"
warp = { version = "=0.4.3", features = ["server"] }
