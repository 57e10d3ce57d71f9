[package]
name = "apt_downgrade"
version = "0.1.0"
edition = "2021"
publish = false

[dependencies]
clap = "*"
directories = "*"
glob = "*"
itertools = "*"
log = "*"
reqwest = { version = "*", default-features = false, features = ["blocking", "rustls-tls"] }
scraper = "*"
stderrlog = "*"

[dev-dependencies]
deb-version = "*"
