[package]
name = "easypdf"
version = "0.1.0"
edition = "2021"
publish = false

[dependencies]
lopdf = { version = "=0.34.0", default-features = false, features = ["nom_parser", "chrono_time"] }
md-5 = "=0.10.6"
printpdf = "=0.8.2"
thiserror = "=2.0.21"
