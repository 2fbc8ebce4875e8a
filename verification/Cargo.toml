[package]
name = "peaks"
version = "0.1.0"
edition = "2021"
publish = false

[dependencies]
bmp = "=0.5.0"
docopt = "=1.1.1"
fdeflate = "=0.3.7"
flate2 = "=1.1.10"
gdal = "=0.19.0"
gpx = "=0.10.0"
miniz_oxide = "=0.9.1"
png = "=0.18.1"
serde = { version = "=1.0.229", features = ["derive"] }
serde_json = "=1.0.154"
