[package]
name = "cityparquet"
version = "0.1.0"
edition = "2021"
publish = false

[dependencies]
quick-xml = "=0.37.5"
serde_json = "=1.0.154"
cjseq = "=0.4.1"
object_store = { version = "=0.13.2", default-features = false }
async-trait = "=0.1.92"
futures-util = "=0.3.34"
chrono = "=0.4.45"
