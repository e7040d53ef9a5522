[package]
name = "wave"
version = "0.1.0"
edition = "2021"
publish = false

[dependencies]
node-semver = "2"
pathdiff = "0.2"
void = "1"
anyhow = "1"
serde = { version = "1", features = ["derive"] }
serde_json = "1"
structopt = "0.3"
tokio = { version = "1", features = ["macros", "rt-multi-thread"] }
reqwest = { version = "0.11", default-features = false, features = ["json"] }
console = "0.15"
flate2 = "1"
tar = "0.4"
bytes = "1"
symlink = "0.1"
async-recursion = "1"
