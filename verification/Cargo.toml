[package]
name = "git_anger"
version = "0.1.0"
edition = "2021"
publish = false

[dependencies]
git2 = "*"
structopt = "*"
console = "*"
serde = { version = "*", features = ["derive"] }
serde_json = "*"
tabwriter = "*"
