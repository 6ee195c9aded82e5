[package]
name = "ranked_choice"
version = "0.1.0"
edition = "2021"
publish = false

[dependencies]
itertools = "=0.15.0"
diesel = { version = "=1.4.8", features = ["sqlite"] }
rocket = { version = "0.5", features = ["json", "secrets"] }
rocket_dyn_templates = { version = "*", features = ["tera"] }
serde = "=1.0.229"
serde_derive = "=1.0.229"
