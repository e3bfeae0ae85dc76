[package]
name = "regexsoup"
version = "0.1.0"
edition = "2021"
publish = false

[dependencies]
anyhow = "1"
automata = "*"
indexmap = "1"
indoc = "1"
itertools = "0.10"
once_cell = "1"
rand = "0.8"
rand_distr = "0.4"
regex = "1"
serde = { version = "1", features = ["derive"] }
serde_json = "1"
serenity = { version = "0.10", features = ["unstable_discord_api"] }
thiserror = "1"
tokio = { version = "1", features = ["macros", "rt-multi-thread", "sync", "time"] }

[dev-dependencies]
combine = "4"
