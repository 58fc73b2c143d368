[package]
name = "noki"
version = "0.1.0"
edition = "2021"
publish = false

[dependencies]
anyhow = "=1.0.104"
chrono = "=0.4.45"
clap = { version = "=4.6.7", features = ["derive"] }
clap_complete = { version = "=4.6.11", features = ["unstable-dynamic"] }
clap-verbosity-flag = "=3.0.4"
directories = "=6.0.0"
env_logger = "=0.11.11"
git2 = { version = "=0.21.0", features = ["cred"] }
gix = { version = "=0.90.0", default-features = false, features = ["sha1", "blocking-network-client", "worktree-mutation"] }
libc = "=0.2.191"
log = "=0.4.35"
markdown = "=1.0.0"
serde = { version = "=1.0.229", features = ["derive"] }
serde_json = "=1.0.154"
serde_yaml_ng = "=0.10.0"
slug = "=0.1.6"
tabled = { version = "=0.21.0", features = ["ansi"] }
tempfile = "=3.27.0"
terminal_size = "=0.4.4"
toml = "=1.1.8"
