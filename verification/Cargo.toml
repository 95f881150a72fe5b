[package]
name = "agent_keystore"
version = "0.1.0"
edition = "2021"
publish = false

[dependencies]
getrandom = "*"
argon2 = "*"
chacha20poly1305 = "*"
hkdf = "*"
sha2 = "*"
ed25519-dalek = "*"
bs58 = "*"
rpassword = "*"
