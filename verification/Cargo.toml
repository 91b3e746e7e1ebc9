[package]
name = "firestore_model"
version = "0.1.0"
edition = "2021"
publish = false

[dependencies]
hyper = "0.10"
yup-oauth2 = "1.0"
