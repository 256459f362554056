[package]
name = "midi_counter"
version = "1.0.0"
edition = "2021"

[dependencies]
native-dialog = "0.7"
xz2 = "0.1"
