[package]
name = "mqttui"
version = "0.1.0"
edition = "2021"
publish = false

[dependencies]
json = "0.12"
anyhow = "1"
chrono = "0.4"
crossterm = "0.25"
rumqttc = "*"
tui = "0.19"
tui-textarea = "0.2"
tui-tree-widget = "0.11"
