[package]
name = "tp_led_matrix"
version = "0.1.0"
edition = "2021"
publish = false

[dependencies]
clap = { version = "3", features = ["derive"] }
cortex-m-rtic = "1"
defmt = "0.3"
defmt-rtt = "0.3"
dwt-systick-monotonic = "1"
micromath = "2"
panic-probe = { version = "0.3", features = ["print-defmt"] }
stm32l4xx-hal = { version = "0.7", features = ["stm32l475", "rt"] }
