[package]
name = "dro_core"
version = "0.1.0"
edition = "2021"
publish = false

[dependencies]
stm32c0 = { version = "*", features = ["stm32c031", "rt"] }
cortex-m = "0.7"
cortex-m-rt = "0.7"
panic-halt = "0.2"
systick-monotonic = "1"
