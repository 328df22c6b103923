//! Verified core of a digital readout (DRO) firmware: Modbus RTU framing,
//! quadrature decoding, EEPROM emulation in flash, CRC-protected flash
//! records, UART buffering and power-fail snapshotting.

pub mod modbus;
pub mod flash;
pub mod storage;
pub mod encoder;
pub mod drivers;
pub mod usart1;
pub mod snapshot;
