pub mod encoder;
pub mod flash;
pub mod uart;
