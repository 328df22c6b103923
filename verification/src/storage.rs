pub mod eeprom;
