# dro_core

Verified core of the firmware of a digital readout (DRO) for an incremental
quadrature encoder on an STM32C031: the logic is in `src/` and proved with
Verus; `app/` holds the register-level bring-up, the interrupt handlers and
the background loop, which hand plain values to the library and carry out
the actions it returns.

- `modbus` — CRC-16/MODBUS, frame assembly, Modbus RTU slave responses
  (0x03 read holding registers, 0x06 write single register, exceptions).
- `encoder`, `drivers::encoder` — X4 lookup-table quadrature decoding with a
  wrapping 32-bit counter (and an invalid-transition counter).
- `storage::eeprom` — two-page ping-pong EEPROM emulation over a RAM mirror
  of the flash pages; a write is planned as flash operations and its
  outcome recorded.
- `flash` — flash address checks, busy-wait decisions, flash operations.
- `drivers::flash` — CRC-protected record stored in a reserved flash page.
- `drivers::uart` — UART interrupt and non-blocking transmit decisions.
- `usart1` — receive ring buffer.
- `snapshot` — power-fail snapshot of the encoder count.
