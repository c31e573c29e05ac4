//! Driver library for a USB-to-SPI bridge chip used to program SPI NOR flash
//! parts. The protocol engine frames vendor command packets over bulk USB
//! transfers; the flash command layer builds the standard SPI-NOR command set
//! on top of it.

pub mod ch347;
pub mod flash;
pub mod info;
pub mod packets;
pub mod text;
