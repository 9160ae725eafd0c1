//! CRC-32 checksums over the bit-reflected polynomial `0xEDB88320`, computed
//! with a slice-by-8 table method and proved equal to the bit-at-a-time
//! definition of the checksum.

pub mod model;
pub mod table;
pub mod checksum;
