pub mod commands;
pub mod error;
pub mod file;
pub mod header;
pub mod tables;
pub mod tracks;
pub mod varint;

pub use commands::{parse_commands, OpbCommand};
pub use error::{OpbError, OpbStage};
pub use file::{parse_opb, OpbFile};
pub use header::{parse_header, OpbFormat, OpbHeader};
pub use tables::{parse_chunks, parse_instruments, OpbData, OpbInstOp, OpbInstrument};
pub use tracks::{demux, demux_track, track_of_addr};
pub use varint::{read_u7, size_u7, write_u7};
