use vstd::prelude::*;

pub mod analysis;
pub mod escape;
pub mod table;

pub use analysis::{analyse_table, Finding};
pub use escape::{decode_special_strings, encode_special_bytes, ControlCharacterMode};
pub use table::{encode_table, read_offsets, table_to_text, text_to_table, EncodedTable, TableError};

verus! {

} // verus!
