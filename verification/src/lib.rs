//! Building blocks for turning electronic component data into Altium
//! schematic and footprint libraries.

use vstd::prelude::*;

pub mod batch;
pub mod batch_laws;
pub mod batch_runs;
pub mod calendar;
pub mod cells;
pub mod cli;
pub mod codec;
pub mod command_laws;
pub mod compound;
pub mod detail_laws;
pub mod error;
pub mod footprint;
pub mod footprint_laws;
pub mod footprint_parts;
pub mod footprint_text;
pub mod format_laws;
pub mod naming_laws;
pub mod param_laws;
pub mod params;
pub mod passive_naming;
pub mod pcb_laws;
pub mod pcb_records;
pub mod pcblib;
pub mod reals;
pub mod record_laws;
pub mod schlib;
pub mod schlib_laws;
pub mod sections;
pub mod sketch_laws;
pub mod text;
pub mod text_laws;
pub mod token_laws;
pub mod wire;

verus! {

} // verus!
