//! Placement-aware netlists and hierarchical flattening.
//!
//! A netlist holds instances, the nets between them and ports to the outside.
//! A placed netlist adds, for each instance, the name of its cell and where it
//! sits in the layout. Flattening replaces instances by the contents of their
//! cell's netlist.

pub mod answer_laws;
pub mod connection_laws;
pub mod duplicate;
pub mod error_laws;
pub mod flatten;
pub mod flatten_laws;
pub mod flatten_model;
pub mod inline;
pub mod instance;
pub mod level_laws;
pub mod name_map;
pub mod names;
pub mod net;
pub mod net_laws;
pub mod netlist;
pub mod operation_laws;
pub mod pass_laws;
pub mod placed;
pub mod placed_laws;
pub mod placement;
pub mod removal_laws;
pub mod result_laws;
pub mod rewire;
pub mod seqs;
pub mod sorting;
pub mod turn;
pub mod union_find;
pub mod view_laws;
pub mod wire;
pub mod wiring;

pub use duplicate::Duplicate;
pub use flatten::{
    expand_pass, flatten_netlist, FlatNetlist, FlattenError, Flattened, NetlistData, Options,
    SkipReason, Skipped, State, MAX_PASSES,
};
pub use instance::{NetlistArray, NetlistInstance, Settings};
pub use name_map::{NameMap, NameSet};
pub use net::{Net, NetMember, NetlistPort, PortArrayRefData, PortRef};
pub use netlist::Netlist;
pub use placed::{merge_extras, PlacedInstance, PlacedNetlist};
pub use placement::{BBox, InlinedExtra, Number, PlacedExtra, Placement};
pub use wire::{placed_wire, wire_to_init, PlacedInstanceWire, PlacedNetlistWire};
