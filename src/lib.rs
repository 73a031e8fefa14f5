//! Melvin: a library for configuring logical volumes in the style of LVM2.
//!
//! The library holds the on-disk PV label and metadata-area formats, the
//! LVM text configuration format, and the volume-group model with its
//! extent allocator. Everything that touches a device is left to callers:
//! they hand the library byte images and plain values and take the same back.

pub mod dm;
pub mod error;
pub mod flock;
pub mod fromtext;
pub mod lexer;
pub mod mda;
pub mod metad;
pub mod model;
pub mod parser;
pub mod pvheader;
pub mod roundtrip;
pub mod textmap;
pub mod util;
pub mod vg;

pub use error::{Error, Region, Violation};
pub use flock::LockScope;
pub use model::{Device, Segment, StripedSegment, LV, PV};
pub use parser::{Element, Entry, LvmTextMap, TextMapOps};
pub use pvheader::{PvArea, PvHeader};
pub use vg::{PvCandidate, VG};
