//! The library's errors.

use vstd::prelude::*;
use crate::lexer::ParseError;

verus! {

/// Which on-disk structure an error concerns.
#[derive(Debug, Clone, Copy, PartialEq, Eq, Structural)]
pub enum Region {
    Label,
    PvHeader,
    Mda,
    TextPayload,
}

/// A model-level rule that an operation would break.
#[derive(Debug, Clone, Copy, PartialEq, Eq, Structural)]
pub enum Violation {
    /// No PV was given where one is needed.
    NoPvs,
    /// None of the given PVs has a metadata area.
    NoMetadataArea,
    /// The PV has no data area.
    NoDataArea,
    /// The device is too small for the layout asked for.
    TooSmall,
    /// The PV already belongs to this VG.
    DuplicatePv,
    /// The PV carries the metadata of a VG already.
    ForeignVg,
    /// An LV of that name exists.
    DuplicateLv,
    /// A segment refers to a PV that the VG does not hold.
    UnknownPv,
    /// A number is out of the range that the model allows.
    OutOfRange,
    /// Two segments share an extent of a PV.
    Overlap,
}

/// Everything that can go wrong.
#[derive(Debug)]
pub enum Error {
    /// A read or write failed; the text says where and why.
    Io(Vec<u8>),
    /// A checksum or magic number does not match.
    Corrupt(Region),
    /// Two descriptions of one thing disagree.
    Inconsistent(Region),
    /// The text is not in the configuration format.
    Parse(ParseError),
    /// A key of a text map is absent or holds the wrong kind of value.
    Shape(Vec<u8>),
    /// The model would break a rule.
    Invariant(Violation),
    /// No free range is large enough.
    NoSpace { requested: u64, available: u64 },
    /// The PV is used by the named LV.
    InUse(Vec<u8>),
    /// Nothing of that name or device.
    NotFound(Vec<u8>),
    /// An outside component failed; the text says which and why.
    External(Vec<u8>),
}

} // verus!
