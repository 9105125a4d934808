use vstd::prelude::*;

verus! {

/// The failure taxonomy of the node runtime and its storage engine.
///
/// - `Protocol`: a malformed or unexpected envelope or payload; the offending
///   input is dropped (or, for the bootstrap message, the node refuses to
///   start).
/// - `Io`: the input source or output sink is unavailable; fatal.
/// - `Storage`: an append against the record store cannot be completed; the
///   failing operation leaves no partial mutation behind.
/// - `CorruptLog`: the startup index rebuild met an undecodable record;
///   fatal, partial recovery is not attempted.
#[derive(Clone, Copy, Debug, PartialEq, Eq, Structural)]
pub enum NodeError {
    Protocol,
    Io,
    Storage,
    CorruptLog,
}

} // verus!
