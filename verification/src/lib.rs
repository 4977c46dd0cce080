//! Structural, field-aware diffs between two values of the same shape.
//!
//! A diff is a flat sequence of typed commands addressing the leaves that
//! changed inside arbitrarily nested aggregates: records, tagged unions,
//! ordered sequences, keyed maps, options and fixed arrays.  The diff engine
//! walks paired old/new values, buffering path prefixes so that unchanged
//! subtrees emit nothing; the apply engine streams the command sequence into
//! a target value in place, skipping unknown paths so that schema drift is
//! tolerated.  A host codec carries the command sequence on the wire; this
//! crate works on the command sequence itself.

use vstd::prelude::*;

pub mod apply;
pub mod config;
pub mod counting_serializer;
pub mod difference;
pub mod laws;
pub mod value;

verus! {

/// Configures how record field identifiers are serialized in diff paths.
#[derive(Copy, Clone, Debug)]
pub enum FieldPathMode {
    /// Use the field's string name as its identifier.
    Name,
    /// Use the field's index in the record as its identifier.
    Index,
}

} // verus!
