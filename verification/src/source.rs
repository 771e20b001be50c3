//! What the user drew, as far as it can be said without measurements.

use vstd::prelude::*;
use vstd::string::{StrSliceExecFns, StringExecFns};

verus! {

/// A KiCad object's persistent identifier.
///
/// Objects are *only* ever identified by this. Never by position, never by
/// name, never by layer alone.
#[derive(Debug, Clone, PartialEq, Eq, Hash, PartialOrd, Ord)]
pub struct KiCadUuid(pub String);

impl KiCadUuid {
    pub fn new(id: String) -> (r: Self)
        ensures
            r.0@ == id@,
    {
        KiCadUuid(id)
    }

    pub fn as_str(&self) -> (r: &str)
        ensures
            r@ == self.0@,
    {
        self.0.as_str()
    }
}

/// Which enclosure layer a graphic was found on.
#[derive(Debug, Clone, Copy, PartialEq, Eq, Structural)]
pub enum LayerRole {
    /// `Edge.Cuts`: the PCB outline.
    BoardOutline,
    /// `Enclosure`: the user-drawn case outline.
    Outline,
    /// `Enclosure.Datums`.
    Datums,
    /// `Enclosure.Cuts`: openings through a side wall, via a datum.
    Cuts,
    /// `Enclosure.Top`: holes straight through the lid.
    Top,
    /// `Enclosure.Bottom`: holes straight through the floor.
    Bottom,
    /// `Enclosure.Solids`.
    Solids,
}

/// The prefix of the id a shape nobody has named gets, from its role.
pub open spec fn id_prefix(role: LayerRole) -> Seq<char> {
    match role {
        LayerRole::Top => "top"@,
        LayerRole::Bottom => "bottom"@,
        LayerRole::Cuts => "cut"@,
        LayerRole::Solids => "solid"@,
        _ => "feature"@,
    }
}

/// The name a shape nobody has named gets: the role's prefix, a dash, and
/// the first eight characters of its UUID.
pub open spec fn default_id_of(role: LayerRole, uuid: Seq<char>) -> Seq<char> {
    id_prefix(role) + "-"@ + uuid.take(
        if uuid.len() < 8 {
            uuid.len() as int
        } else {
            8
        },
    )
}

/// A readable name for a shape nobody has named, from its layer and UUID.
pub fn default_id(role: LayerRole, uuid: &str) -> (r: String)
    ensures
        r@ == default_id_of(role, uuid@),
{
    let prefix = match role {
        LayerRole::Top => "top",
        LayerRole::Bottom => "bottom",
        LayerRole::Cuts => "cut",
        LayerRole::Solids => "solid",
        _ => "feature",
    };
    let len = uuid.unicode_len();
    let short = if len < 8 {
        uuid.substring_char(0, len)
    } else {
        uuid.substring_char(0, 8)
    };
    let mut id = prefix.to_owned();
    id.append("-");
    id.append(short);
    id
}

} // verus!
