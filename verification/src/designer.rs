//! What the designer window shows and what its buttons report.
//!
//! The window is deliberately presentational: it edits the project settings
//! and asks the rest of KiCase for anything that touches KiCad, the CAD kernel
//! or the filesystem.

use vstd::prelude::*;

verus! {

/// What an export button asks for.
#[derive(Debug, Clone, Copy, PartialEq, Eq, Structural)]
pub enum ExportKind {
    Step,
    Stl,
    OpenScad,
}

impl ExportKind {
    pub fn label(self) -> (r: &'static str)
        ensures
            r@ == match self {
                ExportKind::Step => "Export STEP"@,
                ExportKind::Stl => "Export STL"@,
                ExportKind::OpenScad => "Generate OpenSCAD project"@,
            },
    {
        match self {
            ExportKind::Step => "Export STEP",
            ExportKind::Stl => "Export STL",
            ExportKind::OpenScad => "Generate OpenSCAD project",
        }
    }
}

/// One row in the features tree.
#[derive(Debug, Clone, PartialEq, Eq)]
pub struct ItemInfo {
    pub id: String,
    /// UUID of the KiCad graphic behind it, so the window can bind settings.
    pub uuid: String,
    pub detail: String,
    /// Set when the row refers to a KiCad object that no longer exists.
    pub orphaned: bool,
}

/// A graphic on one of the enclosure layers, offered for association.
#[derive(Debug, Clone, PartialEq, Eq)]
pub struct GraphicRow {
    pub uuid: String,
    /// Which enclosure layer it is on.
    pub layer: String,
    pub description: String,
    /// True when the graphic forms a closed region on its own.
    pub closed: bool,
    /// Id of the project entry already bound to it, if any.
    pub bound_to: Option<String>,
}

/// A detected mounting hole.
#[derive(Debug, Clone, PartialEq)]
pub struct HoleInfo {
    pub id: String,
    pub detail: String,
    pub orphaned: bool,
}

/// Board-derived information shown in the window.
#[derive(Debug, Clone, Default, PartialEq)]
pub struct DesignerData {
    pub project_dir: String,
    /// KiCad version string, or `None` when working from a board file.
    pub kicad_version: Option<String>,
    pub board_summary: String,
    pub datums: Vec<ItemInfo>,
    pub cutouts: Vec<ItemInfo>,
    pub solids: Vec<ItemInfo>,
    pub holes: Vec<HoleInfo>,
    pub orphans: Vec<ItemInfo>,
    /// Graphics available for association.
    pub graphics: Vec<GraphicRow>,
    /// Overall exterior size, once geometry has been generated.
    pub dimensions: Option<String>,
    /// Set when the wall thickness comes from the width of the drawn outline,
    /// in which case the wall setting is inert.
    pub drawn_wall: Option<String>,
    pub problems: Vec<String>,
}

/// The outcome of a button press.
#[derive(Debug, Clone, PartialEq, Eq, Default)]
pub struct ActionReport {
    pub headline: String,
    pub lines: Vec<String>,
    pub ok: bool,
}

impl ActionReport {
    /// A report of success, with no detail lines yet.
    pub fn ok(headline: &str) -> (r: Self)
        ensures
            r.headline@ == headline@,
            r.lines@.len() == 0,
            r.ok,
    {
        ActionReport { headline: headline.to_owned(), lines: Vec::new(), ok: true }
    }

    /// A report of failure, with no detail lines yet.
    pub fn failed(headline: &str) -> (r: Self)
        ensures
            r.headline@ == headline@,
            r.lines@.len() == 0,
            !r.ok,
    {
        ActionReport { headline: headline.to_owned(), lines: Vec::new(), ok: false }
    }

    /// The same report with one more detail line at the end.
    pub fn with(self, line: &str) -> (r: Self)
        ensures
            r.headline == self.headline,
            r.ok == self.ok,
            r.lines@.len() == self.lines@.len() + 1,
            forall|i: int| 0 <= i < self.lines@.len() ==> #[trigger] r.lines@[i] == self.lines@[i],
            r.lines@.last()@ == line@,
    {
        let mut report = self;
        report.lines.push(line.to_owned());
        report
    }
}

/// Which way the section plane faces.
#[derive(Debug, Clone, Copy, PartialEq, Eq, Structural)]
pub enum SectionAxis {
    X,
    Y,
    Z,
}

impl SectionAxis {
    /// Every axis, in the order the window offers them.
    pub fn all() -> (r: [SectionAxis; 3])
        ensures
            r@ == seq![SectionAxis::X, SectionAxis::Y, SectionAxis::Z],
    {
        let axes = [SectionAxis::X, SectionAxis::Y, SectionAxis::Z];
        assert(axes@ =~= seq![SectionAxis::X, SectionAxis::Y, SectionAxis::Z]);
        axes
    }

    pub fn label(self) -> (r: &'static str)
        ensures
            r@ == match self {
                SectionAxis::X => "X"@,
                SectionAxis::Y => "Y"@,
                SectionAxis::Z => "Z"@,
            },
    {
        match self {
            SectionAxis::X => "X",
            SectionAxis::Y => "Y",
            SectionAxis::Z => "Z",
        }
    }
}

/// How the viewport projects the scene.
#[derive(Debug, Clone, Copy, PartialEq, Eq, Structural)]
pub enum Projection {
    Orthographic,
    Perspective,
}

/// One displayable part of the scene.
#[derive(Debug, Clone, Copy, PartialEq, Eq, Hash, Structural)]
pub enum PartId {
    /// The PCB itself.
    Pcb,
    /// The bottom shell.
    Bottom,
    /// The lid.
    Lid,
    /// The parts the footprints carry 3D models for. Display only: they are
    /// never a kernel solid, which keeps them out of the enclosure geometry,
    /// the exports and the fitment booleans.
    Components,
}

impl PartId {
    /// Every part, in drawing order.
    pub fn all() -> (r: [PartId; 4])
        ensures
            r@ == seq![PartId::Pcb, PartId::Bottom, PartId::Lid, PartId::Components],
    {
        let parts = [PartId::Pcb, PartId::Bottom, PartId::Lid, PartId::Components];
        assert(parts@ =~= seq![PartId::Pcb, PartId::Bottom, PartId::Lid, PartId::Components]);
        parts
    }

    pub fn label(self) -> (r: &'static str)
        ensures
            r@ == match self {
                PartId::Pcb => "PCB"@,
                PartId::Bottom => "Enclosure bottom"@,
                PartId::Lid => "Enclosure lid"@,
                PartId::Components => "Components"@,
            },
    {
        match self {
            PartId::Pcb => "PCB",
            PartId::Bottom => "Enclosure bottom",
            PartId::Lid => "Enclosure lid",
            PartId::Components => "Components",
        }
    }
}

} // verus!
