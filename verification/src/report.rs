//! What a rebuild reports: warnings, fitment results, orphaned entries, and
//! which graphics the project binds.

use crate::config::{DatumConfig, FeatureBinding};
use crate::designer::ActionReport;
use crate::source::LayerRole;
use crate::text::str_eq;
use vstd::prelude::*;
use vstd::string::StringExecFns;

verus! {

/// A non-fatal problem. Generation continues, and the message is surfaced in
/// the UI and on the command line.
#[derive(Debug, Clone, PartialEq, Eq)]
pub struct Warning {
    pub message: String,
    /// KiCad UUID of the object the warning is about, when there is one.
    pub uuid: Option<String>,
}

/// How a warning reads: its message, then the UUID in brackets when it has one.
pub open spec fn warning_text(message: Seq<char>, uuid: Option<Seq<char>>) -> Seq<char> {
    match uuid {
        Some(u) => message + " ["@ + u + "]"@,
        None => message,
    }
}

impl Warning {
    pub fn new(message: &str) -> (r: Self)
        ensures
            r.message@ == message@,
            r.uuid is None,
    {
        Warning { message: message.to_owned(), uuid: None }
    }

    pub fn about(uuid: &str, message: &str) -> (r: Self)
        ensures
            r.message@ == message@,
            r.uuid matches Some(u) && u@ == uuid@,
    {
        Warning { message: message.to_owned(), uuid: Some(uuid.to_owned()) }
    }

    /// The warning as it is shown to the user.
    pub fn text(&self) -> (r: String)
        ensures
            r@ == warning_text(
                self.message@,
                match self.uuid {
                    Some(u) => Some(u@),
                    None => None,
                },
            ),
    {
        let mut text = self.message.clone();
        match &self.uuid {
            Some(uuid) => {
                text.append(" [");
                text.append(uuid.as_str());
                text.append("]");
            },
            None => {},
        }
        text
    }
}

/// The outcome of one fitment check.
#[derive(Debug, Clone, Copy, PartialEq, Eq, Structural)]
pub enum FitStatus {
    /// Checked and fine.
    Passed,
    /// Works, but worth knowing.
    Warning,
    /// Will not fit or will not do what was intended.
    Problem,
}

/// The short tag a fitment status is printed with.
pub open spec fn symbol_of(status: FitStatus) -> Seq<char> {
    match status {
        FitStatus::Passed => "ok"@,
        FitStatus::Warning => "warn"@,
        FitStatus::Problem => "FAIL"@,
    }
}

impl FitStatus {
    pub fn is_problem(self) -> (r: bool)
        ensures
            r == (self == FitStatus::Problem),
    {
        match self {
            FitStatus::Problem => true,
            _ => false,
        }
    }

    pub fn symbol(self) -> (r: &'static str)
        ensures
            r@ == symbol_of(self),
    {
        match self {
            FitStatus::Passed => "ok",
            FitStatus::Warning => "warn",
            FitStatus::Problem => "FAIL",
        }
    }
}

/// One checked fact about the enclosure, with the numbers behind it.
#[derive(Debug, Clone, PartialEq)]
pub struct FitCheck {
    /// What the check is about: a feature id, or `board` / `lid`.
    pub subject: String,
    pub status: FitStatus,
    /// Always states the measurement, so a tweak can be sized rather than
    /// guessed at.
    pub message: String,
}

impl FitCheck {
    pub fn new(subject: &str, status: FitStatus, message: &str) -> (r: Self)
        ensures
            r.subject@ == subject@,
            r.status == status,
            r.message@ == message@,
    {
        FitCheck { subject: subject.to_owned(), status, message: message.to_owned() }
    }

    /// The check as it is printed: `[tag] subject: message`.
    pub fn text(&self) -> (r: String)
        ensures
            r@ == "["@ + symbol_of(self.status) + "] "@ + self.subject@ + ": "@ + self.message@,
    {
        let mut text = "[".to_owned();
        text.append(self.status.symbol());
        text.append("] ");
        text.append(self.subject.as_str());
        text.append(": ");
        text.append(self.message.as_str());
        proof {
            reveal_strlit("[");
            reveal_strlit("] ");
            reveal_strlit(": ");
        }
        text
    }
}

/// What a check that could not be measured says: that the answer is unknown
/// rather than good.
pub open spec fn unmeasured_message(clause: Seq<char>, error: Seq<char>) -> Seq<char> {
    "could not work out "@ + clause + " ("@ + error
        + ") \u{2014} check this one by eye in the 3D view"@
}

/// A check whose measurement failed, reported as a warning rather than
/// dropped, so one unanswerable check does not cost every other one. `error`
/// is what the failed measurement said.
pub fn unmeasured(id: &str, clause: &str, error: &str) -> (r: FitCheck)
    ensures
        r.subject@ == id@,
        r.status == FitStatus::Warning,
        r.message@ == unmeasured_message(clause@, error@),
{
    let mut message = "could not work out ".to_owned();
    message.append(clause);
    message.append(" (");
    message.append(error);
    message.append(") \u{2014} check this one by eye in the 3D view");
    FitCheck { subject: id.to_owned(), status: FitStatus::Warning, message }
}

/// A project entry whose KiCad graphic or mounting hole no longer exists.
#[derive(Debug, Clone, PartialEq)]
pub struct Orphan {
    pub id: String,
    pub uuid: String,
    pub kind: OrphanKind,
}

/// What kind of entry was orphaned.
#[derive(Debug, Clone, Copy, PartialEq, Eq, Structural)]
pub enum OrphanKind {
    Datum,
    Feature,
    MountingHole,
}

/// What an orphaned entry is called in a report.
pub open spec fn kind_name(kind: OrphanKind) -> Seq<char> {
    match kind {
        OrphanKind::Datum => "datum"@,
        OrphanKind::Feature => "feature"@,
        OrphanKind::MountingHole => "mounting hole"@,
    }
}

/// What an orphaned entry is called in a report.
pub fn kind_of(orphan: &Orphan) -> (r: &'static str)
    ensures
        r@ == kind_name(orphan.kind),
{
    match orphan.kind {
        OrphanKind::Datum => "datum",
        OrphanKind::Feature => "feature",
        OrphanKind::MountingHole => "mounting hole",
    }
}

/// What happened when the preview footprint was ensured.
#[derive(Debug, Clone, Copy, PartialEq, Eq, Structural)]
pub enum PreviewOutcome {
    /// The footprint was already on the board and was left alone.
    Preserved,
    /// A new footprint was created.
    Created,
}

/// What to write during a rebuild.
#[derive(Debug, Clone, Copy, PartialEq, Eq, Structural)]
pub struct RebuildOptions {
    pub step: bool,
    pub stl: bool,
    pub openscad: bool,
    /// Create or keep the KiCad preview footprint and refresh the editor.
    pub update_kicad: bool,
}

impl Default for RebuildOptions {
    /// STEP files and the KiCad preview, nothing else.
    fn default() -> (r: Self)
        ensures
            r == (RebuildOptions { step: true, stl: false, openscad: false, update_kicad: true }),
    {
        RebuildOptions { step: true, stl: false, openscad: false, update_kicad: true }
    }
}

impl RebuildOptions {
    /// Everything a plain `kicase rebuild` does, given whether the project asks
    /// for an OpenSCAD derivative.
    pub fn rebuild(openscad: bool) -> (r: Self)
        ensures
            r == (RebuildOptions { step: true, stl: false, openscad, update_kicad: true }),
    {
        RebuildOptions { openscad, ..RebuildOptions::default() }
    }
}

/// Result of a rebuild, for the command line and the designer to report.
#[derive(Debug, Clone, Default)]
pub struct RebuildReport {
    pub files: Vec<String>,
    pub warnings: Vec<String>,
    pub orphans: Vec<Orphan>,
    pub notes: Vec<String>,
    /// Computed fitment results: interference and clearance, with numbers.
    pub fit: Vec<FitCheck>,
    pub preview: Option<PreviewOutcome>,
    pub refreshed: bool,
}

impl RebuildReport {
    /// No warnings, no orphans and no fitment problem.
    pub fn is_clean(&self) -> (r: bool)
        ensures
            r == (self.warnings@.len() == 0 && self.orphans@.len() == 0 && forall|i: int|
                0 <= i < self.fit@.len() ==> #[trigger] self.fit@[i].status != FitStatus::Problem),
    {
        if self.warnings.len() != 0 || self.orphans.len() != 0 {
            return false;
        }
        let mut i: usize = 0;
        while i < self.fit.len()
            invariant
                i <= self.fit@.len(),
                forall|j: int| 0 <= j < i ==> #[trigger] self.fit@[j].status != FitStatus::Problem,
            decreases self.fit.len() - i,
        {
            if self.fit[i].status.is_problem() {
                return false;
            }
            i = i + 1;
        }
        true
    }

    /// Fitment results worth showing first: anything that is not simply fine,
    /// in order.
    pub fn fit_problems(&self) -> (r: Vec<&FitCheck>)
        ensures
            r@.map_values(|c: &FitCheck| *c) == self.fit@.filter(
                |c: FitCheck| c.status != FitStatus::Passed,
            ),
    {
        let ghost keep = |c: FitCheck| c.status != FitStatus::Passed;
        let mut out: Vec<&FitCheck> = Vec::new();
        let mut i: usize = 0;
        assert(out@.map_values(|c: &FitCheck| *c) =~= self.fit@.take(0).filter(keep)) by {
            reveal_with_fuel(Seq::<_>::filter, 1);
        }
        while i < self.fit.len()
            invariant
                i <= self.fit@.len(),
                keep == (|c: FitCheck| c.status != FitStatus::Passed),
                out@.map_values(|c: &FitCheck| *c) =~= self.fit@.take(i as int).filter(keep),
            decreases self.fit.len() - i,
        {
            reveal_with_fuel(Seq::<_>::filter, 1);
            assert(self.fit@.take(i + 1).drop_last() =~= self.fit@.take(i as int));
            let check = &self.fit[i];
            let ghost before = out@;
            let fine = match check.status {
                FitStatus::Passed => true,
                _ => false,
            };
            if !fine {
                out.push(check);
                assert(out@.map_values(|c: &FitCheck| *c) =~= before.map_values(
                    |c: &FitCheck| *c,
                ).push(*check));
            }
            i = i + 1;
        }
        assert(self.fit@.take(self.fit@.len() as int) =~= self.fit@);
        out
    }
}

/// Each string of `items` with `prefix` in front of it.
pub open spec fn prefixed(prefix: Seq<char>, items: Seq<String>) -> Seq<Seq<char>> {
    items.map_values(|s: String| prefix + s@)
}

/// How an orphaned entry is listed: `orphaned: id (uuid)`.
pub open spec fn orphan_line(o: Orphan) -> Seq<char> {
    "orphaned: "@ + o.id@ + " ("@ + o.uuid@ + ")"@
}

/// The lines a report turns into: the files written, the warnings, the
/// orphaned entries and the notes, in that order.
pub open spec fn report_lines(report: RebuildReport) -> Seq<Seq<char>> {
    prefixed("wrote "@, report.files@) + prefixed("warning: "@, report.warnings@)
        + report.orphans@.map_values(|o: Orphan| orphan_line(o)) + report.notes@.map_values(
        |s: String| s@,
    )
}

/// Appends `prefix` followed by each of `items` to `lines`.
fn push_prefixed(lines: &mut Vec<String>, prefix: &str, items: &Vec<String>)
    ensures
        final(lines)@.map_values(|s: String| s@) == old(lines)@.map_values(|s: String| s@)
            + prefixed(prefix@, items@),
{
    let ghost start = lines@.map_values(|s: String| s@);
    let mut i: usize = 0;
    while i < items.len()
        invariant
            i <= items@.len(),
            lines@.map_values(|s: String| s@) == start + prefixed(prefix@, items@).take(i as int),
        decreases items.len() - i,
    {
        let ghost before = lines@;
        let mut line = prefix.to_owned();
        line.append(items[i].as_str());
        lines.push(line);
        assert(lines@.map_values(|s: String| s@) =~= before.map_values(|s: String| s@).push(
            prefix@ + items@[i as int]@,
        ));
        assert(prefixed(prefix@, items@).take(i + 1) =~= prefixed(prefix@, items@).take(
            i as int,
        ).push(prefix@ + items@[i as int]@));
        i = i + 1;
    }
    assert(prefixed(prefix@, items@).take(items@.len() as int) =~= prefixed(prefix@, items@));
}

/// What a button press reports after a rebuild: every line of the report,
/// and success exactly when the report is clean.
pub fn to_action(headline: &str, report: RebuildReport) -> (r: ActionReport)
    ensures
        r.headline@ == headline@,
        r.ok == (report.warnings@.len() == 0 && report.orphans@.len() == 0 && forall|i: int|
            0 <= i < report.fit@.len() ==> #[trigger] report.fit@[i].status != FitStatus::Problem),
        r.lines@.map_values(|s: String| s@) == report_lines(report),
{
    let ok = report.is_clean();
    let mut lines: Vec<String> = Vec::new();
    assert(lines@.map_values(|s: String| s@) =~= Seq::<Seq<char>>::empty());
    push_prefixed(&mut lines, "wrote ", &report.files);
    push_prefixed(&mut lines, "warning: ", &report.warnings);
    let ghost start = lines@.map_values(|s: String| s@);
    let ghost orphans = report.orphans@.map_values(|o: Orphan| orphan_line(o));
    let mut i: usize = 0;
    while i < report.orphans.len()
        invariant
            i <= report.orphans@.len(),
            orphans == report.orphans@.map_values(|o: Orphan| orphan_line(o)),
            lines@.map_values(|s: String| s@) == start + orphans.take(i as int),
        decreases report.orphans.len() - i,
    {
        let ghost before = lines@;
        let orphan = &report.orphans[i];
        let mut line = "orphaned: ".to_owned();
        line.append(orphan.id.as_str());
        line.append(" (");
        line.append(orphan.uuid.as_str());
        line.append(")");
        lines.push(line);
        assert(lines@.map_values(|s: String| s@) =~= before.map_values(|s: String| s@).push(
            orphan_line(*orphan),
        ));
        assert(orphans.take(i + 1) =~= orphans.take(i as int).push(orphan_line(*orphan)));
        i = i + 1;
    }
    assert(orphans.take(report.orphans@.len() as int) =~= orphans);
    let ghost start = lines@.map_values(|s: String| s@);
    let ghost notes = report.notes@.map_values(|s: String| s@);
    let mut i: usize = 0;
    while i < report.notes.len()
        invariant
            i <= report.notes@.len(),
            notes == report.notes@.map_values(|s: String| s@),
            lines@.map_values(|s: String| s@) == start + notes.take(i as int),
        decreases report.notes.len() - i,
    {
        let ghost before = lines@;
        lines.push(report.notes[i].clone());
        assert(lines@.map_values(|s: String| s@) =~= before.map_values(|s: String| s@).push(
            notes[i as int],
        ));
        assert(notes.take(i + 1) =~= notes.take(i as int).push(notes[i as int]));
        i = i + 1;
    }
    assert(notes.take(report.notes@.len() as int) =~= notes);
    ActionReport { headline: headline.to_owned(), lines, ok }
}

/// The enclosure layer name a role is listed under.
pub open spec fn role_layer_name_of(role: LayerRole) -> Seq<char> {
    match role {
        LayerRole::Datums => "Enclosure.Datums"@,
        LayerRole::Cuts => "Enclosure.Cuts"@,
        LayerRole::Top => "Enclosure.Top"@,
        LayerRole::Bottom => "Enclosure.Bottom"@,
        LayerRole::Solids => "Enclosure.Solids"@,
        LayerRole::Outline => "Enclosure"@,
        LayerRole::BoardOutline => "Edge.Cuts"@,
    }
}

/// The enclosure layer name a graphic on a layer with this role is listed
/// under.
pub fn role_layer_name(role: LayerRole) -> (r: &'static str)
    ensures
        r@ == role_layer_name_of(role),
{
    match role {
        LayerRole::Datums => "Enclosure.Datums",
        LayerRole::Cuts => "Enclosure.Cuts",
        LayerRole::Top => "Enclosure.Top",
        LayerRole::Bottom => "Enclosure.Bottom",
        LayerRole::Solids => "Enclosure.Solids",
        LayerRole::Outline => "Enclosure",
        LayerRole::BoardOutline => "Edge.Cuts",
    }
}

/// One graphic on an enclosure layer, for listing and association.
#[derive(Debug, Clone, PartialEq)]
pub struct GraphicSummary {
    pub uuid: String,
    pub layer: &'static str,
    pub closed: bool,
    /// Size and position, so a user can tell two rectangles apart.
    pub description: String,
    /// The id of the project entry already bound to this graphic, if any.
    pub bound_to: Option<String>,
}

/// The id of the first of the first `n` datums bound to graphic `uuid`.
pub open spec fn datum_bound(datums: Seq<DatumConfig>, uuid: Seq<char>, n: int) -> Option<
    Seq<char>,
>
    decreases n,
{
    if n <= 0 {
        None
    } else {
        match datum_bound(datums, uuid, n - 1) {
            Some(id) => Some(id),
            None => if datums[n - 1].graphic_uuid@ == uuid {
                Some(datums[n - 1].id@)
            } else {
                None
            },
        }
    }
}

/// The id of the first of the first `n` features bound to graphic `uuid`.
pub open spec fn feature_bound(features: Seq<FeatureBinding>, uuid: Seq<char>, n: int) -> Option<
    Seq<char>,
>
    decreases n,
{
    if n <= 0 {
        None
    } else {
        match feature_bound(features, uuid, n - 1) {
            Some(id) => Some(id),
            None => if features[n - 1].graphic_uuid@ == uuid {
                Some(features[n - 1].id@)
            } else {
                None
            },
        }
    }
}

/// The project entry bound to graphic `uuid`: a datum first, then a feature.
pub open spec fn bound_entry(
    datums: Seq<DatumConfig>,
    features: Seq<FeatureBinding>,
    uuid: Seq<char>,
) -> Option<Seq<char>> {
    match datum_bound(datums, uuid, datums.len() as int) {
        Some(id) => Some(id),
        None => feature_bound(features, uuid, features.len() as int),
    }
}

proof fn lemma_datum_bound_stable(datums: Seq<DatumConfig>, uuid: Seq<char>, m: int, n: int)
    requires
        0 <= m <= n,
        datum_bound(datums, uuid, m) is Some,
    ensures
        datum_bound(datums, uuid, n) == datum_bound(datums, uuid, m),
    decreases n - m,
{
    if m < n {
        lemma_datum_bound_stable(datums, uuid, m, n - 1);
    }
}

proof fn lemma_feature_bound_stable(features: Seq<FeatureBinding>, uuid: Seq<char>, m: int, n: int)
    requires
        0 <= m <= n,
        feature_bound(features, uuid, m) is Some,
    ensures
        feature_bound(features, uuid, n) == feature_bound(features, uuid, m),
    decreases n - m,
{
    if m < n {
        lemma_feature_bound_stable(features, uuid, m, n - 1);
    }
}

/// The id of the project entry already bound to the graphic `uuid`, looking
/// at datums before features.
pub fn bound_to(datums: &[DatumConfig], features: &[FeatureBinding], uuid: &str) -> (r: Option<
    String,
>)
    ensures
        match bound_entry(datums@, features@, uuid@) {
            Some(id) => r matches Some(s) && s@ == id,
            None => r is None,
        },
{
    let mut i: usize = 0;
    while i < datums.len()
        invariant
            i <= datums@.len(),
            datum_bound(datums@, uuid@, i as int) is None,
        decreases datums.len() - i,
    {
        if str_eq(datums[i].graphic_uuid.as_str(), uuid) {
            proof {
                lemma_datum_bound_stable(datums@, uuid@, i + 1, datums@.len() as int);
            }
            return Some(datums[i].id.clone());
        }
        i = i + 1;
    }
    let mut k: usize = 0;
    while k < features.len()
        invariant
            k <= features@.len(),
            datum_bound(datums@, uuid@, datums@.len() as int) is None,
            feature_bound(features@, uuid@, k as int) is None,
        decreases features.len() - k,
    {
        if str_eq(features[k].graphic_uuid.as_str(), uuid) {
            proof {
                lemma_feature_bound_stable(features@, uuid@, k + 1, features@.len() as int);
            }
            return Some(features[k].id.clone());
        }
        k = k + 1;
    }
    None
}

} // verus!
