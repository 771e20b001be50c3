//! What the project's entries and the drawn shapes come to, before any
//! geometry is made: which entries lost their graphic, and what each shape on
//! a feature layer will be.
//!
//! What a shape does comes from the layer it is drawn on; an entry in the
//! project file only adds what a drawing cannot carry. Entries whose graphic
//! was deleted are orphans, and are never re-bound to another object by
//! guesswork.

use crate::config::{CutFace, DatumConfig, FeatureBinding};
use crate::report::{Orphan, OrphanKind, Warning};
use crate::source::{default_id, default_id_of, LayerRole};
use crate::text::{contains_string, str_eq, string_views};
use vstd::prelude::*;
use vstd::string::StringExecFns;

verus! {

/// `kind "id" references a deleted KiCad graphic`.
pub open spec fn deleted_message(kind: Seq<char>, id: Seq<char>) -> Seq<char> {
    kind + " \""@ + id + "\" references a deleted KiCad graphic"@
}

/// The datums among the first `n` whose graphic is not in `present`, as
/// `(id, uuid)`.
pub open spec fn missing_datums(datums: Seq<DatumConfig>, present: Seq<Seq<char>>, n: int) -> Seq<
    (Seq<char>, Seq<char>),
>
    decreases n,
{
    if n <= 0 {
        Seq::empty()
    } else {
        let rest = missing_datums(datums, present, n - 1);
        let d = datums[n - 1];
        if present.contains(d.graphic_uuid@) {
            rest
        } else {
            rest.push((d.id@, d.graphic_uuid@))
        }
    }
}

/// The features among the first `n` whose graphic is not in `present`, as
/// `(id, uuid)`.
pub open spec fn missing_features(
    features: Seq<FeatureBinding>,
    present: Seq<Seq<char>>,
    n: int,
) -> Seq<(Seq<char>, Seq<char>)>
    decreases n,
{
    if n <= 0 {
        Seq::empty()
    } else {
        let rest = missing_features(features, present, n - 1);
        let f = features[n - 1];
        if present.contains(f.graphic_uuid@) {
            rest
        } else {
            rest.push((f.id@, f.graphic_uuid@))
        }
    }
}

/// The value of an orphan: id, uuid and kind.
pub open spec fn orphan_view(o: Orphan) -> (Seq<char>, Seq<char>, OrphanKind) {
    (o.id@, o.uuid@, o.kind)
}

/// The orphans of a project: its datums whose graphic is gone, then its
/// features whose graphic is gone, each in file order.
pub open spec fn orphans_of(
    datums: Seq<DatumConfig>,
    features: Seq<FeatureBinding>,
    present: Seq<Seq<char>>,
) -> Seq<(Seq<char>, Seq<char>, OrphanKind)> {
    missing_datums(datums, present, datums.len() as int).map_values(
        |p: (Seq<char>, Seq<char>)| (p.0, p.1, OrphanKind::Datum),
    ) + missing_features(features, present, features.len() as int).map_values(
        |p: (Seq<char>, Seq<char>)| (p.0, p.1, OrphanKind::Feature),
    )
}

/// The word an orphan's warning starts with.
pub open spec fn kind_word(kind: OrphanKind) -> Seq<char> {
    match kind {
        OrphanKind::Datum => "datum"@,
        OrphanKind::Feature => "feature"@,
        OrphanKind::MountingHole => "mounting hole"@,
    }
}

/// The warning an orphan raises: about its graphic, saying which entry lost it.
pub open spec fn orphan_warning_is(w: Warning, o: Orphan) -> bool {
    &&& w.uuid matches Some(u) && u@ == o.uuid@
    &&& w.message@ == deleted_message(kind_word(o.kind), o.id@)
}

fn orphan_with_warning(id: &String, uuid: &String, kind: OrphanKind) -> (r: (Orphan, Warning))
    requires
        kind != OrphanKind::MountingHole,
    ensures
        r.0.id@ == id@,
        r.0.uuid@ == uuid@,
        r.0.kind == kind,
        orphan_warning_is(r.1, r.0),
{
    let mut message = match kind {
        OrphanKind::Datum => "datum".to_owned(),
        _ => "feature".to_owned(),
    };
    message.append(" \"");
    message.append(id.as_str());
    message.append("\" references a deleted KiCad graphic");
    let orphan = Orphan { id: id.clone(), uuid: uuid.clone(), kind };
    (orphan, Warning { message, uuid: Some(uuid.clone()) })
}

/// The entries whose KiCad graphic no longer exists, each with the warning it
/// raises. `present` holds the UUIDs of the graphics on the board.
pub fn find_orphans(datums: &[DatumConfig], features: &[FeatureBinding], present: &Vec<String>) -> (r: (
    Vec<Orphan>,
    Vec<Warning>,
))
    ensures
        r.0@.map_values(|o: Orphan| orphan_view(o)) == orphans_of(
            datums@,
            features@,
            string_views(present@),
        ),
        r.1@.len() == r.0@.len(),
        forall|i: int| 0 <= i < r.0@.len() ==> orphan_warning_is(#[trigger] r.1@[i], r.0@[i]),
{
    let ghost p = string_views(present@);
    let ghost kinds_d = |q: (Seq<char>, Seq<char>)| (q.0, q.1, OrphanKind::Datum);
    let mut orphans: Vec<Orphan> = Vec::new();
    let mut warnings: Vec<Warning> = Vec::new();
    let mut i: usize = 0;
    while i < datums.len()
        invariant
            i <= datums@.len(),
            p == string_views(present@),
            orphans@.map_values(|o: Orphan| orphan_view(o)) == missing_datums(
                datums@,
                p,
                i as int,
            ).map_values(|q: (Seq<char>, Seq<char>)| (q.0, q.1, OrphanKind::Datum)),
            warnings@.len() == orphans@.len(),
            forall|k: int|
                0 <= k < orphans@.len() ==> orphan_warning_is(#[trigger] warnings@[k], orphans@[k]),
        decreases datums.len() - i,
    {
        let datum = &datums[i];
        if !contains_string(present, datum.graphic_uuid.as_str()) {
            let ghost before = orphans@;
            let (orphan, warning) = orphan_with_warning(
                &datum.id,
                &datum.graphic_uuid,
                OrphanKind::Datum,
            );
            orphans.push(orphan);
            warnings.push(warning);
            assert(orphans@.map_values(|o: Orphan| orphan_view(o)) =~= before.map_values(
                |o: Orphan| orphan_view(o),
            ).push((datum.id@, datum.graphic_uuid@, OrphanKind::Datum)));
            assert(missing_datums(datums@, p, i + 1) == missing_datums(datums@, p, i as int).push(
                (datum.id@, datum.graphic_uuid@),
            ));
            assert(missing_datums(datums@, p, i + 1).map_values(
                |q: (Seq<char>, Seq<char>)| (q.0, q.1, OrphanKind::Datum),
            ) =~= missing_datums(datums@, p, i as int).map_values(
                |q: (Seq<char>, Seq<char>)| (q.0, q.1, OrphanKind::Datum),
            ).push((datum.id@, datum.graphic_uuid@, OrphanKind::Datum)));
        }
        i = i + 1;
    }
    let ghost head = orphans@.map_values(|o: Orphan| orphan_view(o));
    let mut k: usize = 0;
    assert(missing_features(features@, p, 0).map_values(
        |q: (Seq<char>, Seq<char>)| (q.0, q.1, OrphanKind::Feature),
    ) =~= Seq::<(Seq<char>, Seq<char>, OrphanKind)>::empty());
    assert(orphans@.map_values(|o: Orphan| orphan_view(o)) =~= head + Seq::<
        (Seq<char>, Seq<char>, OrphanKind),
    >::empty());
    while k < features.len()
        invariant
            k <= features@.len(),
            p == string_views(present@),
            orphans@.map_values(|o: Orphan| orphan_view(o)) == head + missing_features(
                features@,
                p,
                k as int,
            ).map_values(|q: (Seq<char>, Seq<char>)| (q.0, q.1, OrphanKind::Feature)),
            warnings@.len() == orphans@.len(),
            forall|j: int|
                0 <= j < orphans@.len() ==> orphan_warning_is(#[trigger] warnings@[j], orphans@[j]),
        decreases features.len() - k,
    {
        let feature = &features[k];
        if !contains_string(present, feature.graphic_uuid.as_str()) {
            let ghost before = orphans@;
            let (orphan, warning) = orphan_with_warning(
                &feature.id,
                &feature.graphic_uuid,
                OrphanKind::Feature,
            );
            orphans.push(orphan);
            warnings.push(warning);
            assert(orphans@.map_values(|o: Orphan| orphan_view(o)) =~= before.map_values(
                |o: Orphan| orphan_view(o),
            ).push((feature.id@, feature.graphic_uuid@, OrphanKind::Feature)));
            assert(missing_features(features@, p, k + 1).map_values(
                |q: (Seq<char>, Seq<char>)| (q.0, q.1, OrphanKind::Feature),
            ) =~= missing_features(features@, p, k as int).map_values(
                |q: (Seq<char>, Seq<char>)| (q.0, q.1, OrphanKind::Feature),
            ).push((feature.id@, feature.graphic_uuid@, OrphanKind::Feature)));
        }
        k = k + 1;
    }
    (orphans, warnings)
}

/// An entry is an orphan exactly when its graphic is gone: every datum whose
/// graphic is missing is listed, and everything listed is missing.
pub proof fn lemma_orphans_are_exactly_the_missing(
    datums: Seq<DatumConfig>,
    present: Seq<Seq<char>>,
    n: int,
)
    requires
        0 <= n <= datums.len(),
    ensures
        forall|i: int|
            0 <= i < n && !present.contains(#[trigger] datums[i].graphic_uuid@) ==> missing_datums(
                datums,
                present,
                n,
            ).contains((datums[i].id@, datums[i].graphic_uuid@)),
        forall|j: int|
            0 <= j < missing_datums(datums, present, n).len() ==> !present.contains(
                #[trigger] missing_datums(datums, present, n)[j].1,
            ),
    decreases n,
{
    if n > 0 {
        lemma_orphans_are_exactly_the_missing(datums, present, n - 1);
        let rest = missing_datums(datums, present, n - 1);
        let d = datums[n - 1];
        if !present.contains(d.graphic_uuid@) {
            let all = rest.push((d.id@, d.graphic_uuid@));
            assert(all[rest.len() as int] == (d.id@, d.graphic_uuid@));
            assert forall|i: int|
                0 <= i < n && !present.contains(#[trigger] datums[i].graphic_uuid@) implies all.contains(
                (datums[i].id@, datums[i].graphic_uuid@),
            ) by {
                if i < n - 1 {
                    let j = choose|j: int|
                        0 <= j < rest.len() && rest[j] == (datums[i].id@, datums[i].graphic_uuid@);
                    assert(all[j] == rest[j]);
                }
            }
            assert forall|j: int| 0 <= j < all.len() implies !present.contains(#[trigger] all[j].1) by {
                if j < rest.len() {
                    assert(all[j] == rest[j]);
                }
            }
        }
    }
}

/// The same holds of feature entries: every feature whose graphic is missing
/// is listed, and everything listed is missing.
pub proof fn lemma_feature_orphans_are_exactly_the_missing(
    features: Seq<FeatureBinding>,
    present: Seq<Seq<char>>,
    n: int,
)
    requires
        0 <= n <= features.len(),
    ensures
        forall|i: int|
            0 <= i < n && !present.contains(#[trigger] features[i].graphic_uuid@)
                ==> missing_features(features, present, n).contains(
                (features[i].id@, features[i].graphic_uuid@),
            ),
        forall|j: int|
            0 <= j < missing_features(features, present, n).len() ==> !present.contains(
                #[trigger] missing_features(features, present, n)[j].1,
            ),
    decreases n,
{
    if n > 0 {
        lemma_feature_orphans_are_exactly_the_missing(features, present, n - 1);
        let rest = missing_features(features, present, n - 1);
        let f = features[n - 1];
        if !present.contains(f.graphic_uuid@) {
            let all = rest.push((f.id@, f.graphic_uuid@));
            assert(all[rest.len() as int] == (f.id@, f.graphic_uuid@));
            assert forall|i: int|
                0 <= i < n && !present.contains(
                    #[trigger] features[i].graphic_uuid@,
                ) implies all.contains((features[i].id@, features[i].graphic_uuid@)) by {
                if i < n - 1 {
                    let j = choose|j: int|
                        0 <= j < rest.len() && rest[j] == (
                            features[i].id@,
                            features[i].graphic_uuid@,
                        );
                    assert(all[j] == rest[j]);
                }
            }
            assert forall|j: int| 0 <= j < all.len() implies !present.contains(#[trigger] all[j].1) by {
                if j < rest.len() {
                    assert(all[j] == rest[j]);
                }
            }
        }
    }
}

/// What a shape on a feature layer will be.
#[derive(Debug, Clone, PartialEq, Eq)]
pub enum Treatment {
    /// Not a feature layer, or switched off by its entry.
    Ignored,
    /// Left out, for the reason the warning gives.
    Skipped(Warning),
    /// A hole straight through the lid or the floor.
    Hole { id: String, face: CutFace },
    /// An opening through the side wall of a datum.
    Side { id: String, datum: String },
    /// An added solid.
    Solid { id: String },
}

/// The first of the first `n` entries bound to graphic `uuid`.
pub open spec fn entry_for(features: Seq<FeatureBinding>, uuid: Seq<char>, n: int) -> Option<
    FeatureBinding,
>
    decreases n,
{
    if n <= 0 {
        None
    } else {
        match entry_for(features, uuid, n - 1) {
            Some(e) => Some(e),
            None => if features[n - 1].graphic_uuid@ == uuid {
                Some(features[n - 1])
            } else {
                None
            },
        }
    }
}

proof fn lemma_entry_for_stable(features: Seq<FeatureBinding>, uuid: Seq<char>, m: int, n: int)
    requires
        0 <= m <= n,
        entry_for(features, uuid, m) is Some,
    ensures
        entry_for(features, uuid, n) == entry_for(features, uuid, m),
    decreases n - m,
{
    if m < n {
        lemma_entry_for_stable(features, uuid, m, n - 1);
    }
}

/// The layers whose shapes are features: cuts, top, bottom and solids.
pub open spec fn is_feature_role(role: LayerRole) -> bool {
    role == LayerRole::Cuts || role == LayerRole::Top || role == LayerRole::Bottom || role
        == LayerRole::Solids
}

/// Why an open shape is skipped.
pub open spec fn not_closed_message(id: Seq<char>) -> Seq<char> {
    "\""@ + id
        + "\" is not a closed shape, so it was skipped. Draw a rectangle, circle or closed polygon."@
}

/// Why a side opening with no datum is skipped.
pub open spec fn no_datum_message(id: Seq<char>) -> Seq<char> {
    "\""@ + id
        + "\" is on the cuts layer but is not attached to a datum, so it was skipped. Add it as a cutout against a datum."@
}

/// Why a side opening whose datum is unavailable is skipped.
pub open spec fn unavailable_datum_message(id: Seq<char>, datum: Seq<char>) -> Seq<char> {
    "\""@ + id + "\" was skipped: its datum \""@ + datum + "\" is unavailable"@
}

/// A warning about graphic `uuid` that says `message`.
pub open spec fn warns(w: Warning, uuid: Seq<char>, message: Seq<char>) -> bool {
    &&& w.uuid matches Some(u) && u@ == uuid
    &&& w.message@ == message
}

/// What a shape with `role` and `uuid` comes to, given the project's feature
/// entries and the ids of the datums that are available.
pub open spec fn treatment_is(
    t: Treatment,
    role: LayerRole,
    uuid: Seq<char>,
    closed: bool,
    features: Seq<FeatureBinding>,
    available: Seq<Seq<char>>,
) -> bool {
    let entry = entry_for(features, uuid, features.len() as int);
    if !is_feature_role(role) || (entry matches Some(e) && !e.enabled) {
        t is Ignored
    } else {
        let id = match entry {
            Some(e) => e.id@,
            None => default_id_of(role, uuid),
        };
        if !closed {
            t matches Treatment::Skipped(w) && warns(w, uuid, not_closed_message(id))
        } else {
            match role {
                LayerRole::Top => t matches Treatment::Hole { id: x, face } && x@ == id && face
                    == CutFace::Top,
                LayerRole::Bottom => t matches Treatment::Hole { id: x, face } && x@ == id && face
                    == CutFace::Bottom,
                LayerRole::Solids => t matches Treatment::Solid { id: x } && x@ == id,
                _ => match entry {
                    Some(e) if e.datum is Some => if available.contains(e.datum->0@) {
                        t matches Treatment::Side { id: x, datum: d } && x@ == id && d@
                            == e.datum->0@
                    } else {
                        t matches Treatment::Skipped(w) && warns(
                            w,
                            uuid,
                            unavailable_datum_message(id, e.datum->0@),
                        )
                    },
                    _ => t matches Treatment::Skipped(w) && warns(w, uuid, no_datum_message(id)),
                },
            }
        }
    }
}

/// The id of what a shape is made into, when it is made into something.
pub open spec fn made_id(t: Treatment) -> Option<Seq<char>> {
    match t {
        Treatment::Hole { id, .. } => Some(id@),
        Treatment::Side { id, .. } => Some(id@),
        Treatment::Solid { id } => Some(id@),
        _ => None,
    }
}

/// Shapes are never made from entries that are switched off, nor bound to an
/// entry that names another graphic: a shape whose first entry is disabled is
/// ignored, and a hole, side opening or solid takes the id of the entry bound
/// to its own uuid, or else a name made from that uuid.
pub proof fn lemma_treatment_follows_its_own_entry(
    t: Treatment,
    role: LayerRole,
    uuid: Seq<char>,
    closed: bool,
    features: Seq<FeatureBinding>,
    available: Seq<Seq<char>>,
)
    requires
        treatment_is(t, role, uuid, closed, features, available),
    ensures
        (entry_for(features, uuid, features.len() as int) matches Some(e) && !e.enabled) ==> t is Ignored,
        entry_for(features, uuid, features.len() as int) matches Some(e) ==> e.graphic_uuid@ == uuid,
        made_id(t) matches Some(id) ==> id == match entry_for(features, uuid, features.len() as int) {
            Some(e) => e.id@,
            None => default_id_of(role, uuid),
        },
{
    lemma_entry_for_uuid(features, uuid, features.len() as int);
}

/// A shape drawn on the board never follows an orphaned entry: the entry a
/// graphic on the board is bound to is not among the orphans. With
/// [`lemma_treatment_follows_its_own_entry`], no hole, side opening or solid
/// is made from an entry whose graphic is gone.
pub proof fn lemma_shapes_never_follow_orphans(
    features: Seq<FeatureBinding>,
    uuid: Seq<char>,
    present: Seq<Seq<char>>,
)
    requires
        present.contains(uuid),
    ensures
        entry_for(features, uuid, features.len() as int) matches Some(e) ==> !missing_features(
            features,
            present,
            features.len() as int,
        ).contains((e.id@, e.graphic_uuid@)),
{
    lemma_entry_for_uuid(features, uuid, features.len() as int);
    lemma_feature_orphans_are_exactly_the_missing(features, present, features.len() as int);
    if let Some(e) = entry_for(features, uuid, features.len() as int) {
        let missing = missing_features(features, present, features.len() as int);
        if missing.contains((e.id@, e.graphic_uuid@)) {
            let j = choose|j: int| 0 <= j < missing.len() && missing[j] == (e.id@, e.graphic_uuid@);
            assert(!present.contains(missing[j].1));
        }
    }
}

proof fn lemma_entry_for_uuid(features: Seq<FeatureBinding>, uuid: Seq<char>, n: int)
    ensures
        entry_for(features, uuid, n) matches Some(e) ==> e.graphic_uuid@ == uuid,
    decreases n,
{
    if n > 0 {
        lemma_entry_for_uuid(features, uuid, n - 1);
    }
}

/// The first entry bound to graphic `uuid`.
fn find_entry<'a>(features: &'a [FeatureBinding], uuid: &str) -> (r: Option<&'a FeatureBinding>)
    ensures
        match entry_for(features@, uuid@, features@.len() as int) {
            Some(e) => r matches Some(f) && *f == e,
            None => r is None,
        },
{
    let mut i: usize = 0;
    while i < features.len()
        invariant
            i <= features@.len(),
            entry_for(features@, uuid@, i as int) is None,
        decreases features.len() - i,
    {
        if str_eq(features[i].graphic_uuid.as_str(), uuid) {
            proof {
                lemma_entry_for_stable(features@, uuid@, i + 1, features@.len() as int);
            }
            return Some(&features[i]);
        }
        i = i + 1;
    }
    None
}

/// Decides what a drawn shape will be: a hole, a side opening, an added
/// solid, or nothing, with the reason when it is skipped. `closed` says
/// whether the shape forms a closed region on its own; `available` holds the
/// ids of the datums that resolved.
pub fn treat(
    role: LayerRole,
    uuid: &str,
    closed: bool,
    features: &[FeatureBinding],
    available: &Vec<String>,
) -> (r: Treatment)
    ensures
        treatment_is(r, role, uuid@, closed, features@, string_views(available@)),
{
    let feature_role = match role {
        LayerRole::Cuts | LayerRole::Top | LayerRole::Bottom | LayerRole::Solids => true,
        _ => false,
    };
    if !feature_role {
        return Treatment::Ignored;
    }
    let entry = find_entry(features, uuid);
    let id = match entry {
        Some(e) => {
            if !e.enabled {
                return Treatment::Ignored;
            }
            e.id.clone()
        },
        None => default_id(role, uuid),
    };
    if !closed {
        let mut message = "\"".to_owned();
        message.append(id.as_str());
        message.append(
            "\" is not a closed shape, so it was skipped. Draw a rectangle, circle or closed polygon.",
        );
        return Treatment::Skipped(Warning { message, uuid: Some(uuid.to_owned()) });
    }
    match role {
        LayerRole::Top => Treatment::Hole { id, face: CutFace::Top },
        LayerRole::Bottom => Treatment::Hole { id, face: CutFace::Bottom },
        LayerRole::Solids => Treatment::Solid { id },
        _ => {
            let datum = match entry {
                Some(e) => match &e.datum {
                    Some(d) => Some(d),
                    None => None,
                },
                None => None,
            };
            match datum {
                Some(d) => {
                    if contains_string(available, d.as_str()) {
                        Treatment::Side { id, datum: d.clone() }
                    } else {
                        let mut message = "\"".to_owned();
                        message.append(id.as_str());
                        message.append("\" was skipped: its datum \"");
                        message.append(d.as_str());
                        message.append("\" is unavailable");
                        Treatment::Skipped(Warning { message, uuid: Some(uuid.to_owned()) })
                    }
                },
                None => {
                    let mut message = "\"".to_owned();
                    message.append(id.as_str());
                    message.append(
                        "\" is on the cuts layer but is not attached to a datum, so it was skipped. Add it as a cutout against a datum.",
                    );
                    Treatment::Skipped(Warning { message, uuid: Some(uuid.to_owned()) })
                },
            }
        },
    }
}

/// Why the enclosure cannot be resolved from the board as drawn.
#[derive(Debug, Clone, PartialEq, Eq)]
pub enum ResolveError {
    /// `Edge.Cuts` is empty: there is no board outline.
    NoBoardOutline,
    /// Nothing is drawn on the enclosure outline layer.
    NoEnclosureOutline,
    /// A datum's graphic is not a straight line.
    DatumNotALine { id: String },
}

/// The outline problem, if any, of a board whose read graphics have these
/// roles: no board outline first, then no enclosure outline.
pub open spec fn outline_problem_of(roles: Seq<LayerRole>) -> Option<ResolveError> {
    if !roles.contains(LayerRole::BoardOutline) {
        Some(ResolveError::NoBoardOutline)
    } else if !roles.contains(LayerRole::Outline) {
        Some(ResolveError::NoEnclosureOutline)
    } else {
        None
    }
}

fn has_role(roles: &[LayerRole], role: LayerRole) -> (r: bool)
    ensures
        r == roles@.contains(role),
{
    let mut i: usize = 0;
    while i < roles.len()
        invariant
            i <= roles@.len(),
            forall|k: int| 0 <= k < i ==> roles@[k] != role,
        decreases roles.len() - i,
    {
        if roles[i] == role {
            assert(roles@[i as int] == role);
            return true;
        }
        i = i + 1;
    }
    false
}

/// Whether there is anything to build: the board outline and the drawn
/// enclosure outline must both be there. `roles` are the roles of the
/// graphics read from the board.
pub fn outline_problem(roles: &[LayerRole]) -> (r: Option<ResolveError>)
    ensures
        r == outline_problem_of(roles@),
{
    if !has_role(roles, LayerRole::BoardOutline) {
        Some(ResolveError::NoBoardOutline)
    } else if !has_role(roles, LayerRole::Outline) {
        Some(ResolveError::NoEnclosureOutline)
    } else {
        None
    }
}

/// `datum "id" points at a graphic that is no longer on the datum layer`.
pub open spec fn off_layer_message(id: Seq<char>) -> Seq<char> {
    "datum \""@ + id + "\" points at a graphic that is no longer on the datum layer"@
}

/// What a datum whose graphic is on the board comes to: an error when the
/// graphic (headed `head`) is not a straight line, and otherwise a warning
/// when it is no longer on the datum layer.
pub fn check_datum(datum: &DatumConfig, role: LayerRole, head: &str) -> (r: Result<
    Option<Warning>,
    ResolveError,
>)
    ensures
        head@ != "gr_line"@ ==> (r matches Err(ResolveError::DatumNotALine { id }) && id@
            == datum.id@),
        head@ == "gr_line"@ && role == LayerRole::Datums ==> r == Ok::<
            Option<Warning>,
            ResolveError,
        >(None),
        head@ == "gr_line"@ && role != LayerRole::Datums ==> (r matches Ok(Some(w)) && warns(
            w,
            datum.graphic_uuid@,
            off_layer_message(datum.id@),
        )),
{
    if !str_eq(head, "gr_line") {
        return Err(ResolveError::DatumNotALine { id: datum.id.clone() });
    }
    match role {
        LayerRole::Datums => Ok(None),
        _ => {
            let mut message = "datum \"".to_owned();
            message.append(datum.id.as_str());
            message.append("\" points at a graphic that is no longer on the datum layer");
            Ok(Some(Warning { message, uuid: Some(datum.graphic_uuid.clone()) }))
        },
    }
}

/// The roles whose graphics are datums and features, the ones entries bind.
pub open spec fn is_entry_role(role: LayerRole) -> bool {
    role != LayerRole::BoardOutline && role != LayerRole::Outline
}

/// Whether a graphic on a layer with this role can be bound by an entry.
pub fn entry_role(role: LayerRole) -> (r: bool)
    ensures
        r == is_entry_role(role),
{
    match role {
        LayerRole::BoardOutline | LayerRole::Outline => false,
        _ => true,
    }
}

/// The ids of the datums, among the first `n`, whose graphic is present.
pub open spec fn available_of(datums: Seq<DatumConfig>, present: Seq<Seq<char>>, n: int) -> Seq<
    Seq<char>,
>
    decreases n,
{
    if n <= 0 {
        Seq::empty()
    } else {
        let rest = available_of(datums, present, n - 1);
        if present.contains(datums[n - 1].graphic_uuid@) {
            rest.push(datums[n - 1].id@)
        } else {
            rest
        }
    }
}

/// The ids of the datums a side opening can use: those whose graphic is on
/// the board, in order.
pub fn available_datums(datums: &[DatumConfig], present: &Vec<String>) -> (r: Vec<String>)
    ensures
        string_views(r@) == available_of(datums@, string_views(present@), datums@.len() as int),
{
    let mut out: Vec<String> = Vec::new();
    let mut i: usize = 0;
    while i < datums.len()
        invariant
            i <= datums@.len(),
            string_views(out@) == available_of(datums@, string_views(present@), i as int),
        decreases datums.len() - i,
    {
        if contains_string(present, datums[i].graphic_uuid.as_str()) {
            let ghost before = out@;
            out.push(datums[i].id.clone());
            assert(string_views(out@) =~= string_views(before).push(datums@[i as int].id@));
        }
        i = i + 1;
    }
    out
}

/// Why a graphic cannot be bound to a new entry.
#[derive(Debug, Clone, Copy, PartialEq, Eq, Structural)]
pub enum BindError {
    /// No graphic on the enclosure layers has that uuid.
    NoGraphic,
    /// A cutout or solid needs a closed shape.
    NotClosed,
    /// A datum needs a straight line.
    NotALine,
}

/// Whether a graphic head names a closed shape: a rectangle, circle or
/// polygon.
pub open spec fn closed_head(head: Seq<char>) -> bool {
    head == "gr_rect"@ || head == "gr_circle"@ || head == "gr_poly"@
}

/// Whether a graphic headed `head` forms a closed region on its own.
pub fn is_closed_shape(head: &str) -> (r: bool)
    ensures
        r == closed_head(head@),
{
    str_eq(head, "gr_rect") || str_eq(head, "gr_circle") || str_eq(head, "gr_poly")
}

/// Whether the graphic found for a new entry (headed `head`, or `None` when
/// no enclosure graphic has the uuid) suits it: a cutout or solid
/// (`closed`) needs a closed shape, a datum a straight line.
pub fn binding_problem(head: Option<&str>, closed: bool) -> (r: Option<BindError>)
    ensures
        r == match head {
            None => Some(BindError::NoGraphic),
            Some(h) => if closed && !closed_head(h@) {
                Some(BindError::NotClosed)
            } else if !closed && h@ != "gr_line"@ {
                Some(BindError::NotALine)
            } else {
                None
            },
        },
{
    match head {
        None => Some(BindError::NoGraphic),
        Some(h) => {
            if closed && !is_closed_shape(h) {
                Some(BindError::NotClosed)
            } else if !closed && !str_eq(h, "gr_line") {
                Some(BindError::NotALine)
            } else {
                None
            }
        },
    }
}

/// Whether some datum or feature already uses the id `id`.
pub fn id_taken(datums: &[DatumConfig], features: &[FeatureBinding], id: &str) -> (r: bool)
    ensures
        r == (exists|i: int| 0 <= i < datums@.len() && #[trigger] datums@[i].id@ == id@) || (
        exists|i: int| 0 <= i < features@.len() && #[trigger] features@[i].id@ == id@),
{
    let mut i: usize = 0;
    while i < datums.len()
        invariant
            i <= datums@.len(),
            forall|k: int| 0 <= k < i ==> #[trigger] datums@[k].id@ != id@,
        decreases datums.len() - i,
    {
        if str_eq(datums[i].id.as_str(), id) {
            assert(datums@[i as int].id@ == id@);
            return true;
        }
        i = i + 1;
    }
    let mut k: usize = 0;
    while k < features.len()
        invariant
            k <= features@.len(),
            forall|j: int| 0 <= j < datums@.len() ==> #[trigger] datums@[j].id@ != id@,
            forall|j: int| 0 <= j < k ==> #[trigger] features@[j].id@ != id@,
        decreases features.len() - k,
    {
        if str_eq(features[k].id.as_str(), id) {
            assert(features@[k as int].id@ == id@);
            return true;
        }
        k = k + 1;
    }
    false
}

/// Which entries stay when the entries with id `id` are removed: for each
/// datum and each feature, whether it stays, and whether anything went.
pub fn removal(datums: &[DatumConfig], features: &[FeatureBinding], id: &str) -> (r: (
    Vec<bool>,
    Vec<bool>,
    bool,
))
    ensures
        r.0@.len() == datums@.len(),
        r.1@.len() == features@.len(),
        forall|i: int| 0 <= i < datums@.len() ==> #[trigger] r.0@[i] == (datums@[i].id@ != id@),
        forall|i: int| 0 <= i < features@.len() ==> #[trigger] r.1@[i] == (features@[i].id@ != id@),
        r.2 == (exists|i: int| 0 <= i < datums@.len() && #[trigger] datums@[i].id@ == id@) || (
        exists|i: int| 0 <= i < features@.len() && #[trigger] features@[i].id@ == id@),
{
    let mut keep_datums: Vec<bool> = Vec::new();
    let mut keep_features: Vec<bool> = Vec::new();
    let mut removed = false;
    let mut i: usize = 0;
    while i < datums.len()
        invariant
            i <= datums@.len(),
            keep_datums@.len() == i,
            forall|k: int| 0 <= k < i ==> #[trigger] keep_datums@[k] == (datums@[k].id@ != id@),
            removed == (exists|k: int| 0 <= k < i && #[trigger] datums@[k].id@ == id@),
        decreases datums.len() - i,
    {
        let stays = !str_eq(datums[i].id.as_str(), id);
        keep_datums.push(stays);
        if !stays {
            removed = true;
        }
        i = i + 1;
    }
    let ghost from_datums = removed;
    let mut k: usize = 0;
    while k < features.len()
        invariant
            k <= features@.len(),
            keep_features@.len() == k,
            forall|j: int| 0 <= j < k ==> #[trigger] keep_features@[j] == (features@[j].id@ != id@),
            removed == (from_datums || exists|j: int| 0 <= j < k && #[trigger] features@[j].id@ == id@),
        decreases features.len() - k,
    {
        let stays = !str_eq(features[k].id.as_str(), id);
        keep_features.push(stays);
        if !stays {
            removed = true;
        }
        k = k + 1;
    }
    (keep_datums, keep_features, removed)
}


// ---------------------------------------------------------------------------
// Resolving the project's entries against the board.

/// A graphic an entry can bind, as read from a datum or feature layer: its
/// uuid, what its layer means, and its head (`gr_line`, `gr_rect`, ...).
#[derive(Debug, Clone, PartialEq, Eq)]
pub struct Shape {
    pub uuid: String,
    pub role: LayerRole,
    pub head: String,
}

/// A warning as the values it holds: the uuid it is about, and its message.
pub open spec fn warning_view(w: Warning) -> (Option<Seq<char>>, Seq<char>) {
    (
        match w.uuid {
            Some(u) => Some(u@),
            None => None,
        },
        w.message@,
    )
}

/// The values of a sequence of warnings.
pub open spec fn warning_views(ws: Seq<Warning>) -> Seq<(Option<Seq<char>>, Seq<char>)> {
    ws.map_values(|w: Warning| warning_view(w))
}

/// The uuids of the shapes, in order.
pub open spec fn shape_uuids(shapes: Seq<Shape>) -> Seq<Seq<char>> {
    shapes.map_values(|s: Shape| s.uuid@)
}

/// The first of the first `n` shapes with uuid `uuid`.
pub open spec fn first_shape(shapes: Seq<Shape>, uuid: Seq<char>, n: int) -> Option<Shape>
    decreases n,
{
    if n <= 0 {
        None
    } else {
        match first_shape(shapes, uuid, n - 1) {
            Some(s) => Some(s),
            None => if shapes[n - 1].uuid@ == uuid {
                Some(shapes[n - 1])
            } else {
                None
            },
        }
    }
}

/// What resolving the first `n` datums gives: the ids of those that resolved
/// and the warnings raised, in order, or the id of a datum whose graphic is
/// not a straight line, which stops resolution. A datum whose graphic is gone
/// raises its orphan warning; one whose graphic left the datum layer raises a
/// warning and still resolves.
pub open spec fn datum_pass(datums: Seq<DatumConfig>, shapes: Seq<Shape>, n: int) -> Result<
    (Seq<Seq<char>>, Seq<(Option<Seq<char>>, Seq<char>)>),
    Seq<char>,
>
    decreases n,
{
    if n <= 0 {
        Ok((Seq::empty(), Seq::empty()))
    } else {
        match datum_pass(datums, shapes, n - 1) {
            Err(id) => Err(id),
            Ok((ids, ws)) => {
                let d = datums[n - 1];
                match first_shape(shapes, d.graphic_uuid@, shapes.len() as int) {
                    None => Ok(
                        (ids, ws.push((Some(d.graphic_uuid@), deleted_message("datum"@, d.id@)))),
                    ),
                    Some(s) => if s.head@ != "gr_line"@ {
                        Err(d.id@)
                    } else if s.role != LayerRole::Datums {
                        Ok(
                            (
                                ids.push(d.id@),
                                ws.push((Some(d.graphic_uuid@), off_layer_message(d.id@))),
                            ),
                        )
                    } else {
                        Ok((ids.push(d.id@), ws))
                    },
                }
            },
        }
    }
}

/// The warnings of the skipped shapes among the first `k` treatments, in
/// order.
pub open spec fn skip_warnings(ts: Seq<Treatment>, k: int) -> Seq<(Option<Seq<char>>, Seq<char>)>
    decreases k,
{
    if k <= 0 {
        Seq::empty()
    } else {
        match ts[k - 1] {
            Treatment::Skipped(w) => skip_warnings(ts, k - 1).push(warning_view(w)),
            _ => skip_warnings(ts, k - 1),
        }
    }
}

/// The warnings of the features whose graphic is gone, in file order.
pub open spec fn feature_orphan_warnings(
    features: Seq<FeatureBinding>,
    present: Seq<Seq<char>>,
) -> Seq<(Option<Seq<char>>, Seq<char>)> {
    missing_features(features, present, features.len() as int).map_values(
        |q: (Seq<char>, Seq<char>)| (Some(q.1), deleted_message("feature"@, q.0)),
    )
}

/// What the entries and the drawn shapes come to.
#[derive(Debug, Clone, PartialEq)]
pub struct Resolution {
    /// The ids of the datums that resolved, in file order.
    pub datums: Vec<String>,
    /// What each shape will be, in the order of the shapes.
    pub treatments: Vec<Treatment>,
    /// The entries whose graphic is gone: datums, then features.
    pub orphans: Vec<Orphan>,
    /// The warnings, in the order they are raised: those of the datums, then
    /// those of the skipped shapes, then those of the orphaned features.
    pub warnings: Vec<Warning>,
}

fn first_shape_of<'a>(shapes: &'a [Shape], uuid: &str) -> (r: Option<&'a Shape>)
    ensures
        match first_shape(shapes@, uuid@, shapes@.len() as int) {
            Some(s) => r matches Some(x) && *x == s,
            None => r is None,
        },
        r is None <==> !shape_uuids(shapes@).contains(uuid@),
{
    let mut i: usize = 0;
    while i < shapes.len()
        invariant
            i <= shapes@.len(),
            first_shape(shapes@, uuid@, i as int) is None,
            forall|k: int| 0 <= k < i ==> shapes@[k].uuid@ != uuid@,
        decreases shapes.len() - i,
    {
        if str_eq(shapes[i].uuid.as_str(), uuid) {
            proof {
                lemma_first_shape_stable(shapes@, uuid@, i + 1, shapes@.len() as int);
                assert(shape_uuids(shapes@)[i as int] == uuid@);
            }
            return Some(&shapes[i]);
        }
        i = i + 1;
    }
    proof {
        if shape_uuids(shapes@).contains(uuid@) {
            let k = choose|k: int| 0 <= k < shape_uuids(shapes@).len() && shape_uuids(shapes@)[k] == uuid@;
            assert(shapes@[k].uuid@ == uuid@);
        }
    }
    None
}

proof fn lemma_first_shape_stable(shapes: Seq<Shape>, uuid: Seq<char>, m: int, n: int)
    requires
        0 <= m <= n,
        first_shape(shapes, uuid, m) is Some,
    ensures
        first_shape(shapes, uuid, n) == first_shape(shapes, uuid, m),
    decreases n - m,
{
    if m < n {
        lemma_first_shape_stable(shapes, uuid, m, n - 1);
    }
}

/// A copy of a warning.
fn copy_warning(w: &Warning) -> (r: Warning)
    ensures
        warning_view(r) == warning_view(*w),
{
    let uuid = match &w.uuid {
        Some(u) => Some(u.clone()),
        None => None,
    };
    Warning { message: w.message.clone(), uuid }
}

/// Resolves the project's entries against the board, in the order the
/// enclosure is built: the board outline and the drawn enclosure outline
/// must be there (`roles` are the roles of every graphic read); then each
/// datum in turn, which stops at one whose graphic is not a straight line;
/// then each shape (`shapes`, the graphics on datum and feature layers); and
/// last the features whose graphic is gone.
#[verifier::rlimit(40)]
pub fn resolve_entries(
    roles: &[LayerRole],
    shapes: &[Shape],
    datums: &[DatumConfig],
    features: &[FeatureBinding],
) -> (r: Result<Resolution, ResolveError>)
    ensures
        outline_problem_of(roles@) matches Some(e) ==> r == Err::<Resolution, ResolveError>(e),
        outline_problem_of(roles@) is None ==> match datum_pass(
            datums@,
            shapes@,
            datums@.len() as int,
        ) {
            Err(id) => r matches Err(ResolveError::DatumNotALine { id: x }) && x@ == id,
            Ok((ids, ws)) => r matches Ok(res) && {
                let present = shape_uuids(shapes@);
                &&& string_views(res.datums@) == ids
                &&& res.treatments@.len() == shapes@.len()
                &&& forall|i: int|
                    0 <= i < shapes@.len() ==> treatment_is(
                        #[trigger] res.treatments@[i],
                        shapes@[i].role,
                        shapes@[i].uuid@,
                        closed_head(shapes@[i].head@),
                        features@,
                        ids,
                    )
                &&& res.orphans@.map_values(|o: Orphan| orphan_view(o)) == orphans_of(
                    datums@,
                    features@,
                    present,
                )
                &&& warning_views(res.warnings@) == ws + skip_warnings(
                    res.treatments@,
                    shapes@.len() as int,
                ) + feature_orphan_warnings(features@, present)
            },
        },
{
    if let Some(problem) = outline_problem(roles) {
        return Err(problem);
    }
    let ghost present = shape_uuids(shapes@);
    let mut uuids: Vec<String> = Vec::new();
    let mut j: usize = 0;
    while j < shapes.len()
        invariant
            j <= shapes@.len(),
            present == shape_uuids(shapes@),
            string_views(uuids@) == present.take(j as int),
        decreases shapes.len() - j,
    {
        let ghost before = uuids@;
        uuids.push(shapes[j].uuid.clone());
        assert(string_views(uuids@) =~= string_views(before).push(shapes@[j as int].uuid@));
        assert(present.take(j + 1) =~= present.take(j as int).push(present[j as int]));
        j = j + 1;
    }
    assert(present.take(shapes@.len() as int) =~= present);

    // The datums.
    let mut ids: Vec<String> = Vec::new();
    let mut orphans: Vec<Orphan> = Vec::new();
    let mut warnings: Vec<Warning> = Vec::new();
    let mut i: usize = 0;
    while i < datums.len()
        invariant
            i <= datums@.len(),
            outline_problem_of(roles@) is None,
            present == shape_uuids(shapes@),
            string_views(uuids@) == present,
            datum_pass(datums@, shapes@, i as int) matches Ok((di, dw)) && string_views(ids@)
                == di && warning_views(warnings@) == dw,
            orphans@.map_values(|o: Orphan| orphan_view(o)) == missing_datums(
                datums@,
                present,
                i as int,
            ).map_values(|q: (Seq<char>, Seq<char>)| (q.0, q.1, OrphanKind::Datum)),
        decreases datums.len() - i,
    {
        let datum = &datums[i];
        let ghost before_ids = ids@;
        let ghost before_ws = warnings@;
        let ghost before_orphans = orphans@;
        match first_shape_of(shapes, datum.graphic_uuid.as_str()) {
            None => {
                let (orphan, warning) = orphan_with_warning(
                    &datum.id,
                    &datum.graphic_uuid,
                    OrphanKind::Datum,
                );
                orphans.push(orphan);
                warnings.push(warning);
                assert(warning_views(warnings@) =~= warning_views(before_ws).push(
                    warning_view(warning),
                ));
                assert(orphans@.map_values(|o: Orphan| orphan_view(o)) =~= before_orphans.map_values(
                    |o: Orphan| orphan_view(o),
                ).push((datum.id@, datum.graphic_uuid@, OrphanKind::Datum)));
                assert(missing_datums(datums@, present, i + 1).map_values(
                    |q: (Seq<char>, Seq<char>)| (q.0, q.1, OrphanKind::Datum),
                ) =~= missing_datums(datums@, present, i as int).map_values(
                    |q: (Seq<char>, Seq<char>)| (q.0, q.1, OrphanKind::Datum),
                ).push((datum.id@, datum.graphic_uuid@, OrphanKind::Datum)));
            },
            Some(shape) => {
                match check_datum(datum, shape.role, shape.head.as_str()) {
                    Err(e) => {
                        proof {
                            lemma_datum_pass_stops(datums@, shapes@, i as int, datums@.len() as int);
                        }
                        return Err(e);
                    },
                    Ok(found) => {
                        if let Some(w) = found {
                            warnings.push(w);
                            assert(warning_views(warnings@) =~= warning_views(before_ws).push(
                                warning_view(w),
                            ));
                        }
                        ids.push(datum.id.clone());
                        assert(string_views(ids@) =~= string_views(before_ids).push(datum.id@));
                    },
                }
            },
        }
        i = i + 1;
    }

    // The shapes.
    let mut treatments: Vec<Treatment> = Vec::new();
    let ghost dw = warning_views(warnings@);
    let ghost di = string_views(ids@);
    let mut k: usize = 0;
    while k < shapes.len()
        invariant
            k <= shapes@.len(),
            di == string_views(ids@),
            treatments@.len() == k,
            forall|t: int|
                0 <= t < k ==> treatment_is(
                    #[trigger] treatments@[t],
                    shapes@[t].role,
                    shapes@[t].uuid@,
                    closed_head(shapes@[t].head@),
                    features@,
                    di,
                ),
            warning_views(warnings@) == dw + skip_warnings(treatments@, k as int),
        decreases shapes.len() - k,
    {
        let shape = &shapes[k];
        let t = treat(shape.role, shape.uuid.as_str(), is_closed_shape(shape.head.as_str()), features, &ids);
        let ghost before_ws = warnings@;
        let ghost before_ts = treatments@;
        if let Treatment::Skipped(w) = &t {
            let copy = copy_warning(w);
            warnings.push(copy);
            assert(warning_views(warnings@) =~= warning_views(before_ws).push(warning_view(copy)));
        }
        treatments.push(t);
        assert(treatments@.take(k as int) =~= before_ts);
        assert(before_ts.take(k as int) =~= before_ts);
        assert(skip_warnings(treatments@, k as int) == skip_warnings(before_ts, k as int)) by {
            lemma_skip_warnings_prefix(treatments@, before_ts, k as int);
        }
        assert(dw + skip_warnings(treatments@, k + 1) =~= warning_views(warnings@));
        k = k + 1;
    }

    // The features whose graphic is gone.
    let ghost head_orphans = orphans@.map_values(|o: Orphan| orphan_view(o));
    let ghost mid = warning_views(warnings@);
    let mut f: usize = 0;
    assert(missing_features(features@, present, 0).map_values(
        |q: (Seq<char>, Seq<char>)| (q.0, q.1, OrphanKind::Feature),
    ) =~= Seq::<(Seq<char>, Seq<char>, OrphanKind)>::empty());
    assert(head_orphans =~= head_orphans + Seq::<(Seq<char>, Seq<char>, OrphanKind)>::empty());
    assert(mid =~= mid + missing_features(features@, present, 0).map_values(
        |q: (Seq<char>, Seq<char>)| (Some(q.1), deleted_message("feature"@, q.0)),
    ));
    while f < features.len()
        invariant
            f <= features@.len(),
            present == shape_uuids(shapes@),
            string_views(uuids@) == present,
            orphans@.map_values(|o: Orphan| orphan_view(o)) == head_orphans + missing_features(
                features@,
                present,
                f as int,
            ).map_values(|q: (Seq<char>, Seq<char>)| (q.0, q.1, OrphanKind::Feature)),
            warning_views(warnings@) == mid + missing_features(features@, present, f as int).map_values(
                |q: (Seq<char>, Seq<char>)| (Some(q.1), deleted_message("feature"@, q.0)),
            ),
        decreases features.len() - f,
    {
        let feature = &features[f];
        if !contains_string(&uuids, feature.graphic_uuid.as_str()) {
            let ghost before_orphans = orphans@;
            let ghost before_ws = warnings@;
            let (orphan, warning) = orphan_with_warning(
                &feature.id,
                &feature.graphic_uuid,
                OrphanKind::Feature,
            );
            orphans.push(orphan);
            warnings.push(warning);
            assert(orphans@.map_values(|o: Orphan| orphan_view(o)) =~= before_orphans.map_values(
                |o: Orphan| orphan_view(o),
            ).push((feature.id@, feature.graphic_uuid@, OrphanKind::Feature)));
            assert(missing_features(features@, present, f + 1).map_values(
                |q: (Seq<char>, Seq<char>)| (q.0, q.1, OrphanKind::Feature),
            ) =~= missing_features(features@, present, f as int).map_values(
                |q: (Seq<char>, Seq<char>)| (q.0, q.1, OrphanKind::Feature),
            ).push((feature.id@, feature.graphic_uuid@, OrphanKind::Feature)));
            assert(warning_views(warnings@) =~= warning_views(before_ws).push(warning_view(warning)));
            assert(missing_features(features@, present, f + 1).map_values(
                |q: (Seq<char>, Seq<char>)| (Some(q.1), deleted_message("feature"@, q.0)),
            ) =~= missing_features(features@, present, f as int).map_values(
                |q: (Seq<char>, Seq<char>)| (Some(q.1), deleted_message("feature"@, q.0)),
            ).push((Some(feature.graphic_uuid@), deleted_message("feature"@, feature.id@))));
        }
        f = f + 1;
    }
    Ok(Resolution { datums: ids, treatments, orphans, warnings })
}

proof fn lemma_datum_pass_stops(datums: Seq<DatumConfig>, shapes: Seq<Shape>, m: int, n: int)
    requires
        0 <= m < n,
        datum_pass(datums, shapes, m + 1) is Err,
    ensures
        datum_pass(datums, shapes, n) == datum_pass(datums, shapes, m + 1),
    decreases n - m,
{
    if m + 1 < n {
        lemma_datum_pass_stops(datums, shapes, m, n - 1);
    }
}

proof fn lemma_skip_warnings_prefix(a: Seq<Treatment>, b: Seq<Treatment>, k: int)
    requires
        0 <= k <= a.len(),
        k <= b.len(),
        a.take(k) == b.take(k),
    ensures
        skip_warnings(a, k) == skip_warnings(b, k),
    decreases k,
{
    if k > 0 {
        assert(a[k - 1] == a.take(k)[k - 1]);
        assert(b[k - 1] == b.take(k)[k - 1]);
        assert(a.take(k - 1) =~= a.take(k).take(k - 1));
        assert(b.take(k - 1) =~= b.take(k).take(k - 1));
        lemma_skip_warnings_prefix(a, b, k - 1);
    }
}

/// The shape at `k` is the first with uuid `uuid`.
pub open spec fn first_with_uuid(shapes: Seq<Shape>, uuid: Seq<char>, k: int) -> bool {
    &&& 0 <= k < shapes.len()
    &&& shapes[k].uuid@ == uuid
    &&& forall|j: int| 0 <= j < k ==> #[trigger] shapes[j].uuid@ != uuid
}

proof fn lemma_first_shape_at(shapes: Seq<Shape>, uuid: Seq<char>, k: int, n: int)
    requires
        first_with_uuid(shapes, uuid, k),
        k < n <= shapes.len(),
    ensures
        first_shape(shapes, uuid, n) == Some(shapes[k]),
    decreases n,
{
    if n - 1 > k {
        lemma_first_shape_at(shapes, uuid, k, n - 1);
    } else {
        lemma_first_shape_none(shapes, uuid, k);
    }
}

proof fn lemma_first_shape_none(shapes: Seq<Shape>, uuid: Seq<char>, n: int)
    requires
        0 <= n <= shapes.len(),
        forall|j: int| 0 <= j < n ==> #[trigger] shapes[j].uuid@ != uuid,
    ensures
        first_shape(shapes, uuid, n) is None,
    decreases n,
{
    if n > 0 {
        lemma_first_shape_none(shapes, uuid, n - 1);
    }
}

proof fn lemma_first_shape_found(shapes: Seq<Shape>, uuid: Seq<char>, n: int)
    requires
        0 <= n <= shapes.len(),
    ensures
        first_shape(shapes, uuid, n) matches Some(s) ==> exists|k: int|
            k < n && first_with_uuid(shapes, uuid, k) && s == shapes[k],
        first_shape(shapes, uuid, n) is None ==> forall|j: int|
            0 <= j < n ==> #[trigger] shapes[j].uuid@ != uuid,
    decreases n,
{
    if n > 0 {
        lemma_first_shape_found(shapes, uuid, n - 1);
        if first_shape(shapes, uuid, n - 1) is None && shapes[n - 1].uuid@ == uuid {
            assert(first_with_uuid(shapes, uuid, n - 1));
        }
    }
}

/// `id` is the id of one of the first `n` datums whose graphic is on the
/// board.
pub open spec fn id_with_line(datums: Seq<DatumConfig>, shapes: Seq<Shape>, n: int, id: Seq<char>) -> bool {
    exists|i: int, k: int|
        0 <= i < n && #[trigger] first_with_uuid(shapes, datums[i].graphic_uuid@, k) && id
            == datums[i].id@
}

/// A datum resolves exactly when its graphic is on the board and is a
/// straight line, wherever that line is drawn. Of the first `n` datums:
/// resolution goes on exactly when none has a graphic that is not a line;
/// then every datum whose graphic is a line has its id among the resolved
/// ones, every resolved id is that of such a datum, and when every graphic
/// is on the datum layer no warning is raised.
pub proof fn lemma_datums_resolve_when_their_line_is_there(
    datums: Seq<DatumConfig>,
    shapes: Seq<Shape>,
    n: int,
)
    requires
        0 <= n <= datums.len(),
    ensures
        datum_pass(datums, shapes, n) is Ok <==> forall|i: int, k: int|
            0 <= i < n && #[trigger] first_with_uuid(shapes, datums[i].graphic_uuid@, k)
                ==> shapes[k].head@ == "gr_line"@,
        datum_pass(datums, shapes, n) matches Ok((ids, ws)) ==> {
            &&& forall|i: int, k: int|
                0 <= i < n && #[trigger] first_with_uuid(shapes, datums[i].graphic_uuid@, k)
                    ==> ids.contains(datums[i].id@)
            &&& forall|j: int|
                0 <= j < ids.len() ==> #[trigger] id_with_line(datums, shapes, n, ids[j])
            &&& (forall|i: int|
                #![trigger datums[i]]
                0 <= i < n ==> exists|k: int|
                    #[trigger] first_with_uuid(shapes, datums[i].graphic_uuid@, k)
                        && shapes[k].role == LayerRole::Datums) ==> ws.len() == 0
        },
    decreases n,
{
    if n > 0 {
        lemma_datums_resolve_when_their_line_is_there(datums, shapes, n - 1);
        let d = datums[n - 1];
        let u = d.graphic_uuid@;
        lemma_first_shape_found(shapes, u, shapes.len() as int);
        match first_shape(shapes, u, shapes.len() as int) {
            None => {},
            Some(s) => {
                let k0 = choose|k: int|
                    k < shapes.len() && first_with_uuid(shapes, u, k) && s == shapes[k];
                assert forall|k: int| #[trigger] first_with_uuid(shapes, u, k) implies k == k0 by {
                    if k < k0 {
                        assert(shapes[k].uuid@ != u);
                    } else if k > k0 {
                        assert(shapes[k0].uuid@ != u);
                    }
                }
            },
        }
        match datum_pass(datums, shapes, n) {
            Ok((ids, ws)) => {
                assert(datum_pass(datums, shapes, n - 1) is Ok);
                let (ids0, ws0) = match datum_pass(datums, shapes, n - 1) {
                    Ok(p) => p,
                    Err(_) => (Seq::empty(), Seq::empty()),
                };
                {
                    if forall|i: int|
                        #![trigger datums[i]]
                        0 <= i < n ==> exists|k: int|
                            #[trigger] first_with_uuid(shapes, datums[i].graphic_uuid@, k)
                                && shapes[k].role == LayerRole::Datums {
                        assert forall|i: int|
                            #![trigger datums[i]]
                            0 <= i < n - 1 implies exists|k: int|
                                #[trigger] first_with_uuid(shapes, datums[i].graphic_uuid@, k)
                                    && shapes[k].role == LayerRole::Datums by {
                            assert(datums[i] == datums[i]);
                        }
                        assert(ws0.len() == 0);
                        assert(datums[n - 1] == d);
                        let k1 = choose|k: int|
                            #[trigger] first_with_uuid(shapes, u, k) && shapes[k].role
                                == LayerRole::Datums;
                        assert(first_with_uuid(shapes, u, k1));
                        assert(first_shape(shapes, u, shapes.len() as int) == Some(shapes[k1])) by {
                            lemma_first_shape_at(shapes, u, k1, shapes.len() as int);
                        }
                        assert(ws == ws0);
                    }
                    assert forall|j: int| 0 <= j < ids0.len() implies ids.contains(
                        #[trigger] ids0[j],
                    ) by {
                        assert(ids[j] == ids0[j]);
                    }
                    assert forall|i: int, k: int|
                        0 <= i < n && #[trigger] first_with_uuid(
                            shapes,
                            datums[i].graphic_uuid@,
                            k,
                        ) implies ids.contains(datums[i].id@) by {
                        if i < n - 1 {
                            assert(ids0.contains(datums[i].id@));
                            let j = choose|j: int| 0 <= j < ids0.len() && ids0[j] == datums[i].id@;
                            assert(ids.contains(ids0[j]));
                        } else {
                            assert(ids[ids.len() - 1] == d.id@);
                        }
                    }
                    assert forall|j: int| 0 <= j < ids.len() implies #[trigger] id_with_line(
                        datums,
                        shapes,
                        n,
                        ids[j],
                    ) by {
                        if j < ids0.len() {
                            assert(ids[j] == ids0[j]);
                            assert(id_with_line(datums, shapes, n - 1, ids0[j]));
                            let (i1, k1) = choose|i: int, k: int|
                                0 <= i < n - 1 && #[trigger] first_with_uuid(
                                    shapes,
                                    datums[i].graphic_uuid@,
                                    k,
                                ) && ids0[j] == datums[i].id@;
                            assert(0 <= i1 < n && first_with_uuid(shapes, datums[i1].graphic_uuid@, k1)
                                && ids[j] == datums[i1].id@);
                        } else {
                            assert(first_shape(shapes, u, shapes.len() as int) is Some);
                            let k0 = choose|k: int|
                                k < shapes.len() && first_with_uuid(shapes, u, k)
                                    && first_shape(shapes, u, shapes.len() as int) == Some(shapes[k]);
                            assert(datums[n - 1].graphic_uuid@ == u);
                            assert(first_with_uuid(shapes, datums[n - 1].graphic_uuid@, k0));
                            assert(ids[j] == datums[n - 1].id@);
                        }
                    }
                }
            },
            Err(_) => {},
        }
    }
}

} // verus!
