//! The parts of the `.enclosure/enclosure.toml` project format that carry no
//! measurement: which layers hold what, and how drawn graphics are bound.
//!
//! Semantics live here, never in the KiCad drawing itself: graphics are bound
//! by their persistent KiCad UUID.

use crate::text::str_eq;
use vstd::prelude::*;

verus! {

/// Schema version understood by this build.
pub const SCHEMA_VERSION: u32 = 1;

/// Directory, relative to the KiCad project, holding all KiCase state.
pub fn project_dir_name() -> (r: &'static str)
    ensures
        r@ == ".enclosure"@,
{
    ".enclosure"
}

/// Project file name inside the project directory.
pub fn config_file_name() -> (r: &'static str)
    ensures
        r@ == "enclosure.toml"@,
{
    "enclosure.toml"
}

/// Generated-output directory inside the project directory.
pub fn generated_dir_name() -> (r: &'static str)
    ensures
        r@ == "generated"@,
{
    "generated"
}

/// OpenSCAD derivative directory inside the project directory.
pub fn openscad_dir_name() -> (r: &'static str)
    ensures
        r@ == "openscad"@,
{
    "openscad"
}

/// The display names KiCase asks KiCad to give the layers it claims, in
/// mapping order: outline, datums, cuts, top, bottom, solids.
pub open spec fn display_names() -> Seq<Seq<char>> {
    seq![
        "Enclosure"@,
        "Enclosure.Datums"@,
        "Enclosure.Cuts"@,
        "Enclosure.Top"@,
        "Enclosure.Bottom"@,
        "Enclosure.Solids"@,
    ]
}

/// Display names KiCase asks KiCad to give the layers it claims.
///
/// The layer *is* the meaning: what you draw a shape on decides what it does,
/// so there is no "kind" or "face" to configure anywhere.
pub fn layer_display_names() -> (r: [&'static str; 6])
    ensures
        r@.map_values(|s: &str| s@) == display_names(),
{
    let names = [
        "Enclosure",
        "Enclosure.Datums",
        "Enclosure.Cuts",
        "Enclosure.Top",
        "Enclosure.Bottom",
        "Enclosure.Solids",
    ];
    assert(names@.map_values(|s: &str| s@) =~= display_names());
    names
}

/// Which KiCad user layers hold enclosure geometry, by canonical name.
#[derive(Debug, Clone, PartialEq, Eq)]
pub struct LayerMapping {
    pub outline: String,
    pub datums: String,
    pub cuts: String,
    pub top: String,
    pub bottom: String,
    pub solids: String,
}

impl LayerMapping {
    /// The six layer names, in mapping order.
    pub open spec fn names(&self) -> Seq<Seq<char>> {
        seq![self.outline@, self.datums@, self.cuts@, self.top@, self.bottom@, self.solids@]
    }

    pub fn all(&self) -> (r: [&str; 6])
        ensures
            r@.map_values(|s: &str| s@) == self.names(),
    {
        let names = [
            self.outline.as_str(),
            self.datums.as_str(),
            self.cuts.as_str(),
            self.top.as_str(),
            self.bottom.as_str(),
            self.solids.as_str(),
        ];
        assert(names@.map_values(|s: &str| s@) =~= self.names());
        names
    }
}

impl Default for LayerMapping {
    /// `User.1` to `User.6`, in mapping order.
    fn default() -> (r: Self)
        ensures
            r.names() == seq!["User.1"@, "User.2"@, "User.3"@, "User.4"@, "User.5"@, "User.6"@],
    {
        LayerMapping {
            outline: "User.1".to_owned(),
            datums: "User.2".to_owned(),
            cuts: "User.3".to_owned(),
            top: "User.4".to_owned(),
            bottom: "User.5".to_owned(),
            solids: "User.6".to_owned(),
        }
    }
}

/// Which way a datum's wall normal points relative to the drawn line.
#[derive(Debug, Clone, Copy, PartialEq, Eq, Structural)]
pub enum DatumNormal {
    /// Left of the line direction.
    Left,
    /// Right of the line direction.
    Right,
    /// Away from the centre of the enclosure.
    Auto,
}

impl Default for DatumNormal {
    fn default() -> (r: Self)
        ensures
            r == DatumNormal::Auto,
    {
        DatumNormal::Auto
    }
}

/// A side datum, as stored in the project file.
///
/// The line you draw *is* the bottom edge of the case wall, so there is nothing
/// to configure about its height. All that remains is which side of the line
/// the wall faces, and even that is worked out automatically unless you say
/// otherwise.
#[derive(Debug, Clone, PartialEq)]
pub struct DatumConfig {
    pub id: String,
    pub graphic_uuid: String,
    pub normal: DatumNormal,
}

/// The part of a feature entry that binds it: its id, the KiCad graphic it
/// is drawn as, and for a side opening the datum whose wall it goes through.
#[derive(Debug, Clone, PartialEq, Eq)]
pub struct FeatureBinding {
    pub id: String,
    pub graphic_uuid: String,
    /// Side openings only: the datum whose wall this goes through.
    pub datum: Option<String>,
    /// An entry can switch its shape off without deleting it.
    pub enabled: bool,
}

/// A project-file entry that cannot stand as written.
#[derive(Debug, Clone, PartialEq, Eq)]
pub enum EntryError {
    /// Two datums, or two features, share an id.
    DuplicateId { id: String },
    /// A cutout names a datum that does not exist.
    UnknownDatum { id: String, datum: String },
}

/// The ids of a list of datums.
pub open spec fn datum_ids(datums: Seq<DatumConfig>) -> Seq<Seq<char>> {
    datums.map_values(|d: DatumConfig| d.id@)
}

/// The ids of a list of features.
pub open spec fn feature_ids(features: Seq<FeatureBinding>) -> Seq<Seq<char>> {
    features.map_values(|f: FeatureBinding| f.id@)
}

/// The first position among the first `n` of `ids` whose id already occurred
/// before it.
pub open spec fn first_repeat(ids: Seq<Seq<char>>, n: int) -> Option<int>
    decreases n,
{
    if n <= 0 {
        None
    } else {
        match first_repeat(ids, n - 1) {
            Some(i) => Some(i),
            None => if ids.take(n - 1).contains(ids[n - 1]) {
                Some(n - 1)
            } else {
                None
            },
        }
    }
}

/// Whether the feature at `j` repeats an earlier id or names a datum that
/// does not exist.
pub open spec fn feature_wrong(datums: Seq<Seq<char>>, features: Seq<FeatureBinding>, j: int) -> bool {
    ||| feature_ids(features).take(j).contains(feature_ids(features)[j])
    ||| (features[j].datum matches Some(d) && !datums.contains(d@))
}

/// The first position among the first `n` features that is wrong.
pub open spec fn first_wrong_feature(
    datums: Seq<Seq<char>>,
    features: Seq<FeatureBinding>,
    n: int,
) -> Option<int>
    decreases n,
{
    if n <= 0 {
        None
    } else {
        match first_wrong_feature(datums, features, n - 1) {
            Some(j) => Some(j),
            None => if feature_wrong(datums, features, n - 1) {
                Some(n - 1)
            } else {
                None
            },
        }
    }
}

proof fn lemma_first_repeat_stable(ids: Seq<Seq<char>>, m: int, n: int)
    requires
        0 <= m <= n,
        first_repeat(ids, m) is Some,
    ensures
        first_repeat(ids, n) == first_repeat(ids, m),
    decreases n - m,
{
    if m < n {
        lemma_first_repeat_stable(ids, m, n - 1);
    }
}

proof fn lemma_first_wrong_stable(
    datums: Seq<Seq<char>>,
    features: Seq<FeatureBinding>,
    m: int,
    n: int,
)
    requires
        0 <= m <= n,
        first_wrong_feature(datums, features, m) is Some,
    ensures
        first_wrong_feature(datums, features, n) == first_wrong_feature(datums, features, m),
    decreases n - m,
{
    if m < n {
        lemma_first_wrong_stable(datums, features, m, n - 1);
    }
}

/// True when one of the first `n` of `ids` is `id`.
fn datum_id_among(datums: &[DatumConfig], n: usize, id: &str) -> (r: bool)
    requires
        n <= datums@.len(),
    ensures
        r == datum_ids(datums@).take(n as int).contains(id@),
{
    let ghost ids = datum_ids(datums@).take(n as int);
    let mut i: usize = 0;
    while i < n
        invariant
            n <= datums@.len(),
            i <= n,
            ids == datum_ids(datums@).take(n as int),
            forall|k: int| 0 <= k < i ==> ids[k] != id@,
        decreases n - i,
    {
        assert(ids[i as int] == datums@[i as int].id@);
        if str_eq(datums[i].id.as_str(), id) {
            assert(ids[i as int] == id@);
            return true;
        }
        i = i + 1;
    }
    false
}

/// True when one of the first `n` features has id `id`.
fn feature_id_among(features: &[FeatureBinding], n: usize, id: &str) -> (r: bool)
    requires
        n <= features@.len(),
    ensures
        r == feature_ids(features@).take(n as int).contains(id@),
{
    let ghost ids = feature_ids(features@).take(n as int);
    let mut i: usize = 0;
    while i < n
        invariant
            n <= features@.len(),
            i <= n,
            ids == feature_ids(features@).take(n as int),
            forall|k: int| 0 <= k < i ==> ids[k] != id@,
        decreases n - i,
    {
        assert(ids[i as int] == features@[i as int].id@);
        if str_eq(features[i].id.as_str(), id) {
            assert(ids[i as int] == id@);
            return true;
        }
        i = i + 1;
    }
    false
}

/// Checks the ids of the project's entries: datum ids are unique, feature
/// ids are unique, and every datum a feature names exists. The first problem
/// found, datums before features and each in order, is reported.
pub fn check_entry_ids(datums: &[DatumConfig], features: &[FeatureBinding]) -> (r: Result<
    (),
    EntryError,
>)
    ensures
        ({
            let dids = datum_ids(datums@);
            match first_repeat(dids, dids.len() as int) {
                Some(i) => r matches Err(EntryError::DuplicateId { id }) && id@ == dids[i],
                None => match first_wrong_feature(dids, features@, features@.len() as int) {
                    Some(j) => if feature_ids(features@).take(j).contains(
                        feature_ids(features@)[j],
                    ) {
                        r matches Err(EntryError::DuplicateId { id }) && id@ == feature_ids(
                            features@,
                        )[j]
                    } else {
                        r matches Err(EntryError::UnknownDatum { id, datum }) && id@
                            == feature_ids(features@)[j] && features@[j].datum == Some(datum)
                    },
                    None => r is Ok,
                },
            }
        }),
{
    let ghost dids = datum_ids(datums@);
    let ghost fids = feature_ids(features@);
    let mut i: usize = 0;
    while i < datums.len()
        invariant
            i <= datums@.len(),
            dids == datum_ids(datums@),
            first_repeat(dids, i as int) is None,
        decreases datums.len() - i,
    {
        assert(dids[i as int] == datums@[i as int].id@);
        if datum_id_among(datums, i, datums[i].id.as_str()) {
            proof {
                lemma_first_repeat_stable(dids, i + 1, dids.len() as int);
            }
            return Err(EntryError::DuplicateId { id: datums[i].id.clone() });
        }
        i = i + 1;
    }
    let mut j: usize = 0;
    while j < features.len()
        invariant
            j <= features@.len(),
            dids == datum_ids(datums@),
            fids == feature_ids(features@),
            first_repeat(dids, dids.len() as int) is None,
            first_wrong_feature(dids, features@, j as int) is None,
        decreases features.len() - j,
    {
        let feature = &features[j];
        assert(fids[j as int] == feature.id@);
        if feature_id_among(features, j, feature.id.as_str()) {
            proof {
                lemma_first_wrong_stable(dids, features@, j + 1, features@.len() as int);
            }
            return Err(EntryError::DuplicateId { id: feature.id.clone() });
        }
        match &feature.datum {
            Some(datum) => {
                assert(datum_ids(datums@).take(datums@.len() as int) =~= dids);
                if !datum_id_among(datums, datums.len(), datum.as_str()) {
                    proof {
                        lemma_first_wrong_stable(dids, features@, j + 1, features@.len() as int);
                    }
                    return Err(
                        EntryError::UnknownDatum { id: feature.id.clone(), datum: datum.clone() },
                    );
                }
            },
            None => {},
        }
        j = j + 1;
    }
    Ok(())
}

/// Which horizontal face a hole goes through. Decided by the layer it is drawn
/// on, never configured.
#[derive(Debug, Clone, Copy, PartialEq, Eq, Structural)]
pub enum CutFace {
    Top,
    Bottom,
}

impl Default for CutFace {
    fn default() -> (r: Self)
        ensures
            r == CutFace::Top,
    {
        CutFace::Top
    }
}

/// A feature entry is enabled unless the project file says otherwise.
pub fn default_true() -> (r: bool)
    ensures
        r,
{
    true
}

/// The project file's entries are valid: no two datums share an id, no two
/// features share an id, and every datum a feature names is the id of one of
/// the datums, wherever it stands among them.
pub open spec fn entries_valid(datums: Seq<DatumConfig>, features: Seq<FeatureBinding>) -> bool {
    &&& forall|a: int, b: int|
        0 <= a < b < datums.len() ==> #[trigger] datums[a].id@ != #[trigger] datums[b].id@
    &&& forall|a: int, b: int|
        0 <= a < b < features.len() ==> #[trigger] features[a].id@ != #[trigger] features[b].id@
    &&& forall|j: int|
        0 <= j < features.len() ==> (#[trigger] features[j].datum matches Some(d) ==> exists|
            i: int,
        | 0 <= i < datums.len() && datums[i].id@ == d@)
}

proof fn lemma_no_repeat(ids: Seq<Seq<char>>, n: int)
    requires
        0 <= n <= ids.len(),
    ensures
        first_repeat(ids, n) is None <==> forall|a: int, b: int|
            0 <= a < b < n ==> #[trigger] ids[a] != #[trigger] ids[b],
    decreases n,
{
    if n > 0 {
        lemma_no_repeat(ids, n - 1);
        if first_repeat(ids, n - 1) is None {
            if ids.take(n - 1).contains(ids[n - 1]) {
                let a = choose|a: int| 0 <= a < n - 1 && #[trigger] ids.take(n - 1)[a] == ids[n - 1];
                assert(ids[a] == ids[n - 1]);
            } else {
                assert forall|a: int, b: int| 0 <= a < b < n implies #[trigger] ids[a]
                    != #[trigger] ids[b] by {
                    if b == n - 1 {
                        assert(ids.take(n - 1)[a] == ids[a]);
                    }
                }
            }
        }
    }
}

proof fn lemma_no_wrong_feature(datums: Seq<DatumConfig>, features: Seq<FeatureBinding>, n: int)
    requires
        0 <= n <= features.len(),
    ensures
        first_wrong_feature(datum_ids(datums), features, n) is None <==> {
            &&& forall|a: int, b: int|
                0 <= a < b < n ==> #[trigger] features[a].id@ != #[trigger] features[b].id@
            &&& forall|j: int|
                0 <= j < n ==> (#[trigger] features[j].datum matches Some(d) ==> exists|i: int|
                    0 <= i < datums.len() && datums[i].id@ == d@)
        },
    decreases n,
{
    let dids = datum_ids(datums);
    let fids = feature_ids(features);
    if n > 0 {
        lemma_no_wrong_feature(datums, features, n - 1);
        let f = features[n - 1];
        assert(fids[n - 1] == f.id@);
        if let Some(d) = f.datum {
            if dids.contains(d@) {
                let i = choose|i: int| 0 <= i < dids.len() && #[trigger] dids[i] == d@;
                assert(datums[i].id@ == d@);
            } else {
                assert forall|i: int| 0 <= i < datums.len() implies datums[i].id@ != d@ by {
                    assert(dids[i] == datums[i].id@);
                }
            }
        }
        if fids.take(n - 1).contains(fids[n - 1]) {
            let a = choose|a: int| 0 <= a < n - 1 && #[trigger] fids.take(n - 1)[a] == fids[n - 1];
            assert(fids[a] == features[a].id@);
        } else {
            assert forall|a: int| 0 <= a < n - 1 implies #[trigger] features[a].id@ != features[n - 1].id@ by {
                assert(fids.take(n - 1)[a] == fids[a]);
                assert(fids[a] == features[a].id@);
            }
        }
    }
}

/// The entries pass the check exactly when they are valid: no repeated
/// datum id, no repeated feature id, and no feature naming a datum that is
/// not among the datums. A feature may name any of the datums, not only the
/// first.
pub proof fn lemma_valid_entries_pass(datums: Seq<DatumConfig>, features: Seq<FeatureBinding>)
    ensures
        (first_repeat(datum_ids(datums), datums.len() as int) is None && first_wrong_feature(
            datum_ids(datums),
            features,
            features.len() as int,
        ) is None) <==> entries_valid(datums, features),
{
    let dids = datum_ids(datums);
    lemma_no_repeat(dids, datums.len() as int);
    lemma_no_wrong_feature(datums, features, features.len() as int);
    assert forall|a: int, b: int| 0 <= a < b < datums.len() implies (dids[a] != dids[b]) == (
    datums[a].id@ != datums[b].id@) by {}
    if forall|a: int, b: int| 0 <= a < b < datums.len() ==> #[trigger] dids[a] != #[trigger] dids[b] {
        assert forall|a: int, b: int| 0 <= a < b < datums.len() implies #[trigger] datums[a].id@
            != #[trigger] datums[b].id@ by {
            assert(dids[a] == datums[a].id@ && dids[b] == datums[b].id@);
        }
    }
    if forall|a: int, b: int|
        0 <= a < b < datums.len() ==> #[trigger] datums[a].id@ != #[trigger] datums[b].id@ {
        assert forall|a: int, b: int| 0 <= a < b < datums.len() implies #[trigger] dids[a]
            != #[trigger] dids[b] by {
            assert(dids[a] == datums[a].id@ && dids[b] == datums[b].id@);
        }
    }
}

} // verus!
