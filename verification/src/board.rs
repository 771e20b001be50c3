//! Reading the layer structure of a board document.
//!
//! KiCad board files store their layer table as `(layers (id "User.1" user
//! "Display name") ...)`, and every object names the layer it is drawn on.
//! Layers are matched by canonical name everywhere; a board may also refer to
//! a user layer by the display name it was given.

use crate::config::LayerMapping;
use crate::sexpr::{
    Selection,
    args_of, children_of, deep_refs, deep_seq, head_of, lists_preorder, parse_selected, selection,
    string_of, Node, ParseError, SNode,
};
use crate::source::LayerRole;
use crate::text::{
    contains_str, contains_string, parse_i32, parse_i32_from, str_eq, str_views, string_views,
};
use vstd::prelude::*;
use vstd::string::{StrSliceExecFns, StringExecFns, StringSliceAdditionalSpecFns};

verus! {

/// Canonical name of the PCB outline layer.
pub fn edge_cuts() -> (r: &'static str)
    ensures
        r@ == "Edge.Cuts"@,
{
    "Edge.Cuts"
}

/// Which canonical KiCad layer holds which kind of enclosure geometry.
#[derive(Debug, Clone, PartialEq, Eq)]
pub struct LayerRoles {
    pub outline: String,
    pub datums: String,
    pub cuts: String,
    pub top: String,
    pub bottom: String,
    pub solids: String,
}

impl LayerRoles {
    /// The role a canonical layer name plays: `Edge.Cuts` first, then the six
    /// enclosure layers in mapping order.
    pub open spec fn role_of_spec(&self, layer: Seq<char>) -> Option<LayerRole> {
        if layer == "Edge.Cuts"@ {
            Some(LayerRole::BoardOutline)
        } else if layer == self.outline@ {
            Some(LayerRole::Outline)
        } else if layer == self.datums@ {
            Some(LayerRole::Datums)
        } else if layer == self.cuts@ {
            Some(LayerRole::Cuts)
        } else if layer == self.top@ {
            Some(LayerRole::Top)
        } else if layer == self.bottom@ {
            Some(LayerRole::Bottom)
        } else if layer == self.solids@ {
            Some(LayerRole::Solids)
        } else {
            None
        }
    }

    pub fn from_mapping(mapping: &LayerMapping) -> (r: Self)
        ensures
            r.outline@ == mapping.outline@,
            r.datums@ == mapping.datums@,
            r.cuts@ == mapping.cuts@,
            r.top@ == mapping.top@,
            r.bottom@ == mapping.bottom@,
            r.solids@ == mapping.solids@,
    {
        LayerRoles {
            outline: mapping.outline.clone(),
            datums: mapping.datums.clone(),
            cuts: mapping.cuts.clone(),
            top: mapping.top.clone(),
            bottom: mapping.bottom.clone(),
            solids: mapping.solids.clone(),
        }
    }

    pub fn role_of(&self, layer: &str) -> (r: Option<LayerRole>)
        ensures
            r == self.role_of_spec(layer@),
    {
        if str_eq(layer, edge_cuts()) {
            Some(LayerRole::BoardOutline)
        } else if str_eq(layer, self.outline.as_str()) {
            Some(LayerRole::Outline)
        } else if str_eq(layer, self.datums.as_str()) {
            Some(LayerRole::Datums)
        } else if str_eq(layer, self.cuts.as_str()) {
            Some(LayerRole::Cuts)
        } else if str_eq(layer, self.top.as_str()) {
            Some(LayerRole::Top)
        } else if str_eq(layer, self.bottom.as_str()) {
            Some(LayerRole::Bottom)
        } else if str_eq(layer, self.solids.as_str()) {
            Some(LayerRole::Solids)
        } else {
            None
        }
    }
}

/// A layer as declared in the board's `(layers ...)` block.
///
/// The ids in a board *file* are not the ids the IPC API uses, so layers are
/// matched by canonical name everywhere, and this id is kept only for
/// diagnostics.
#[derive(Debug, Clone, PartialEq, Eq)]
pub struct BoardLayer {
    /// Layer id *as written in the board file*, not the IPC layer id.
    pub id: i32,
    /// Canonical name, e.g. `User.1`.
    pub canonical: String,
    /// Display name the user (or KiCase) gave it, when set.
    pub display: Option<String>,
}

/// The value of a declared layer: its id, canonical name and display name.
pub open spec fn layer_view(l: BoardLayer) -> (i32, Seq<char>, Option<Seq<char>>) {
    (
        l.id,
        l.canonical@,
        match l.display {
            Some(d) => Some(d@),
            None => None,
        },
    )
}

/// The values of a sequence of declared layers.
pub open spec fn layer_views(v: Seq<BoardLayer>) -> Seq<(i32, Seq<char>, Option<Seq<char>>)> {
    v.map_values(|l: BoardLayer| layer_view(l))
}

/// An atom's text, when the value is an atom.
pub open spec fn atom_of(n: SNode) -> Option<Seq<char>> {
    match n {
        SNode::Atom(t) => Some(t),
        SNode::List(_) => None,
    }
}

/// One entry of the layer table, `(53 "User.1" user "Enclosure")`: a list
/// whose first item reads as an `i32` and whose second is an atom. The fourth
/// item, when it is an atom, is the display name.
pub open spec fn layer_entry(n: SNode) -> Option<(i32, Seq<char>, Option<Seq<char>>)> {
    match n {
        SNode::List(items) => if items.len() >= 2 {
            match (atom_of(items[0]), atom_of(items[1])) {
                (Some(first), Some(canonical)) => match parse_i32(first) {
                    Some(id) => Some(
                        (
                            id,
                            canonical,
                            if items.len() >= 4 {
                                atom_of(items[3])
                            } else {
                                None
                            },
                        ),
                    ),
                    None => None,
                },
                _ => None,
            }
        } else {
            None
        },
        SNode::Atom(_) => None,
    }
}

/// The layer entries among `entries`, in order, skipping anything that is not
/// one.
pub open spec fn layer_entries(entries: Seq<SNode>) -> Seq<(i32, Seq<char>, Option<Seq<char>>)>
    decreases entries.len(),
{
    if entries.len() == 0 {
        Seq::empty()
    } else {
        let rest = layer_entries(entries.drop_last());
        match layer_entry(entries.last()) {
            Some(e) => rest.push(e),
            None => rest,
        }
    }
}

/// The layer table of a document: the entries among the arguments of its
/// first `layers` child, or nothing when there is none.
pub open spec fn layer_table(root: SNode) -> Seq<(i32, Seq<char>, Option<Seq<char>>)> {
    let blocks = children_of(root, "layers"@);
    if blocks.len() > 0 {
        layer_entries(args_of(blocks[0]))
    } else {
        Seq::empty()
    }
}

/// Reads one layer table entry.
fn read_layer(entry: &Node) -> (r: Option<BoardLayer>)
    ensures
        match layer_entry(entry.deep()) {
            Some(e) => r matches Some(l) && layer_view(l) == e,
            None => r is None,
        },
{
    let items = match entry.as_list() {
        Some(items) => items,
        None => return None,
    };
    proof {
        if let Node::List(v) = entry {
            crate::sexpr::lemma_list_deep(*v);
        }
    }
    if items.len() < 2 {
        return None;
    }
    assert(deep_seq(items@)[0] == items@[0].deep());
    assert(deep_seq(items@)[1] == items@[1].deep());
    let first = match items[0].as_atom() {
        Some(first) => first,
        None => return None,
    };
    let canonical = match items[1].as_atom() {
        Some(canonical) => canonical,
        None => return None,
    };
    assert(first@.skip(0) =~= first@);
    let id = match parse_i32_from(first, 0) {
        Some(id) => id,
        None => return None,
    };
    // (53 "User.1" user "Enclosure") -- the fourth element, when present, is
    // the display name.
    let display = if items.len() >= 4 {
        assert(deep_seq(items@)[3] == items@[3].deep());
        match items[3].as_atom() {
            Some(d) => Some(d.to_owned()),
            None => None,
        }
    } else {
        None
    };
    Some(BoardLayer { id, canonical: canonical.to_owned(), display })
}

/// Every layer the board declares in its `(layers ...)` block.
pub fn read_layers(root: &Node) -> (r: Vec<BoardLayer>)
    ensures
        layer_views(r@) == layer_table(root.deep()),
{
    let mut out: Vec<BoardLayer> = Vec::new();
    let block = match root.child("layers") {
        Some(block) => block,
        None => {
            assert(layer_views(out@) =~= Seq::empty());
            return out;
        },
    };
    let entries = block.args();
    let ghost all = deep_seq(entries@);
    let mut i: usize = 0;
    assert(layer_views(out@) =~= layer_entries(all.take(0)));
    while i < entries.len()
        invariant
            i <= entries@.len(),
            all == deep_seq(entries@),
            layer_views(out@) == layer_entries(all.take(i as int)),
        decreases entries.len() - i,
    {
        assert(all.take(i + 1).drop_last() =~= all.take(i as int));
        assert(all.take(i + 1).last() == entries@[i as int].deep());
        let ghost before = out@;
        match read_layer(&entries[i]) {
            Some(layer) => {
                out.push(layer);
                assert(layer_views(out@) =~= layer_views(before).push(layer_view(layer)));
            },
            None => {},
        }
        i = i + 1;
    }
    assert(all.take(entries@.len() as int) =~= all);
    out
}

/// The canonical name of a layer a board names as `name`: the layer whose
/// display name it is (the last such in the table), or `name` itself.
pub open spec fn canonical_name(table: Seq<(i32, Seq<char>, Option<Seq<char>>)>, name: Seq<char>)
    -> Seq<char>
    decreases table.len(),
{
    if table.len() == 0 {
        name
    } else if table.last().2 == Some(name) {
        table.last().1
    } else {
        canonical_name(table.drop_last(), name)
    }
}

/// The canonical names of the layer names in `seen`, each once, in the order
/// they are first met.
pub open spec fn canonical_layers(
    table: Seq<(i32, Seq<char>, Option<Seq<char>>)>,
    seen: Seq<Seq<char>>,
) -> Seq<Seq<char>>
    decreases seen.len(),
{
    if seen.len() == 0 {
        Seq::empty()
    } else {
        let before = canonical_layers(table, seen.drop_last());
        let canonical = canonical_name(table, seen.last());
        if before.contains(canonical) {
            before
        } else {
            before.push(canonical)
        }
    }
}

/// Each used layer is recorded once.
pub proof fn lemma_canonical_layers_distinct(
    table: Seq<(i32, Seq<char>, Option<Seq<char>>)>,
    seen: Seq<Seq<char>>,
)
    ensures
        canonical_layers(table, seen).no_duplicates(),
    decreases seen.len(),
{
    if seen.len() > 0 {
        let before = canonical_layers(table, seen.drop_last());
        lemma_canonical_layers_distinct(table, seen.drop_last());
        let canonical = canonical_name(table, seen.last());
        if !before.contains(canonical) {
            let after = before.push(canonical);
            assert forall|i: int, j: int|
                0 <= i < after.len() && 0 <= j < after.len() && i != j implies after[i]
                != after[j] by {
                if i < before.len() && j < before.len() {
                } else if i == before.len() {
                    assert(after[j] == before[j]);
                } else {
                    assert(after[i] == before[i]);
                }
            }
        }
    }
}

/// A layer named anywhere in the document is recorded as used: every name in
/// `seen`, taken to its canonical name, is in the list.
pub proof fn lemma_every_seen_layer_is_used(
    table: Seq<(i32, Seq<char>, Option<Seq<char>>)>,
    seen: Seq<Seq<char>>,
)
    ensures
        forall|i: int|
            0 <= i < seen.len() ==> canonical_layers(table, seen).contains(
                canonical_name(table, #[trigger] seen[i]),
            ),
    decreases seen.len(),
{
    if seen.len() > 0 {
        let rest = seen.drop_last();
        lemma_every_seen_layer_is_used(table, rest);
        let before = canonical_layers(table, rest);
        let canonical = canonical_name(table, seen.last());
        let after = canonical_layers(table, seen);
        assert forall|i: int|
            0 <= i < seen.len() implies after.contains(canonical_name(table, #[trigger] seen[i])) by {
            if i < seen.len() - 1 {
                assert(rest[i] == seen[i]);
                let c = canonical_name(table, seen[i]);
                assert(before.contains(c));
                if !before.contains(canonical) {
                    let k = choose|k: int| 0 <= k < before.len() && before[k] == c;
                    assert(after[k] == c);
                }
            } else if !before.contains(canonical) {
                assert(after[before.len() as int] == canonical);
            }
        }
    }
}

/// The only top-level items an enclosure needs. Everything else in a board --
/// tracks, vias, zones and their fills -- is skipped without being parsed.
pub open spec fn wanted_items() -> Seq<Seq<char>> {
    seq![
        "layers"@,
        "general"@,
        "gr_line"@,
        "gr_arc"@,
        "gr_circle"@,
        "gr_rect"@,
        "gr_poly"@,
        "gr_curve"@,
        "footprint"@,
    ]
}

fn wanted_list() -> (r: Vec<&'static str>)
    ensures
        str_views(r@) == wanted_items(),
{
    let list = vec![
        "layers",
        "general",
        "gr_line",
        "gr_arc",
        "gr_circle",
        "gr_rect",
        "gr_poly",
        "gr_curve",
        "footprint",
    ];
    assert(str_views(list@) =~= wanted_items());
    list
}

/// Why a board document could not be read.
#[derive(Debug)]
pub enum ReadError {
    /// The board document could not be parsed.
    Sexpr(ParseError),
    /// This does not look like a KiCad board (no `kicad_pcb` root).
    NotABoard,
}

/// The structure of one board document: the items an enclosure needs, the
/// layers the board declares, and which layers carry objects.
#[derive(Debug, PartialEq)]
pub struct BoardReading {
    /// The document's root head followed by its wanted top-level items.
    pub root: Node,
    /// Every layer the board declares.
    pub layers: Vec<BoardLayer>,
    /// Canonical names of every layer that carries at least one object, so
    /// KiCase never takes a layer the user is already drawing on.
    pub used_layers: Vec<String>,
    /// The graphics drawn on `Edge.Cuts` or an enclosure layer, in document
    /// order.
    pub graphics: Vec<GraphicRef>,
    /// Objects KiCase understood but had to skip, with a reason.
    pub skipped: Vec<String>,
}

/// The layer that plays `role`: `Edge.Cuts` for the board outline, and the
/// layer the roles map for each enclosure layer.
pub open spec fn layer_of_role(roles: LayerRoles, role: LayerRole) -> Seq<char> {
    match role {
        LayerRole::BoardOutline => "Edge.Cuts"@,
        LayerRole::Outline => roles.outline@,
        LayerRole::Datums => roles.datums@,
        LayerRole::Cuts => roles.cuts@,
        LayerRole::Top => roles.top@,
        LayerRole::Bottom => roles.bottom@,
        LayerRole::Solids => roles.solids@,
    }
}

/// The six layers the roles map are all different, and none is `Edge.Cuts`.
pub open spec fn roles_distinct(roles: LayerRoles) -> bool {
    seq![
        "Edge.Cuts"@,
        roles.outline@,
        roles.datums@,
        roles.cuts@,
        roles.top@,
        roles.bottom@,
        roles.solids@,
    ].no_duplicates()
}

/// Each layer has the role it is mapped to. `Edge.Cuts` is the board outline,
/// and the enclosure outline layer, when it is not `Edge.Cuts`, is the
/// enclosure outline. When the six mapped layers are all different and none
/// is `Edge.Cuts`, each has its own role, and a layer has a role only when it
/// is the layer of that role.
pub proof fn lemma_each_layer_has_its_role(roles: LayerRoles, layer: Seq<char>)
    ensures
        roles.role_of_spec("Edge.Cuts"@) == Some(LayerRole::BoardOutline),
        roles.outline@ != "Edge.Cuts"@ ==> roles.role_of_spec(roles.outline@) == Some(
            LayerRole::Outline,
        ),
        roles_distinct(roles) ==> forall|role: LayerRole|
            roles.role_of_spec(#[trigger] layer_of_role(roles, role)) == Some(role),
        roles.role_of_spec(layer) matches Some(role) ==> layer == layer_of_role(roles, role),
{
    if roles_distinct(roles) {
        let names = seq![
            "Edge.Cuts"@,
            roles.outline@,
            roles.datums@,
            roles.cuts@,
            roles.top@,
            roles.bottom@,
            roles.solids@,
        ];
        assert forall|role: LayerRole| roles.role_of_spec(#[trigger] layer_of_role(roles, role))
            == Some(role) by {
            assert(names[0] == "Edge.Cuts"@);
            assert(names[1] == roles.outline@);
            assert(names[2] == roles.datums@);
            assert(names[3] == roles.cuts@);
            assert(names[4] == roles.top@);
            assert(names[5] == roles.bottom@);
            assert(names[6] == roles.solids@);
        }
    }
}

/// What is said of a Bezier curve on an enclosure layer: it is left out,
/// rather than silently approximated.
pub open spec fn curve_note(uuid: Seq<char>, canonical: Seq<char>) -> Seq<char> {
    "bezier curve "@ + uuid + " on "@ + canonical
        + " was ignored: KiCase v0.1 supports lines and arcs"@
}

/// What is said of a polygon with fewer than three points: it is left out.
pub open spec fn polygon_note(uuid: Seq<char>) -> Seq<char> {
    "polygon "@ + uuid + " has fewer than three points"@
}

/// How many `(xy ...)` points a `(gr_poly (pts ...))` value lists, when it has
/// a `pts` child: the `(xy ...)` children that are coordinate pairs.
pub open spec fn polygon_points(n: SNode) -> Option<int> {
    let pts = children_of(n, "pts"@);
    if pts.len() > 0 {
        let xys = children_of(pts[0], "xy"@);
        Some(pair_count(xys, xys.len() as int))
    } else {
        None
    }
}

/// A coordinate pair: a value whose first two arguments are plain values,
/// where its two numbers stand.
pub open spec fn pair_value(n: SNode) -> bool {
    string_of(n, 0) is Some && string_of(n, 1) is Some
}

/// The first child of `n` headed by `name` is a coordinate pair.
pub open spec fn pair_child(n: SNode, name: Seq<char>) -> bool {
    let found = children_of(n, name);
    found.len() > 0 && pair_value(found[0])
}

/// How many of the first `k` of `xs` are coordinate pairs.
pub open spec fn pair_count(xs: Seq<SNode>, k: int) -> int
    decreases k,
{
    if k <= 0 {
        0
    } else {
        pair_count(xs, k - 1) + if pair_value(xs[k - 1]) {
            1int
        } else {
            0int
        }
    }
}

/// The points a graphic's shape is read from are there: start and end of a
/// line or rectangle, start, mid and end of an arc, centre and end of a
/// circle.
pub open spec fn has_coordinates(n: SNode) -> bool {
    let h = head_of(n);
    if h == Some("gr_line"@) || h == Some("gr_rect"@) {
        pair_child(n, "start"@) && pair_child(n, "end"@)
    } else if h == Some("gr_arc"@) {
        pair_child(n, "start"@) && pair_child(n, "mid"@) && pair_child(n, "end"@)
    } else if h == Some("gr_circle"@) {
        pair_child(n, "center"@) && pair_child(n, "end"@)
    } else {
        true
    }
}

/// Whether a graphic is a shape KiCase reads: not a Bezier curve, with the
/// points its shape is read from, and not a polygon without at least three
/// points.
pub open spec fn readable_shape(n: SNode) -> bool {
    &&& head_of(n) != Some("gr_curve"@)
    &&& has_coordinates(n)
    &&& head_of(n) == Some("gr_poly"@) ==> (polygon_points(n) matches Some(k) && k >= 3)
}

proof fn lemma_graphic_heads_differ()
    ensures
        "gr_poly"@ != "gr_line"@,
        "gr_poly"@ != "gr_rect"@,
        "gr_poly"@ != "gr_arc"@,
        "gr_poly"@ != "gr_circle"@,
        "gr_curve"@ != "gr_line"@,
        "gr_curve"@ != "gr_rect"@,
        "gr_curve"@ != "gr_arc"@,
        "gr_curve"@ != "gr_circle"@,
{
    reveal_strlit("gr_poly");
    reveal_strlit("gr_curve");
    reveal_strlit("gr_line");
    reveal_strlit("gr_rect");
    reveal_strlit("gr_arc");
    reveal_strlit("gr_circle");
    assert("gr_poly"@[3] != "gr_line"@[3]);
    assert("gr_poly"@[3] != "gr_rect"@[3]);
    assert("gr_poly"@[3] != "gr_arc"@[3]);
    assert("gr_poly"@[3] != "gr_circle"@[3]);
    assert("gr_curve"@[3] != "gr_line"@[3]);
    assert("gr_curve"@[3] != "gr_rect"@[3]);
    assert("gr_curve"@[3] != "gr_arc"@[3]);
    assert("gr_curve"@[4] != "gr_circle"@[4]);
}

/// Whether a value is a coordinate pair.
fn is_pair(node: &Node) -> (r: bool)
    ensures
        r == pair_value(node.deep()),
{
    let first = match node.string(0) {
        Some(_) => true,
        None => false,
    };
    let second = match node.string(1) {
        Some(_) => true,
        None => false,
    };
    first && second
}

/// Whether the first child of `node` headed by `name` is a coordinate pair.
fn has_pair_child(node: &Node, name: &str) -> (r: bool)
    ensures
        r == pair_child(node.deep(), name@),
{
    match node.child(name) {
        Some(c) => is_pair(c),
        None => false,
    }
}

/// How many of `xs` are coordinate pairs.
fn count_pairs(xs: &Vec<&Node>) -> (r: usize)
    ensures
        r == pair_count(deep_refs(xs@), xs@.len() as int),
{
    let ghost values = deep_refs(xs@);
    let mut count: usize = 0;
    let mut i: usize = 0;
    while i < xs.len()
        invariant
            i <= xs@.len(),
            values == deep_refs(xs@),
            count == pair_count(values, i as int),
            count <= i,
        decreases xs.len() - i,
    {
        assert(values[i as int] == xs@[i as int].deep());
        if is_pair(xs[i]) {
            count = count + 1;
        }
        i = i + 1;
    }
    count
}

/// Whether the points a graphic's shape is read from are there.
fn coordinates_present(node: &Node) -> (r: bool)
    ensures
        r == has_coordinates(node.deep()),
{
    let head = match node.head() {
        Some(h) => h,
        None => {
            return true;
        },
    };
    if str_eq(head, "gr_line") || str_eq(head, "gr_rect") {
        has_pair_child(node, "start") && has_pair_child(node, "end")
    } else if str_eq(head, "gr_arc") {
        has_pair_child(node, "start") && has_pair_child(node, "mid") && has_pair_child(node, "end")
    } else if str_eq(head, "gr_circle") {
        has_pair_child(node, "center") && has_pair_child(node, "end")
    } else {
        true
    }
}

/// The note, if any, about a graphic on a layer with a role that is left out.
pub open spec fn skip_note(
    item: SNode,
    table: Seq<(i32, Seq<char>, Option<Seq<char>>)>,
) -> Option<Seq<char>> {
    let uuid = match crate::sexpr::child_string_of(item, "uuid"@) {
        Some(u) => u,
        None => Seq::empty(),
    };
    if head_of(item) == Some("gr_curve"@) {
        let layer = crate::sexpr::child_string_of(item, "layer"@)->0;
        Some(curve_note(uuid, canonical_name(table, layer)))
    } else if head_of(item) == Some("gr_poly"@) && (polygon_points(item) matches Some(k) && k < 3) {
        Some(polygon_note(uuid))
    } else {
        None
    }
}

/// The notes about the graphics among the first `n` of `items` that sit on a
/// layer with a role and are left out, in order.
pub open spec fn skip_notes(
    items: Seq<SNode>,
    roles: LayerRoles,
    table: Seq<(i32, Seq<char>, Option<Seq<char>>)>,
    n: int,
) -> Seq<Seq<char>>
    decreases n,
{
    if n <= 0 {
        Seq::empty()
    } else {
        let rest = skip_notes(items, roles, table, n - 1);
        let item = items[n - 1];
        if role_of_graphic(item, roles, table) is Some && skip_note(item, table) is Some {
            rest.push(skip_note(item, table)->0)
        } else {
            rest
        }
    }
}

/// A top-level graphic on `Edge.Cuts` or one of the enclosure layers.
#[derive(Debug, Clone, Copy, PartialEq, Eq, Structural)]
pub struct GraphicRef {
    /// Where the graphic stands among the items of [`BoardReading::root`].
    pub index: usize,
    /// What the layer it is drawn on means.
    pub role: LayerRole,
}

/// The heads of the drawn graphics an enclosure reads.
pub open spec fn graphic_heads() -> Seq<Seq<char>> {
    seq!["gr_line"@, "gr_arc"@, "gr_circle"@, "gr_rect"@, "gr_poly"@, "gr_curve"@]
}

fn graphic_head_list() -> (r: Vec<&'static str>)
    ensures
        str_views(r@) == graphic_heads(),
{
    let list = vec!["gr_line", "gr_arc", "gr_circle", "gr_rect", "gr_poly", "gr_curve"];
    assert(str_views(list@) =~= graphic_heads());
    list
}

/// The role of the layer a value is drawn on, looking a display name up in
/// `table`.
pub open spec fn role_of_graphic(
    n: SNode,
    roles: LayerRoles,
    table: Seq<(i32, Seq<char>, Option<Seq<char>>)>,
) -> Option<LayerRole> {
    match crate::sexpr::child_string_of(n, "layer"@) {
        Some(name) => roles.role_of_spec(canonical_name(table, name)),
        None => None,
    }
}

/// The graphics among the first `n` of `items` that sit on a layer with a
/// role, in order.
pub open spec fn graphic_refs(
    items: Seq<SNode>,
    roles: LayerRoles,
    table: Seq<(i32, Seq<char>, Option<Seq<char>>)>,
    n: int,
) -> Seq<GraphicRef>
    decreases n,
{
    if n <= 0 {
        Seq::empty()
    } else {
        let rest = graphic_refs(items, roles, table, n - 1);
        let item = items[n - 1];
        if head_of(item) is Some && graphic_heads().contains(head_of(item)->0) && readable_shape(
            item,
        ) {
            match role_of_graphic(item, roles, table) {
                Some(role) => rest.push(GraphicRef { index: (n - 1) as usize, role }),
                None => rest,
            }
        } else {
            rest
        }
    }
}

/// The canonical name of the layer a board names `name`.
pub fn canonical_layer<'a>(layers: &'a [BoardLayer], name: &'a str) -> (r: &'a str)
    ensures
        r@ == canonical_name(layer_views(layers@), name@),
{
    let ghost table = layer_views(layers@);
    let mut i = layers.len();
    assert(table.take(i as int) =~= table);
    while i > 0
        invariant
            i <= layers@.len(),
            table == layer_views(layers@),
            canonical_name(table, name@) == canonical_name(table.take(i as int), name@),
        decreases i,
    {
        let layer = &layers[i - 1];
        assert(table.take(i as int).last() == layer_view(*layer));
        assert(table.take(i as int).drop_last() =~= table.take(i - 1));
        if let Some(display) = &layer.display {
            if str_eq(display.as_str(), name) {
                return layer.canonical.as_str();
            }
        }
        i = i - 1;
    }
    name
}

/// Reads the structure of a `.kicad_pcb` document.
pub fn read_board(text: &str, roles: &LayerRoles) -> (r: Result<BoardReading, ReadError>)
    requires
        text.spec_bytes().len() < usize::MAX,
    ensures
        match selection(text.spec_bytes(), wanted_items()) {
            Err(e) => r matches Err(ReadError::Sexpr(err)) && crate::sexpr::error_is(err, e),
            Ok((items, seen)) => if head_of(SNode::List(items)) == Some("kicad_pcb"@) {
                r matches Ok(reading) && {
                    let table = layer_table(SNode::List(items));
                    &&& reading.root.deep() == SNode::List(items)
                    &&& layer_views(reading.layers@) == table
                    // Every layer named anywhere, skipped objects included.
                    &&& string_views(reading.used_layers@) == canonical_layers(table, seen)
                    &&& string_views(reading.used_layers@).no_duplicates()
                    &&& reading.graphics@ == graphic_refs(items, *roles, table, items.len() as int)
                    &&& string_views(reading.skipped@) == skip_notes(
                        items,
                        *roles,
                        table,
                        items.len() as int,
                    )
                }
            } else {
                r matches Err(ReadError::NotABoard)
            },
        },
{
    let wanted = wanted_list();
    let selection = match parse_selected(text, wanted.as_slice()) {
        Ok(selection) => selection,
        Err(err) => return Err(ReadError::Sexpr(err)),
    };
    let Selection { items: kept, layers_seen } = selection;
    let root = Node::List(kept);
    proof {
        crate::sexpr::lemma_list_deep(kept);
    }
    let is_board = match root.head() {
        Some(head) => str_eq(head, "kicad_pcb"),
        None => false,
    };
    if !is_board {
        return Err(ReadError::NotABoard);
    }
    let layers = read_layers(&root);
    let ghost table = layer_views(layers@);
    // Every layer named anywhere in the document, skipped items included, so
    // that text, tracks and zones on a user layer count as use too.
    let ghost seen = string_views(layers_seen@);
    let mut used_layers: Vec<String> = Vec::new();
    let mut i: usize = 0;
    assert(string_views(used_layers@) =~= canonical_layers(table, seen.take(0)));
    while i < layers_seen.len()
        invariant
            i <= layers_seen@.len(),
            seen == string_views(layers_seen@),
            table == layer_views(layers@),
            string_views(used_layers@) == canonical_layers(table, seen.take(i as int)),
        decreases layers_seen.len() - i,
    {
        assert(seen.take(i + 1).drop_last() =~= seen.take(i as int));
        assert(seen.take(i + 1).last() == layers_seen@[i as int]@);
        let canonical = canonical_layer(layers.as_slice(), layers_seen[i].as_str());
        if !contains_string(&used_layers, canonical) {
            let ghost before = used_layers@;
            used_layers.push(canonical.to_owned());
            assert(string_views(used_layers@) =~= string_views(before).push(canonical@));
        }
        i = i + 1;
    }
    assert(seen.take(layers_seen@.len() as int) =~= seen);
    proof {
        lemma_canonical_layers_distinct(table, seen);
    }

    let heads = graphic_head_list();
    let mut graphics: Vec<GraphicRef> = Vec::new();
    let mut skipped: Vec<String> = Vec::new();
    let items = match root.as_list() {
        Some(items) => items,
        None => return Err(ReadError::NotABoard),
    };
    let ghost values = deep_seq(items@);
    let mut i: usize = 0;
    while i < items.len()
        invariant
            i <= items@.len(),
            values == deep_seq(items@),
            table == layer_views(layers@),
            str_views(heads@) == graphic_heads(),
            graphics@ == graphic_refs(values, *roles, table, i as int),
            string_views(skipped@) == skip_notes(values, *roles, table, i as int),
        decreases items.len() - i,
    {
        let item = &items[i];
        assert(values[i as int] == item.deep());
        let is_graphic = match item.head() {
            Some(h) => contains_str(heads.as_slice(), h),
            None => false,
        };
        if is_graphic {
            match graphic_role(item, roles, layers.as_slice()) {
                Some(role) => {
                    let (is_curve, is_poly) = match item.head() {
                        Some(h) => (str_eq(h, "gr_curve"), str_eq(h, "gr_poly")),
                        None => (false, false),
                    };
                    let points: Option<usize> = match item.child("pts") {
                        Some(pts) => Some(count_pairs(&pts.children("xy"))),
                        None => None,
                    };
                    let uuid = match item.child_string("uuid") {
                        Some(u) => u,
                        None => "",
                    };
                    proof {
                        reveal_strlit("");
                    }
                    let ghost before = skipped@;
                    proof {
                        lemma_graphic_heads_differ();
                    }
                    if is_curve {
                        // Bezier curves are out of scope; say so rather than
                        // silently approximating them.
                        let layer = match item.child_string("layer") {
                            Some(l) => l,
                            None => "",
                        };
                        let mut note = "bezier curve ".to_owned();
                        note.append(uuid);
                        note.append(" on ");
                        note.append(canonical_layer(layers.as_slice(), layer));
                        note.append(" was ignored: KiCase v0.1 supports lines and arcs");
                        skipped.push(note);
                        assert(string_views(skipped@) =~= string_views(before).push(
                            curve_note(uuid@, canonical_name(table, layer@)),
                        ));
                    } else if is_poly {
                        match points {
                            Some(k) => {
                                if k < 3 {
                                    let mut note = "polygon ".to_owned();
                                    note.append(uuid);
                                    note.append(" has fewer than three points");
                                    skipped.push(note);
                                    assert(string_views(skipped@) =~= string_views(before).push(
                                        polygon_note(uuid@),
                                    ));
                                } else {
                                    graphics.push(GraphicRef { index: i, role });
                                }
                            },
                            None => {},
                        }
                    } else if coordinates_present(item) {
                        graphics.push(GraphicRef { index: i, role });
                    }
                },
                None => {},
            }
        } else {
            assert(head_of(values[i as int]) != Some("gr_curve"@) && head_of(values[i as int])
                != Some("gr_poly"@)) by {
                assert(str_views(heads@).len() == heads@.len());
                assert(graphic_heads()[5] == "gr_curve"@);
                assert(str_views(heads@)[5] == heads@[5]@);
                assert(graphic_heads()[4] == "gr_poly"@);
                assert(str_views(heads@)[4] == heads@[4]@);
            }
        }
        i = i + 1;
    }
    Ok(BoardReading { root, layers, used_layers, graphics, skipped })
}

/// The role of the layer a graphic is drawn on, when it is one of the
/// enclosure layers or `Edge.Cuts`. A board may refer to a user layer by its
/// display name.
pub fn graphic_role(node: &Node, roles: &LayerRoles, layers: &[BoardLayer]) -> (r: Option<LayerRole>)
    ensures
        r == match crate::sexpr::child_string_of(node.deep(), "layer"@) {
            Some(name) => roles.role_of_spec(canonical_name(layer_views(layers@), name)),
            None => None,
        },
{
    match node.child_string("layer") {
        Some(name) => roles.role_of(canonical_layer(layers, name)),
        None => None,
    }
}

/// The first `(property "Reference" ...)` among the first `n` property
/// children of a footprint value.
pub open spec fn reference_property(props: Seq<SNode>, n: int) -> Option<SNode>
    decreases n,
{
    if n <= 0 {
        None
    } else {
        match reference_property(props, n - 1) {
            Some(p) => Some(p),
            None => if string_of(props[n - 1], 0) == Some("Reference"@) {
                Some(props[n - 1])
            } else {
                None
            },
        }
    }
}

/// The reference designator of a footprint value: the second argument of its
/// first `(property "Reference" ...)`.
pub open spec fn reference_of(n: SNode) -> Option<Seq<char>> {
    let props = children_of(n, "property"@);
    match reference_property(props, props.len() as int) {
        Some(p) => string_of(p, 1),
        None => None,
    }
}

proof fn lemma_reference_property_stable(props: Seq<SNode>, m: int, n: int)
    requires
        0 <= m <= n,
        reference_property(props, m) is Some,
    ensures
        reference_property(props, n) == reference_property(props, m),
    decreases n - m,
{
    if m < n {
        lemma_reference_property_stable(props, m, n - 1);
    }
}

/// The reference designator of a footprint, such as `H1`.
pub fn footprint_reference(node: &Node) -> (r: Option<&str>)
    ensures
        match reference_of(node.deep()) {
            Some(t) => r matches Some(s) && s@ == t,
            None => r is None,
        },
{
    let props = node.children("property");
    let ghost values = deep_refs(props@);
    let mut i: usize = 0;
    while i < props.len()
        invariant
            i <= props@.len(),
            values == deep_refs(props@),
            values == children_of(node.deep(), "property"@),
            reference_property(values, i as int) is None,
        decreases props.len() - i,
    {
        let prop = props[i];
        assert(values[i as int] == prop.deep());
        let is_reference = match prop.string(0) {
            Some(name) => str_eq(name, "Reference"),
            None => false,
        };
        if is_reference {
            proof {
                lemma_reference_property_stable(values, i + 1, values.len() as int);
            }
            return prop.string(1);
        }
        i = i + 1;
    }
    None
}

/// True when a footprint value sits on a back layer, i.e. under the board.
pub open spec fn on_back_of(n: SNode) -> bool {
    match crate::sexpr::child_string_of(n, "layer"@) {
        Some(layer) => layer.len() >= 2 && layer[0] == 'B' && layer[1] == '.',
        None => false,
    }
}

/// True when the footprint sits on `B.Cu` (any `B.` layer), under the board.
pub fn footprint_on_back(node: &Node) -> (r: bool)
    ensures
        r == on_back_of(node.deep()),
{
    match node.child_string("layer") {
        Some(layer) => layer.unicode_len() >= 2 && layer.get_char(0) == 'B' && layer.get_char(1)
            == '.',
        None => false,
    }
}

/// Whether KiCad draws a `(model ...)` value: both `(hide yes)` and a bare
/// `(hide)` hide it; only `(hide no)` does not.
pub open spec fn model_shown_of(n: SNode) -> bool {
    let hides = children_of(n, "hide"@);
    hides.len() == 0 || string_of(hides[0], 0) == Some("no"@)
}

/// Whether KiCad draws this `(model ...)` entry.
pub fn model_shown(node: &Node) -> (r: bool)
    ensures
        r == model_shown_of(node.deep()),
{
    match node.child("hide") {
        Some(hide) => match hide.string(0) {
            Some(value) => str_eq(value, "no"),
            None => false,
        },
        None => true,
    }
}

/// Where a model's offset is written, and whether it is in inches. Boards
/// from KiCad 6 on write `(offset (xyz ...))` in millimetres; a board carried
/// forward from KiCad 5 still writes `(at (xyz ...))`, which KiCad reads as
/// inches.
pub fn model_offset_source(node: &Node) -> (r: Option<(&Node, bool)>)
    ensures
        children_of(node.deep(), "offset"@).len() > 0 ==> (r matches Some((o, inches)) && !inches
            && o.deep() == children_of(node.deep(), "offset"@)[0]),
        children_of(node.deep(), "offset"@).len() == 0 && children_of(node.deep(), "at"@).len() > 0
            ==> (r matches Some((o, inches)) && inches && o.deep() == children_of(
            node.deep(),
            "at"@,
        )[0]),
        children_of(node.deep(), "offset"@).len() == 0 && children_of(node.deep(), "at"@).len()
            == 0 ==> r is None,
{
    match node.child("offset") {
        Some(offset) => Some((offset, false)),
        None => match node.child("at") {
            Some(at) => Some((at, true)),
            None => None,
        },
    }
}

/// Whether a `(pad ...)` value is a candidate mounting hole: a non-plated
/// through hole with a circular drill, which gives its diameter first, and a
/// position. An oval drill, `(drill oval w h)`, is a slot and not a screw
/// hole.
pub open spec fn round_npth_of(n: SNode) -> bool {
    let drills = children_of(n, "drill"@);
    &&& string_of(n, 1) == Some("np_thru_hole"@)
    &&& drills.len() > 0
    &&& string_of(drills[0], 0) matches Some(d) && d != "oval"@
    &&& pair_child(n, "at"@)
}

/// Whether a pad is a candidate mounting hole.
pub fn round_npth(pad: &Node) -> (r: bool)
    ensures
        r == round_npth_of(pad.deep()),
{
    let plating = match pad.string(1) {
        Some(kind) => str_eq(kind, "np_thru_hole"),
        None => false,
    };
    if !plating {
        return false;
    }
    let drilled = match pad.child("drill") {
        Some(drill) => match drill.string(0) {
            Some(first) => !str_eq(first, "oval"),
            None => false,
        },
        None => false,
    };
    drilled && has_pair_child(pad, "at")
}

} // verus!
