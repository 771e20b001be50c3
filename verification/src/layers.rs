//! Claiming KiCad user layers.
//!
//! KiCase never assumes `User.1` through `User.6` are free. It looks at what
//! the board actually declares and what it draws on, then claims user layers
//! that are genuinely unused, or re-claims the ones it used last time.
//!
//! The ids here are the IPC API's layer ids, which are what enabling layers
//! expects. They are not the ids a board file uses for the same layers, so
//! layers are matched by canonical name and converted to an id only at the
//! point of the API call.

use crate::board::{layer_view, layer_views, BoardLayer, BoardReading};
use crate::config::{display_names, layer_display_names, LayerMapping};
use crate::text::{
    contains_string, decimal, lemma_decimal, parse_i32, parse_i32_from, push_decimal, str_eq,
    string_views,
};
use vstd::prelude::*;
use vstd::string::StringExecFns;

verus! {

/// KiCad layer id of `User.1`.
pub const FIRST_USER_LAYER_ID: i32 = 53;

/// KiCad layer id of `User.45`, the last one.
pub const LAST_USER_LAYER_ID: i32 = 98;

/// `User.9` is id 61; id 62 is KiCad's internal `Rescue` layer, and `User.10`
/// resumes at 63. The numbering is not contiguous.
pub const RESCUE_LAYER_ID: i32 = 62;

/// How many user layers precede the `Rescue` gap.
pub const USER_LAYERS_BEFORE_GAP: i32 = 9;

/// `User.`, the prefix of every user layer's canonical name.
pub open spec fn user_prefix() -> Seq<char> {
    seq!['U', 's', 'e', 'r', '.']
}

/// The canonical name of a user layer id.
pub open spec fn user_layer_name_of(id: int) -> Option<Seq<char>> {
    if 53 <= id <= 61 {
        Some(user_prefix() + decimal((id - 52) as nat))
    } else if 63 <= id <= 98 {
        Some(user_prefix() + decimal((id - 53) as nat))
    } else {
        None
    }
}

/// The layer id a name such as `User.7` stands for: the number after `User.`
/// is read as `str::parse::<i32>` reads it, counted from 1, and mapped past
/// the `Rescue` gap.
pub open spec fn user_layer_id_of(name: Seq<char>) -> Option<i32> {
    if name.len() >= 5 && name.take(5) == user_prefix() {
        match parse_i32(name.skip(5)) {
            Some(index) => if index < 1 {
                None
            } else {
                let id: int = if index <= 9 {
                    53 + index - 1
                } else {
                    53 + index
                };
                if id != 62 && 53 <= id <= 98 {
                    Some(id as i32)
                } else {
                    None
                }
            },
            None => None,
        }
    } else {
        None
    }
}

/// Canonical name of a user layer id, or `None` if the id is not a user layer.
pub fn user_layer_name(id: i32) -> (r: Option<String>)
    ensures
        match user_layer_name_of(id as int) {
            Some(t) => r matches Some(s) && s@ == t,
            None => r is None,
        },
{
    let index: i32 = if FIRST_USER_LAYER_ID <= id && id <= 61 {
        id - FIRST_USER_LAYER_ID + 1
    } else if 63 <= id && id <= LAST_USER_LAYER_ID {
        id - FIRST_USER_LAYER_ID
    } else {
        return None;
    };
    let mut name = "User.".to_owned();
    proof {
        reveal_strlit("User.");
    }
    push_decimal(&mut name, index as u32);
    Some(name)
}

/// Layer id for a canonical user layer name such as `User.7`.
pub fn user_layer_id(name: &str) -> (r: Option<i32>)
    ensures
        r == user_layer_id_of(name@),
{
    let len = name.unicode_len();
    if len < 5 {
        return None;
    }
    let prefixed = name.get_char(0) == 'U' && name.get_char(1) == 's' && name.get_char(2) == 'e'
        && name.get_char(3) == 'r' && name.get_char(4) == '.';
    if !prefixed {
        assert(name@.take(5) != user_prefix()) by {
            if name@.take(5) == user_prefix() {
                assert(name@.take(5)[0] == 'U');
                assert(name@.take(5)[1] == 's');
                assert(name@.take(5)[2] == 'e');
                assert(name@.take(5)[3] == 'r');
                assert(name@.take(5)[4] == '.');
            }
        }
        return None;
    }
    assert(name@.take(5) =~= user_prefix());
    let index = match parse_i32_from(name, 5) {
        Some(index) => index,
        None => return None,
    };
    if index < 1 {
        return None;
    }
    // Computed wide, so that an enormous index is simply not a user layer.
    let id: i64 = if index <= USER_LAYERS_BEFORE_GAP {
        FIRST_USER_LAYER_ID as i64 + index as i64 - 1
    } else {
        FIRST_USER_LAYER_ID as i64 + index as i64
    };
    if id != RESCUE_LAYER_ID as i64 && FIRST_USER_LAYER_ID as i64 <= id && id
        <= LAST_USER_LAYER_ID as i64 {
        Some(id as i32)
    } else {
        None
    }
}

/// Every user layer id has a canonical name, and reading that name back
/// gives the id again.
pub proof fn lemma_user_layer_round_trip(id: i32)
    ensures
        user_layer_name_of(id as int) is Some <==> (53 <= id <= 61 || 63 <= id <= 98),
        user_layer_name_of(id as int) matches Some(name) ==> user_layer_id_of(name) == Some(id),
{
    if let Some(name) = user_layer_name_of(id as int) {
        let k: nat = if id <= 61 {
            (id - 52) as nat
        } else {
            (id - 53) as nat
        };
        lemma_decimal(k);
        assert(name.take(5) =~= user_prefix());
        assert(name.skip(5) =~= decimal(k));
    }
}

/// A name that reads as a user layer id is that id's canonical name or
/// another spelling of it (`User.07`, `User.+7`): the id always has a name.
pub proof fn lemma_user_layer_id_has_name(name: Seq<char>)
    ensures
        user_layer_id_of(name) matches Some(id) ==> user_layer_name_of(id as int) is Some,
{
}

/// The canonical name of the first of the first `n` layers of `table` that
/// displays `display`.
pub open spec fn first_displaying(
    table: Seq<(i32, Seq<char>, Option<Seq<char>>)>,
    display: Seq<char>,
    n: int,
) -> Option<Seq<char>>
    decreases n,
{
    if n <= 0 {
        None
    } else {
        match first_displaying(table, display, n - 1) {
            Some(c) => Some(c),
            None => if table[n - 1].2 == Some(display) {
                Some(table[n - 1].1)
            } else {
                None
            },
        }
    }
}

/// The display name (if it has one) of the first of the first `n` layers of
/// `table` whose canonical name is `canonical`, or `None` when no such layer
/// is declared.
pub open spec fn first_named(
    table: Seq<(i32, Seq<char>, Option<Seq<char>>)>,
    canonical: Seq<char>,
    n: int,
) -> Option<Option<Seq<char>>>
    decreases n,
{
    if n <= 0 {
        None
    } else {
        match first_named(table, canonical, n - 1) {
            Some(d) => Some(d),
            None => if table[n - 1].1 == canonical {
                Some(table[n - 1].2)
            } else {
                None
            },
        }
    }
}

/// The first user layer, from id `id` on, that is neither `chosen` nor `used`.
pub open spec fn first_free_from(chosen: Seq<Seq<char>>, used: Seq<Seq<char>>, id: int) -> Option<
    Seq<char>,
>
    decreases 99 - id,
{
    if id > 98 {
        None
    } else {
        match user_layer_name_of(id) {
            Some(name) => if !chosen.contains(name) && !used.contains(name) {
                Some(name)
            } else {
                first_free_from(chosen, used, id + 1)
            },
            None => first_free_from(chosen, used, id + 1),
        }
    }
}

/// The layer KiCase would like for enclosure layer `index`: the one already
/// displaying KiCase's name for it, else the one the project file recorded.
pub open spec fn preferred(
    table: Seq<(i32, Seq<char>, Option<Seq<char>>)>,
    existing: Option<Seq<Seq<char>>>,
    index: int,
) -> Option<Seq<char>> {
    match first_displaying(table, display_names()[index], table.len() as int) {
        Some(c) => Some(c),
        None => match existing {
            Some(m) => Some(m[index]),
            None => None,
        },
    }
}

/// The layer taken for enclosure layer `index` once `chosen` are taken: the
/// preferred one when it is a user layer not yet taken, else the first free
/// user layer.
pub open spec fn pick(
    table: Seq<(i32, Seq<char>, Option<Seq<char>>)>,
    used: Seq<Seq<char>>,
    existing: Option<Seq<Seq<char>>>,
    chosen: Seq<Seq<char>>,
    index: int,
) -> Option<Seq<char>> {
    let candidate = preferred(table, existing, index);
    if candidate is Some && user_layer_id_of(candidate->0) is Some && !chosen.contains(
        candidate->0,
    ) {
        candidate
    } else {
        first_free_from(chosen, used, 53)
    }
}

/// The layers taken for the first `k` enclosure layers, in mapping order, or
/// `None` when one of them could not be found.
pub open spec fn chosen_layers(
    table: Seq<(i32, Seq<char>, Option<Seq<char>>)>,
    used: Seq<Seq<char>>,
    existing: Option<Seq<Seq<char>>>,
    k: int,
) -> Option<Seq<Seq<char>>>
    decreases k,
{
    if k <= 0 {
        Some(Seq::empty())
    } else {
        match chosen_layers(table, used, existing, k - 1) {
            Some(chosen) => match pick(table, used, existing, chosen, k - 1) {
                Some(name) => Some(chosen.push(name)),
                None => None,
            },
            None => None,
        }
    }
}

/// The user layer ids of `names`, in order, leaving out names that are not
/// user layers.
pub open spec fn ids_of(names: Seq<Seq<char>>) -> Seq<i32>
    decreases names.len(),
{
    if names.len() == 0 {
        Seq::empty()
    } else {
        let rest = ids_of(names.drop_last());
        match user_layer_id_of(names.last()) {
            Some(id) => rest.push(id),
            None => rest,
        }
    }
}

/// The ids of `ids` that are not in `enabled`, in order.
pub open spec fn not_enabled(ids: Seq<i32>, enabled: Seq<i32>) -> Seq<i32>
    decreases ids.len(),
{
    if ids.len() == 0 {
        Seq::empty()
    } else {
        let rest = not_enabled(ids.drop_last(), enabled);
        if enabled.contains(ids.last()) {
            rest
        } else {
            rest.push(ids.last())
        }
    }
}

/// Whether the layer with id `id` still has to be given the display name
/// `display`: it is not declared, or declared with another display name.
pub open spec fn needs_name(
    table: Seq<(i32, Seq<char>, Option<Seq<char>>)>,
    id: int,
    display: Seq<char>,
) -> bool {
    let canonical = match user_layer_name_of(id) {
        Some(name) => name,
        None => Seq::empty(),
    };
    match first_named(table, canonical, table.len() as int) {
        Some(d) => d != Some(display),
        None => true,
    }
}

/// The renames among the first `n` ids, each paired with the display name of
/// its enclosure layer.
pub open spec fn renames(
    table: Seq<(i32, Seq<char>, Option<Seq<char>>)>,
    ids: Seq<i32>,
    n: int,
) -> Seq<(i32, Seq<char>)>
    decreases n,
{
    if n <= 0 {
        Seq::empty()
    } else {
        let rest = renames(table, ids, n - 1);
        if needs_name(table, ids[n - 1] as int, display_names()[n - 1]) {
            rest.push((ids[n - 1], display_names()[n - 1]))
        } else {
            rest
        }
    }
}

/// The value of a list of renames.
pub open spec fn rename_views(v: Seq<(i32, String)>) -> Seq<(i32, Seq<char>)> {
    v.map_values(|p: (i32, String)| (p.0, p.1@))
}

/// The names of an optional mapping.
pub open spec fn mapping_names(existing: Option<&LayerMapping>) -> Option<Seq<Seq<char>>> {
    match existing {
        Some(m) => Some(m.names()),
        None => None,
    }
}

/// The outcome of choosing layers for a board.
#[derive(Debug, Clone, PartialEq, Eq)]
pub struct LayerPlan {
    pub mapping: LayerMapping,
    /// Layers that must be enabled on the board.
    pub enable: Vec<i32>,
    /// Display names KiCase would like KiCad to show, paired with layer ids.
    pub rename: Vec<(i32, String)>,
    /// True when the plan simply confirms what the board already had.
    pub unchanged: bool,
}

proof fn lemma_first_displaying_stable(
    table: Seq<(i32, Seq<char>, Option<Seq<char>>)>,
    display: Seq<char>,
    m: int,
    n: int,
)
    requires
        m <= n,
        first_displaying(table, display, m) is Some,
    ensures
        first_displaying(table, display, n) == first_displaying(table, display, m),
    decreases n - m,
{
    if m < n {
        lemma_first_displaying_stable(table, display, m, n - 1);
    }
}

proof fn lemma_first_named_stable(
    table: Seq<(i32, Seq<char>, Option<Seq<char>>)>,
    canonical: Seq<char>,
    m: int,
    n: int,
)
    requires
        m <= n,
        first_named(table, canonical, m) is Some,
    ensures
        first_named(table, canonical, n) == first_named(table, canonical, m),
    decreases n - m,
{
    if m < n {
        lemma_first_named_stable(table, canonical, m, n - 1);
    }
}

/// The canonical name of the first declared layer displaying `display`.
fn first_with_display<'a>(layers: &'a [BoardLayer], display: &str) -> (r: Option<&'a str>)
    ensures
        match first_displaying(layer_views(layers@), display@, layers@.len() as int) {
            Some(c) => r matches Some(s) && s@ == c,
            None => r is None,
        },
{
    let ghost table = layer_views(layers@);
    let mut i: usize = 0;
    while i < layers.len()
        invariant
            i <= layers@.len(),
            table == layer_views(layers@),
            first_displaying(table, display@, i as int) is None,
        decreases layers.len() - i,
    {
        assert(table[i as int] == layer_view(layers@[i as int]));
        if let Some(d) = &layers[i].display {
            if str_eq(d.as_str(), display) {
                proof {
                    lemma_first_displaying_stable(table, display@, i + 1, layers@.len() as int);
                }
                return Some(layers[i].canonical.as_str());
            }
        }
        i = i + 1;
    }
    None
}

/// The display name of the first declared layer called `canonical`, or `None`
/// when no layer is.
fn display_of<'a>(layers: &'a [BoardLayer], canonical: &str) -> (r: Option<Option<&'a str>>)
    ensures
        match first_named(layer_views(layers@), canonical@, layers@.len() as int) {
            Some(Some(d)) => r matches Some(Some(s)) && s@ == d,
            Some(None) => r matches Some(None),
            None => r is None,
        },
{
    let ghost table = layer_views(layers@);
    let mut i: usize = 0;
    while i < layers.len()
        invariant
            i <= layers@.len(),
            table == layer_views(layers@),
            first_named(table, canonical@, i as int) is None,
        decreases layers.len() - i,
    {
        assert(table[i as int] == layer_view(layers@[i as int]));
        if str_eq(layers[i].canonical.as_str(), canonical) {
            proof {
                lemma_first_named_stable(table, canonical@, i + 1, layers@.len() as int);
            }
            return match &layers[i].display {
                Some(d) => Some(Some(d.as_str())),
                None => Some(None),
            };
        }
        i = i + 1;
    }
    None
}

/// The first user layer that is neither taken nor drawn on.
fn first_free(chosen: &Vec<String>, used: &Vec<String>) -> (r: Option<String>)
    ensures
        match first_free_from(string_views(chosen@), string_views(used@), 53) {
            Some(n) => r matches Some(s) && s@ == n,
            None => r is None,
        },
{
    let ghost c = string_views(chosen@);
    let ghost u = string_views(used@);
    let mut id: i32 = FIRST_USER_LAYER_ID;
    while id <= LAST_USER_LAYER_ID
        invariant
            53 <= id <= 99,
            c == string_views(chosen@),
            u == string_views(used@),
            first_free_from(c, u, 53) == first_free_from(c, u, id as int),
        decreases 99 - id,
    {
        if let Some(name) = user_layer_name(id) {
            if !contains_string(chosen, name.as_str()) && !contains_string(used, name.as_str()) {
                return Some(name);
            }
        }
        id = id + 1;
    }
    None
}

/// A free layer found from `id` on is a user layer that is neither taken nor
/// drawn on.
proof fn lemma_first_free(chosen: Seq<Seq<char>>, used: Seq<Seq<char>>, id: int)
    requires
        53 <= id,
    ensures
        first_free_from(chosen, used, id) matches Some(name) ==> {
            &&& !chosen.contains(name)
            &&& !used.contains(name)
            &&& user_layer_id_of(name) is Some
        },
    decreases 99 - id,
{
    if id <= 98 {
        match user_layer_name_of(id) {
            Some(name) => {
                if !chosen.contains(name) && !used.contains(name) {
                    lemma_user_layer_round_trip(id as i32);
                } else {
                    lemma_first_free(chosen, used, id + 1);
                }
            },
            None => lemma_first_free(chosen, used, id + 1),
        }
    }
}

/// Once a layer could not be found, the plan stays without one.
proof fn lemma_chosen_none(
    table: Seq<(i32, Seq<char>, Option<Seq<char>>)>,
    used: Seq<Seq<char>>,
    existing: Option<Seq<Seq<char>>>,
    m: int,
    n: int,
)
    requires
        0 <= m <= n,
        chosen_layers(table, used, existing, m) is None,
    ensures
        chosen_layers(table, used, existing, n) is None,
    decreases n - m,
{
    if m < n {
        lemma_chosen_none(table, used, existing, m, n - 1);
    }
}

/// What every plan keeps, whatever the board: each enclosure layer gets a user
/// layer of its own, and a layer that carries objects is only ever taken
/// because it already displays KiCase's name or the project file recorded it.
pub proof fn lemma_chosen_layers(
    table: Seq<(i32, Seq<char>, Option<Seq<char>>)>,
    used: Seq<Seq<char>>,
    existing: Option<Seq<Seq<char>>>,
    k: int,
)
    requires
        0 <= k <= 6,
    ensures
        chosen_layers(table, used, existing, k) matches Some(chosen) ==> {
            &&& chosen.len() == k
            &&& forall|i: int| 0 <= i < k ==> user_layer_id_of(#[trigger] chosen[i]) is Some
            &&& forall|i: int, j: int| 0 <= i < j < k ==> chosen[i] != chosen[j]
            &&& forall|i: int|
                0 <= i < k && used.contains(#[trigger] chosen[i]) ==> preferred(
                    table,
                    existing,
                    i,
                ) == Some(chosen[i])
        },
    decreases k,
{
    if k > 0 {
        lemma_chosen_layers(table, used, existing, k - 1);
        if let Some(before) = chosen_layers(table, used, existing, k - 1) {
            lemma_first_free(before, used, 53);
            if let Some(name) = pick(table, used, existing, before, k - 1) {
                let chosen = before.push(name);
                assert(!before.contains(name));
                assert forall|i: int, j: int| 0 <= i < j < k implies chosen[i] != chosen[j] by {
                    if j == k - 1 {
                        assert(before[i] == chosen[i]);
                        assert(before.contains(before[i]));
                    }
                }
                assert forall|i: int| 0 <= i < k implies user_layer_id_of(
                    #[trigger] chosen[i],
                ) is Some by {
                    if i < k - 1 {
                        assert(before[i] == chosen[i]);
                    }
                }
                assert forall|i: int|
                    0 <= i < k && used.contains(#[trigger] chosen[i]) implies preferred(
                    table,
                    existing,
                    i,
                ) == Some(chosen[i]) by {
                    if i < k - 1 {
                        assert(before[i] == chosen[i]);
                    }
                }
            }
        }
    }
}

/// The layer at `k` of the table is the first to display `display`.
pub open spec fn first_to_display(
    table: Seq<(i32, Seq<char>, Option<Seq<char>>)>,
    display: Seq<char>,
    k: int,
) -> bool {
    &&& 0 <= k < table.len()
    &&& table[k].2 == Some(display)
    &&& forall|j: int| 0 <= j < k ==> #[trigger] table[j].2 != Some(display)
}

proof fn lemma_first_displaying_at(
    table: Seq<(i32, Seq<char>, Option<Seq<char>>)>,
    display: Seq<char>,
    k: int,
    n: int,
)
    requires
        first_to_display(table, display, k),
        k < n <= table.len(),
    ensures
        first_displaying(table, display, n) == Some(table[k].1),
    decreases n,
{
    if n - 1 > k {
        lemma_first_displaying_at(table, display, k, n - 1);
    } else {
        lemma_first_displaying_none(table, display, k);
    }
}

proof fn lemma_first_displaying_none(
    table: Seq<(i32, Seq<char>, Option<Seq<char>>)>,
    display: Seq<char>,
    n: int,
)
    requires
        0 <= n <= table.len(),
        forall|j: int| 0 <= j < n ==> #[trigger] table[j].2 != Some(display),
    ensures
        first_displaying(table, display, n) is None,
    decreases n,
{
    if n > 0 {
        lemma_first_displaying_none(table, display, n - 1);
    }
}

proof fn lemma_chosen_prefix(
    table: Seq<(i32, Seq<char>, Option<Seq<char>>)>,
    used: Seq<Seq<char>>,
    existing: Option<Seq<Seq<char>>>,
    chosen: Seq<Seq<char>>,
    m: int,
    n: int,
)
    requires
        0 <= m <= n,
        chosen_layers(table, used, existing, n) == Some(chosen),
    ensures
        chosen.len() == n,
        chosen_layers(table, used, existing, m) == Some(chosen.take(m)),
    decreases n,
{
    if n > 0 {
        let before = match chosen_layers(table, used, existing, n - 1) {
            Some(c) => c,
            None => Seq::empty(),
        };
        assert(chosen_layers(table, used, existing, n - 1) == Some(before));
        lemma_chosen_prefix(table, used, existing, before, 0, n - 1);
        assert(chosen == before.push(chosen[n - 1]));
        if m < n {
            lemma_chosen_prefix(table, used, existing, before, m, n - 1);
            assert(chosen.take(m) =~= before.take(m));
        } else {
            assert(chosen.take(m) =~= chosen);
        }
    }
}

/// The preference order of the layers claimed. A user layer that already
/// displays KiCase's name for enclosure layer `i`, and was not taken for an
/// earlier one, is taken for `i`, whatever the project file records. Only
/// when no layer displays that name does the project file's layer for `i`
/// count: it is taken when it is a user layer not taken before.
pub proof fn lemma_layers_showing_kicase_names_come_first(
    table: Seq<(i32, Seq<char>, Option<Seq<char>>)>,
    used: Seq<Seq<char>>,
    existing: Option<Seq<Seq<char>>>,
    chosen: Seq<Seq<char>>,
    i: int,
)
    requires
        0 <= i < 6,
        chosen_layers(table, used, existing, 6) == Some(chosen),
        existing matches Some(m) ==> m.len() == 6,
    ensures
        forall|k: int|
            #[trigger] first_to_display(table, display_names()[i], k) && user_layer_id_of(
                table[k].1,
            ) is Some && !chosen.take(i).contains(table[k].1) ==> chosen[i] == table[k].1,
        (forall|j: int| 0 <= j < table.len() ==> #[trigger] table[j].2 != Some(display_names()[i]))
            ==> (existing matches Some(m) ==> (user_layer_id_of(m[i]) is Some && !chosen.take(
            i,
        ).contains(m[i]) ==> chosen[i] == m[i])),
{
    lemma_chosen_prefix(table, used, existing, chosen, i, 6);
    lemma_chosen_prefix(table, used, existing, chosen, i + 1, 6);
    assert(chosen.take(i + 1) =~= chosen.take(i).push(chosen[i]));
    assert(chosen_layers(table, used, existing, i + 1) == Some(chosen.take(i + 1)));
    let picked = pick(table, used, existing, chosen.take(i), i);
    assert(picked is Some);
    assert(chosen.take(i).push(picked->0) == chosen.take(i + 1));
    assert(chosen.take(i).push(picked->0)[i] == picked->0);
    assert(chosen.take(i + 1)[i] == chosen[i]);
    assert(picked == Some(chosen[i]));
    assert forall|k: int|
        #[trigger] first_to_display(table, display_names()[i], k) && user_layer_id_of(
            table[k].1,
        ) is Some && !chosen.take(i).contains(table[k].1) implies chosen[i] == table[k].1 by {
        lemma_first_displaying_at(table, display_names()[i], k, table.len() as int);
    }
    if forall|j: int| 0 <= j < table.len() ==> #[trigger] table[j].2 != Some(display_names()[i]) {
        lemma_first_displaying_none(table, display_names()[i], table.len() as int);
    }
}

/// A board keeps its layers: when the layer preferred for every enclosure
/// layer (one already displaying KiCase's name for it, else the one the
/// project file recorded) is a user layer, and no two are the same, those are
/// exactly the layers taken, whatever else the board draws on.
pub proof fn lemma_preferred_layers_are_kept(
    table: Seq<(i32, Seq<char>, Option<Seq<char>>)>,
    used: Seq<Seq<char>>,
    existing: Option<Seq<Seq<char>>>,
    wanted: Seq<Seq<char>>,
)
    requires
        wanted.len() == 6,
        forall|i: int| 0 <= i < 6 ==> preferred(table, existing, i) == Some(#[trigger] wanted[i]),
        forall|i: int| 0 <= i < 6 ==> user_layer_id_of(#[trigger] wanted[i]) is Some,
        forall|i: int, j: int| 0 <= i < j < 6 ==> wanted[i] != wanted[j],
    ensures
        chosen_layers(table, used, existing, 6) == Some(wanted),
{
    lemma_preferred_prefix(table, used, existing, wanted, 6);
    assert(wanted.take(6) =~= wanted);
}

proof fn lemma_preferred_prefix(
    table: Seq<(i32, Seq<char>, Option<Seq<char>>)>,
    used: Seq<Seq<char>>,
    existing: Option<Seq<Seq<char>>>,
    wanted: Seq<Seq<char>>,
    k: int,
)
    requires
        0 <= k <= 6,
        wanted.len() == 6,
        forall|i: int| 0 <= i < 6 ==> preferred(table, existing, i) == Some(#[trigger] wanted[i]),
        forall|i: int| 0 <= i < 6 ==> user_layer_id_of(#[trigger] wanted[i]) is Some,
        forall|i: int, j: int| 0 <= i < j < 6 ==> wanted[i] != wanted[j],
    ensures
        chosen_layers(table, used, existing, k) == Some(wanted.take(k)),
    decreases k,
{
    if k > 0 {
        lemma_preferred_prefix(table, used, existing, wanted, k - 1);
        let before = wanted.take(k - 1);
        assert(preferred(table, existing, k - 1) == Some(wanted[k - 1]));
        assert(user_layer_id_of(wanted[k - 1]) is Some);
        assert(!before.contains(wanted[k - 1])) by {
            if before.contains(wanted[k - 1]) {
                let j = choose|j: int| 0 <= j < before.len() && before[j] == wanted[k - 1];
                assert(wanted[j] == wanted[k - 1]);
            }
        }
        assert(before.push(wanted[k - 1]) =~= wanted.take(k));
    }
}

/// The search for a free layer finds one whenever some user layer from `id`
/// on is neither taken nor drawn on.
proof fn lemma_free_found(chosen: Seq<Seq<char>>, used: Seq<Seq<char>>, id: int, free: int)
    requires
        id <= free <= 98,
        user_layer_name_of(free) is Some,
        !chosen.contains(user_layer_name_of(free)->0),
        !used.contains(user_layer_name_of(free)->0),
    ensures
        first_free_from(chosen, used, id) is Some,
    decreases 99 - id,
{
    if id < free {
        match user_layer_name_of(id) {
            Some(name) => {
                if chosen.contains(name) || used.contains(name) {
                    lemma_free_found(chosen, used, id + 1, free);
                }
            },
            None => lemma_free_found(chosen, used, id + 1, free),
        }
    }
}

/// Some layer among six distinct ones is missing from a list of fewer than six.
proof fn lemma_one_left_out(names: Seq<Seq<char>>, chosen: Seq<Seq<char>>)
    requires
        names.len() == 6,
        names.no_duplicates(),
        chosen.len() < 6,
    ensures
        exists|j: int| 0 <= j < 6 && !chosen.contains(#[trigger] names[j]),
{
    if forall|j: int| 0 <= j < 6 ==> chosen.contains(#[trigger] names[j]) {
        names.unique_seq_to_set();
        chosen.lemma_cardinality_of_set();
        assert(names.to_set().subset_of(chosen.to_set())) by {
            assert forall|x: Seq<char>| names.to_set().contains(x) implies chosen.to_set().contains(
                x,
            ) by {
                let j = choose|j: int| 0 <= j < names.len() && names[j] == x;
                assert(chosen.contains(names[j]));
            }
        }
        vstd::set_lib::lemma_len_subset(names.to_set(), chosen.to_set());
        assert(false);
    }
}

/// A plan always exists on a board that leaves at least six user layers
/// undrawn: `free` holds six distinct user layer ids that carry no objects.
pub proof fn lemma_plan_exists(
    table: Seq<(i32, Seq<char>, Option<Seq<char>>)>,
    used: Seq<Seq<char>>,
    existing: Option<Seq<Seq<char>>>,
    free: Seq<i32>,
)
    requires
        free.len() == 6,
        free.no_duplicates(),
        forall|i: int| 0 <= i < 6 ==> user_layer_name_of(#[trigger] free[i] as int) is Some,
        forall|i: int|
            0 <= i < 6 ==> !used.contains(user_layer_name_of(#[trigger] free[i] as int)->0),
    ensures
        chosen_layers(table, used, existing, 6) is Some,
{
    let names = free.map_values(|id: i32| user_layer_name_of(id as int)->0);
    assert forall|i: int, j: int| 0 <= i < names.len() && 0 <= j < names.len() && i != j implies names[i]
        != names[j] by {
        lemma_user_layer_round_trip(free[i]);
        lemma_user_layer_round_trip(free[j]);
    }
    lemma_plan_exists_upto(table, used, existing, free, names, 6);
}

proof fn lemma_plan_exists_upto(
    table: Seq<(i32, Seq<char>, Option<Seq<char>>)>,
    used: Seq<Seq<char>>,
    existing: Option<Seq<Seq<char>>>,
    free: Seq<i32>,
    names: Seq<Seq<char>>,
    k: int,
)
    requires
        0 <= k <= 6,
        free.len() == 6,
        names == free.map_values(|id: i32| user_layer_name_of(id as int)->0),
        names.no_duplicates(),
        forall|i: int| 0 <= i < 6 ==> user_layer_name_of(#[trigger] free[i] as int) is Some,
        forall|i: int|
            0 <= i < 6 ==> !used.contains(user_layer_name_of(#[trigger] free[i] as int)->0),
    ensures
        chosen_layers(table, used, existing, k) is Some,
    decreases k,
{
    if k > 0 {
        lemma_plan_exists_upto(table, used, existing, free, names, k - 1);
        lemma_chosen_layers(table, used, existing, k - 1);
        let before = chosen_layers(table, used, existing, k - 1)->0;
        lemma_one_left_out(names, before);
        let j = choose|j: int| 0 <= j < 6 && !before.contains(#[trigger] names[j]);
        assert(names[j] == user_layer_name_of(free[j] as int)->0);
        assert(53 <= free[j] <= 98) by {
            assert(user_layer_name_of(free[j] as int) is Some);
        }
        lemma_free_found(before, used, 53, free[j] as int);
    }
}

/// A plan that confirms what the board has: when every layer taken is
/// enabled already and already displays KiCase's name for it, nothing is to
/// enable and nothing to rename.
pub proof fn lemma_confirmed_plan_is_unchanged(
    table: Seq<(i32, Seq<char>, Option<Seq<char>>)>,
    ids: Seq<i32>,
    enabled: Seq<i32>,
)
    requires
        ids.len() == 6,
        forall|i: int| 0 <= i < 6 ==> enabled.contains(#[trigger] ids[i]),
        forall|i: int|
            0 <= i < 6 ==> !needs_name(table, #[trigger] ids[i] as int, display_names()[i]),
    ensures
        not_enabled(ids, enabled).len() == 0,
        renames(table, ids, 6).len() == 0,
{
    lemma_not_enabled(ids, enabled);
    if not_enabled(ids, enabled).len() > 0 {
        let id = not_enabled(ids, enabled)[0];
        assert(not_enabled(ids, enabled).contains(id));
        let j = choose|j: int| 0 <= j < ids.len() && ids[j] == id;
        assert(enabled.contains(ids[j]));
    }
    lemma_no_renames(table, ids, 6);
}

proof fn lemma_no_renames(table: Seq<(i32, Seq<char>, Option<Seq<char>>)>, ids: Seq<i32>, n: int)
    requires
        0 <= n <= 6,
        ids.len() == 6,
        forall|i: int|
            0 <= i < 6 ==> !needs_name(table, #[trigger] ids[i] as int, display_names()[i]),
    ensures
        renames(table, ids, n).len() == 0,
    decreases n,
{
    if n > 0 {
        lemma_no_renames(table, ids, n - 1);
        assert(!needs_name(table, ids[n - 1] as int, display_names()[n - 1]));
    }
}

/// The ids of names that are all user layers: one per name, in order.
proof fn lemma_ids_of(names: Seq<Seq<char>>)
    requires
        forall|i: int| 0 <= i < names.len() ==> user_layer_id_of(#[trigger] names[i]) is Some,
    ensures
        ids_of(names).len() == names.len(),
        forall|i: int|
            0 <= i < names.len() ==> Some(#[trigger] ids_of(names)[i]) == user_layer_id_of(
                names[i],
            ),
    decreases names.len(),
{
    if names.len() > 0 {
        let rest = names.drop_last();
        assert forall|i: int| 0 <= i < rest.len() implies user_layer_id_of(#[trigger] rest[i]) is Some by {
            assert(rest[i] == names[i]);
        }
        lemma_ids_of(rest);
        assert(user_layer_id_of(names[names.len() - 1]) is Some);
        assert forall|i: int|
            0 <= i < names.len() implies Some(#[trigger] ids_of(names)[i]) == user_layer_id_of(
            names[i],
        ) by {
            if i < names.len() - 1 {
                assert(rest[i] == names[i]);
            }
        }
    }
}

/// The layers to enable are exactly the plan's ids that are not enabled yet.
pub proof fn lemma_not_enabled(ids: Seq<i32>, enabled: Seq<i32>)
    ensures
        forall|id: i32|
            #[trigger] not_enabled(ids, enabled).contains(id) <==> (ids.contains(id)
                && !enabled.contains(id)),
    decreases ids.len(),
{
    if ids.len() > 0 {
        let rest = ids.drop_last();
        let last = ids.last();
        lemma_not_enabled(rest, enabled);
        lemma_push_contains(rest, last);
        let before = not_enabled(rest, enabled);
        assert(ids == rest.push(last));
        if !enabled.contains(last) {
            lemma_push_contains(before, last);
        }
    }
}

/// What a sequence with one more item contains.
proof fn lemma_push_contains<A>(s: Seq<A>, x: A)
    ensures
        forall|y: A| #[trigger] s.push(x).contains(y) <==> (s.contains(y) || y == x),
{
    assert forall|y: A| #[trigger] s.push(x).contains(y) <==> (s.contains(y) || y == x) by {
        if s.contains(y) {
            let j = choose|j: int| 0 <= j < s.len() && s[j] == y;
            assert(s.push(x)[j] == y);
        }
        if y == x {
            assert(s.push(x)[s.len() as int] == y);
        }
        if s.push(x).contains(y) {
            let j = choose|j: int| 0 <= j < s.push(x).len() && s.push(x)[j] == y;
            if j < s.len() {
                assert(s[j] == y);
            }
        }
    }
}

/// Strictly increasing: sorted, with nothing twice.
pub open spec fn strictly_increasing(s: Seq<i32>) -> bool {
    forall|i: int, j: int| 0 <= i < j < s.len() ==> s[i] < s[j]
}

/// Adds `id` to a strictly increasing list, keeping it so.
fn insert_sorted(list: &mut Vec<i32>, id: i32)
    requires
        strictly_increasing(old(list)@),
    ensures
        strictly_increasing(final(list)@),
        forall|x: i32| #[trigger] final(list)@.contains(x) <==> (old(list)@.contains(x) || x == id),
{
    let mut i: usize = 0;
    while i < list.len() && list[i] < id
        invariant
            i <= list@.len(),
            forall|k: int| 0 <= k < i ==> list@[k] < id,
        decreases list.len() - i,
    {
        i = i + 1;
    }
    if i < list.len() && list[i] == id {
        return;
    }
    let ghost before = list@;
    list.insert(i, id);
    assert(list@ == before.take(i as int).push(id) + before.skip(i as int));
    assert forall|x: i32| #[trigger] list@.contains(x) <==> (before.contains(x) || x == id) by {
        if before.contains(x) {
            let k = choose|k: int| 0 <= k < before.len() && before[k] == x;
            if k < i {
                assert(list@[k] == x);
            } else {
                assert(list@[k + 1] == x);
            }
        }
        if x == id {
            assert(list@[i as int] == x);
        }
        if list@.contains(x) {
            let k = choose|k: int| 0 <= k < list@.len() && list@[k] == x;
            if k < i {
                assert(before[k] == x);
            } else if k > i {
                assert(before[k - 1] == x);
            }
        }
    }
}

/// The whole enabled-layer set once the plan's layers are added: what was
/// enabled and what the plan enables, in increasing order, each once.
pub fn enabled_after(enabled: &[i32], enable: &[i32]) -> (r: Vec<i32>)
    ensures
        strictly_increasing(r@),
        forall|x: i32| #[trigger] r@.contains(x) <==> (enabled@.contains(x) || enable@.contains(x)),
{
    let mut ids: Vec<i32> = Vec::new();
    let mut i: usize = 0;
    while i < enabled.len()
        invariant
            i <= enabled@.len(),
            strictly_increasing(ids@),
            forall|x: i32| #[trigger] ids@.contains(x) <==> enabled@.take(i as int).contains(x),
        decreases enabled.len() - i,
    {
        insert_sorted(&mut ids, enabled[i]);
        proof {
            lemma_push_contains(enabled@.take(i as int), enabled@[i as int]);
            assert(enabled@.take(i + 1) =~= enabled@.take(i as int).push(enabled@[i as int]));
        }
        i = i + 1;
    }
    assert(enabled@.take(enabled@.len() as int) =~= enabled@);
    let mut k: usize = 0;
    while k < enable.len()
        invariant
            k <= enable@.len(),
            strictly_increasing(ids@),
            forall|x: i32|
                #[trigger] ids@.contains(x) <==> (enabled@.contains(x) || enable@.take(
                    k as int,
                ).contains(x)),
        decreases enable.len() - k,
    {
        insert_sorted(&mut ids, enable[k]);
        proof {
            lemma_push_contains(enable@.take(k as int), enable@[k as int]);
            assert(enable@.take(k + 1) =~= enable@.take(k as int).push(enable@[k as int]));
        }
        k = k + 1;
    }
    assert(enable@.take(enable@.len() as int) =~= enable@);
    ids
}

/// How a layer id reads in a note: its canonical name, or the number itself
/// when it is no user layer.
pub open spec fn id_text(id: int) -> Seq<char> {
    match user_layer_name_of(id) {
        Some(name) => name,
        None => if id < 0 {
            seq!['-'] + decimal((-id) as nat)
        } else {
            decimal(id as nat)
        },
    }
}

/// `layer -> display` for each rename, separated by `, `.
pub open spec fn rename_list(rename: Seq<(i32, String)>) -> Seq<char>
    decreases rename.len(),
{
    if rename.len() == 0 {
        Seq::empty()
    } else {
        let last = id_text(rename.last().0 as int) + " -> "@ + rename.last().1@;
        if rename.len() == 1 {
            last
        } else {
            rename_list(rename.drop_last()) + ", "@ + last
        }
    }
}

/// The opening of the note asking for layers to be renamed by hand.
pub open spec fn rename_note_intro() -> Seq<char> {
    "KiCad 10 does not expose layer renaming over IPC for these layers. Rename them by hand in Board Setup > Board Editor Layers: "@
}

/// The note shown when the plan's layers could not be named over IPC: which
/// layer to give which display name.
pub fn rename_note(rename: &[(i32, String)]) -> (r: String)
    ensures
        r@ == rename_note_intro() + rename_list(rename@) + "."@,
{
    let mut list = String::new();
    let mut i: usize = 0;
    while i < rename.len()
        invariant
            i <= rename@.len(),
            list@ == rename_list(rename@.take(i as int)),
        decreases rename.len() - i,
    {
        let (id, display) = &rename[i];
        if i > 0 {
            list.append(", ");
        }
        match user_layer_name(*id) {
            Some(name) => list.append(name.as_str()),
            None => {
                if *id < 0 {
                    list.append("-");
                    proof {
                        reveal_strlit("-");
                    }
                    let magnitude: u32 = if *id == i32::MIN {
                        2147483648u32
                    } else {
                        (-*id) as u32
                    };
                    push_decimal(&mut list, magnitude);
                } else {
                    push_decimal(&mut list, *id as u32);
                }
            },
        }
        list.append(" -> ");
        list.append(display.as_str());
        assert(rename@.take(i + 1).drop_last() =~= rename@.take(i as int));
        i = i + 1;
    }
    assert(rename@.take(rename@.len() as int) =~= rename@);
    let mut note = "KiCad 10 does not expose layer renaming over IPC for these layers. Rename them by hand in Board Setup > Board Editor Layers: ".to_owned();
    note.append(list.as_str());
    note.append(".");
    note
}

/// True when `id` is one of `list`.
fn contains_id(list: &[i32], id: i32) -> (r: bool)
    ensures
        r == list@.contains(id),
{
    let mut i: usize = 0;
    while i < list.len()
        invariant
            i <= list@.len(),
            forall|j: int| 0 <= j < i ==> list@[j] != id,
        decreases list.len() - i,
    {
        if list[i] == id {
            return true;
        }
        i = i + 1;
    }
    false
}

/// Chooses the user layers for the enclosure.
///
/// Preference order:
/// 1. layers already displaying KiCase's own names, so a reopened project keeps
///    its layers;
/// 2. layers named in the existing project mapping;
/// 3. any user layer that carries no objects.
pub fn plan_layers(
    reading: &BoardReading,
    existing: Option<&LayerMapping>,
    enabled_ids: &[i32],
) -> (r: Option<LayerPlan>)
    ensures
        ({
            let table = layer_views(reading.layers@);
            let used = string_views(reading.used_layers@);
            match chosen_layers(table, used, mapping_names(existing), 6) {
                None => r is None,
                Some(chosen) => r matches Some(plan) && {
                    let ids = ids_of(chosen);
                    &&& plan.mapping.names() == chosen
                    &&& plan.enable@ == not_enabled(ids, enabled_ids@)
                    &&& rename_views(plan.rename@) == renames(table, ids, 6)
                    &&& plan.unchanged == (plan.enable@.len() == 0 && plan.rename@.len() == 0)
                    // Each enclosure layer has a user layer of its own, and the
                    // plan enables exactly those of them not enabled yet.
                    &&& ids.len() == 6
                    &&& forall|i: int|
                        0 <= i < 6 ==> Some(#[trigger] ids[i]) == user_layer_id_of(chosen[i])
                    &&& forall|i: int, j: int| 0 <= i < j < 6 ==> chosen[i] != chosen[j]
                    &&& forall|id: i32|
                        #[trigger] plan.enable@.contains(id) <==> (ids.contains(id)
                            && !enabled_ids@.contains(id))
                    // A layer that already carries objects is taken only when it
                    // displays KiCase's name or the project file recorded it.
                    &&& forall|i: int|
                        0 <= i < 6 && used.contains(#[trigger] chosen[i]) ==> preferred(
                            table,
                            mapping_names(existing),
                            i,
                        ) == Some(chosen[i])
                },
            }
        }),
{
    let ghost table = layer_views(reading.layers@);
    let ghost used = string_views(reading.used_layers@);
    let ghost existing_names = mapping_names(existing);
    let names = layer_display_names();
    let mut chosen: Vec<String> = Vec::new();
    let mut index: usize = 0;
    while index < 6
        invariant
            index <= 6,
            table == layer_views(reading.layers@),
            used == string_views(reading.used_layers@),
            existing_names == mapping_names(existing),
            names@.map_values(|s: &str| s@) == display_names(),
            chosen_layers(table, used, existing_names, index as int) == Some(
                string_views(chosen@),
            ),
        decreases 6 - index,
    {
        let display = names[index];
        assert(display@ == display_names()[index as int]);
        // 1. A layer already carrying the display name KiCase wants.
        let by_display = first_with_display(reading.layers.as_slice(), display);
        // 2. Whatever the project file already recorded.
        let candidate: Option<&str> = match by_display {
            Some(name) => Some(name),
            None => match existing {
                Some(mapping) => {
                    let recorded = mapping.all();
                    assert(recorded@.map_values(|s: &str| s@)[index as int]
                        == recorded@[index as int]@);
                    Some(recorded[index])
                },
                None => None,
            },
        };
        assert(match candidate {
            Some(c) => preferred(table, existing_names, index as int) == Some(c@),
            None => preferred(table, existing_names, index as int) is None,
        });
        let accepted = match candidate {
            Some(name) => user_layer_id(name).is_some() && !contains_string(&chosen, name),
            None => false,
        };
        let ghost before = chosen@;
        if accepted {
            let name = match candidate {
                Some(name) => name,
                None => "",
            };
            chosen.push(name.to_owned());
        } else {
            // 3. The first user layer nobody is drawing on.
            match first_free(&chosen, &reading.used_layers) {
                Some(free) => chosen.push(free),
                None => {
                    proof {
                        lemma_chosen_none(table, used, existing_names, index + 1, 6);
                    }
                    return None;
                },
            }
        }
        assert(string_views(chosen@) =~= string_views(before).push(chosen@.last()@));
        index = index + 1;
    }
    let ghost picked = string_views(chosen@);
    proof {
        lemma_chosen_layers(table, used, existing_names, 6);
        lemma_ids_of(picked);
    }
    assert(picked[0] == chosen@[0]@);
    assert(picked[1] == chosen@[1]@);
    assert(picked[2] == chosen@[2]@);
    assert(picked[3] == chosen@[3]@);
    assert(picked[4] == chosen@[4]@);
    assert(picked[5] == chosen@[5]@);
    let mapping = LayerMapping {
        outline: chosen[0].clone(),
        datums: chosen[1].clone(),
        cuts: chosen[2].clone(),
        top: chosen[3].clone(),
        bottom: chosen[4].clone(),
        solids: chosen[5].clone(),
    };
    assert(mapping.names() =~= picked);

    let mut ids: Vec<i32> = Vec::new();
    let mut i: usize = 0;
    while i < chosen.len()
        invariant
            i <= chosen@.len(),
            picked == string_views(chosen@),
            ids@ == ids_of(picked.take(i as int)),
        decreases chosen.len() - i,
    {
        assert(picked.take(i + 1).drop_last() =~= picked.take(i as int));
        assert(picked.take(i + 1).last() == chosen@[i as int]@);
        match user_layer_id(chosen[i].as_str()) {
            Some(id) => ids.push(id),
            None => {},
        }
        i = i + 1;
    }
    assert(picked.take(chosen@.len() as int) =~= picked);
    let ghost all_ids = ids@;

    let mut enable: Vec<i32> = Vec::new();
    let mut i: usize = 0;
    while i < ids.len()
        invariant
            i <= ids@.len(),
            all_ids == ids@,
            enable@ == not_enabled(all_ids.take(i as int), enabled_ids@),
        decreases ids.len() - i,
    {
        assert(all_ids.take(i + 1).drop_last() =~= all_ids.take(i as int));
        assert(all_ids.take(i + 1).last() == ids@[i as int]);
        if !contains_id(enabled_ids, ids[i]) {
            enable.push(ids[i]);
        }
        i = i + 1;
    }
    assert(all_ids.take(ids@.len() as int) =~= all_ids);

    let mut rename: Vec<(i32, String)> = Vec::new();
    let mut k: usize = 0;
    while k < ids.len()
        invariant
            k <= 6,
            ids@.len() == 6,
            all_ids == ids@,
            table == layer_views(reading.layers@),
            names@.map_values(|s: &str| s@) == display_names(),
            rename_views(rename@) == renames(table, all_ids, k as int),
        decreases ids.len() - k,
    {
        let id = ids[k];
        let display = names[k];
        assert(display@ == display_names()[k as int]);
        let canonical = match user_layer_name(id) {
            Some(name) => name,
            None => String::new(),
        };
        let needs = match display_of(reading.layers.as_slice(), canonical.as_str()) {
            Some(Some(shown)) => !str_eq(shown, display),
            Some(None) => true,
            None => true,
        };
        let ghost before = rename@;
        if needs {
            rename.push((id, display.to_owned()));
            assert(rename_views(rename@) =~= rename_views(before).push((id, display@)));
        }
        k = k + 1;
    }

    let unchanged = enable.len() == 0 && rename.len() == 0;
    proof {
        lemma_not_enabled(all_ids, enabled_ids@);
    }
    Some(LayerPlan { mapping, enable, rename, unchanged })
}

} // verus!
