//! The worker's configuration documents: word references, characters to strip, and
//! measurement units. Each is a JSON document; a missing or unreadable document means
//! that nothing of its kind is configured.

use vstd::prelude::*;
use crate::transform::{first_unit, unit_at, units_view, CharSet, UnitV};

verus! {

/// `p` lists each position below `n` exactly once.
pub open spec fn is_ordering(p: Seq<usize>, n: nat) -> bool {
    &&& p.len() == n
    &&& forall|j: int| 0 <= j < p.len() ==> p[j] < n
    &&& forall|a: int, b: int| 0 <= a < b < p.len() ==> p[a] != p[b]
}

/// The positions of `lens`, longest first; positions of equal length keep their order.
fn order_by_len_desc(lens: &Vec<usize>) -> (r: Vec<usize>)
    ensures
        is_ordering(r@, lens@.len()),
        forall|a: int, b: int|
            0 <= a < b < r@.len() ==> lens@[r@[a] as int] > lens@[r@[b] as int] || (lens@[r@[a] as int]
                == lens@[r@[b] as int] && r@[a] < r@[b]),
{
    let mut out: Vec<usize> = Vec::new();
    let mut i: usize = 0;
    while i < lens.len()
        invariant
            i <= lens@.len(),
            out@.len() == i,
            forall|j: int| 0 <= j < out@.len() ==> out@[j] < i,
            forall|a: int, b: int| 0 <= a < b < out@.len() ==> out@[a] != out@[b],
            forall|a: int, b: int|
                0 <= a < b < out@.len() ==> lens@[out@[a] as int] > lens@[out@[b] as int] || (
                lens@[out@[a] as int] == lens@[out@[b] as int] && out@[a] < out@[b]),
        decreases lens@.len() - i,
    {
        let li = lens[i];
        let mut pos: usize = 0;
        while pos < out.len() && lens[out[pos]] >= li
            invariant
                pos <= out@.len(),
                i < lens@.len(),
                forall|j: int| 0 <= j < out@.len() ==> out@[j] < i,
                forall|a: int| 0 <= a < pos ==> lens@[out@[a] as int] >= li,
            decreases out@.len() - pos,
        {
            pos = pos + 1;
        }
        let ghost before = out@;
        out.insert(pos, i);
        proof {
            assert forall|a: int, b: int| 0 <= a < b < out@.len() implies lens@[out@[a] as int]
                > lens@[out@[b] as int] || (lens@[out@[a] as int] == lens@[out@[b] as int] && out@[a]
                < out@[b]) by {
                if b < pos {
                    assert(out@[a] == before[a] && out@[b] == before[b]);
                } else if b == pos {
                    assert(out@[a] == before[a]);
                } else if a < pos {
                    assert(out@[a] == before[a] && out@[b] == before[b - 1]);
                    assert(lens@[before[pos as int] as int] < li);
                    if pos < b - 1 {
                        assert(lens@[before[pos as int] as int] >= lens@[before[b - 1] as int]);
                    }
                } else if a == pos {
                    assert(out@[b] == before[b - 1]);
                    assert(lens@[before[pos as int] as int] < li);
                    if pos < b - 1 {
                        assert(lens@[before[pos as int] as int] >= lens@[before[b - 1] as int]);
                    }
                } else {
                    assert(out@[a] == before[a - 1] && out@[b] == before[b - 1]);
                }
            }
            assert forall|a: int, b: int| 0 <= a < b < out@.len() implies out@[a] != out@[b] by {
                if b < pos {
                } else if b == pos {
                    assert(out@[a] == before[a]);
                } else if a < pos {
                    assert(out@[a] == before[a] && out@[b] == before[b - 1]);
                } else if a == pos {
                    assert(out@[b] == before[b - 1]);
                } else {
                    assert(out@[a] == before[a - 1] && out@[b] == before[b - 1]);
                }
            }
            assert forall|j: int| 0 <= j < out@.len() implies out@[j] < i + 1 by {
                if j < pos {
                    assert(out@[j] == before[j]);
                } else if j > pos {
                    assert(out@[j] == before[j - 1]);
                }
            }
        }
        i = i + 1;
    }
    out
}


/// `r` is `v` in the order `p`: the entry with the longest key (by `key_len`) first, entries
/// whose keys are equally long in the order of `v`.
pub open spec fn in_key_order<T>(r: Seq<T>, v: Seq<T>, p: Seq<usize>, key_len: spec_fn(T) -> int) -> bool {
    &&& is_ordering(p, v.len())
    &&& r.len() == v.len()
    &&& forall|a: int| 0 <= a < r.len() ==> #[trigger] r[a] == v[p[a] as int]
    &&& forall|a: int, b: int|
        0 <= a < b < r.len() ==> key_len(r[a]) > key_len(r[b]) || (key_len(r[a]) == key_len(r[b])
            && p[a] < p[b])
}

/// The text of a document that could be read, by its view.
pub open spec fn text_of(content: Option<&str>) -> Option<Seq<char>> {
    match content {
        Some(t) => Some(t@),
        None => None,
    }
}

// ---------------------------------------------------------------------------
// Word references: a JSON object from words to what is said in their place.
// ---------------------------------------------------------------------------

/// What `serde_json::from_str` reads from `text` as a `HashMap<String, String>`: the map of
/// the object's keys to its string values, or nothing where `text` is not such an object.
pub uninterp spec fn word_map_of(text: Seq<char>) -> Option<Map<Seq<char>, Seq<char>>>;

/// `v` lists the entries of the finite map `m`, each key once.
pub open spec fn lists_word_map(v: Seq<(String, String)>, m: Map<Seq<char>, Seq<char>>) -> bool {
    &&& m.dom().finite()
    &&& v.len() == m.dom().len()
    &&& forall|a: int, b: int| 0 <= a < b < v.len() ==> v[a].0@ != v[b].0@
    &&& forall|a: int| 0 <= a < v.len() ==> m.contains_key(#[trigger] v[a].0@) && m[v[a].0@] == v[a].1@
}

/// Calls `serde_json::from_str::<HashMap<String, String>>` on `text` and hands out the
/// map's entries. The order in which a `HashMap` hands out its entries depends on a hasher
/// that each process seeds, so the order is left unsaid: each key comes once, with its value.
#[verifier::external_body]
fn parse_word_map(text: &str) -> (r: Option<Vec<(String, String)>>)
    ensures
        match (r, word_map_of(text@)) {
            (None, None) => true,
            (Some(v), Some(m)) => lists_word_map(v@, m),
            _ => false,
        },
{
    match serde_json::from_str::<std::collections::HashMap<String, String>>(text) {
        Ok(m) => Some(m.into_iter().collect()),
        Err(_) => None,
    }
}

/// The word references configured by `content`: none where there is no document or it is
/// not a JSON object of strings.
pub open spec fn configured_words(content: Option<&str>) -> Map<Seq<char>, Seq<char>> {
    match text_of(content) {
        Some(t) => match word_map_of(t) {
            Some(m) => m,
            None => Map::empty(),
        },
        None => Map::empty(),
    }
}

/// Every key of `m` occurs in `v`.
proof fn lemma_listed_words_cover(v: Seq<(String, String)>, m: Map<Seq<char>, Seq<char>>)
    requires
        lists_word_map(v, m),
    ensures
        forall|k: Seq<char>| #[trigger] m.contains_key(k) ==> exists|a: int| 0 <= a < v.len() && v[a].0@ == k,
{
    let keys = v.map_values(|e: (String, String)| e.0@);
    assert(keys.no_duplicates()) by {
        assert forall|a: int, b: int| 0 <= a < keys.len() && 0 <= b < keys.len() && a != b implies keys[a] != keys[b] by {
            if a < b {
                assert(v[a].0@ != v[b].0@);
            } else {
                assert(v[b].0@ != v[a].0@);
            }
        }
    }
    keys.unique_seq_to_set();
    assert(keys.to_set().subset_of(m.dom())) by {
        assert forall|k: Seq<char>| keys.to_set().contains(k) implies m.dom().contains(k) by {
            let a = choose|a: int| 0 <= a < keys.len() && keys[a] == k;
            assert(m.contains_key(v[a].0@));
        }
    }
    vstd::set_lib::lemma_subset_equality(keys.to_set(), m.dom());
    assert forall|k: Seq<char>| #[trigger] m.contains_key(k) implies exists|a: int| 0 <= a < v.len() && v[a].0@ == k by {
        assert(keys.to_set().contains(k));
        let a = choose|a: int| 0 <= a < keys.len() && keys[a] == k;
        assert(v[a].0@ == k);
    }
}

/// The length of a word reference's word, in characters.
pub open spec fn word_len(e: (String, String)) -> int {
    e.0@.len() as int
}

/// `r` is `v` in the order `p`, longest word first.
pub open spec fn words_in_order(r: Seq<(String, String)>, v: Seq<(String, String)>, p: Seq<usize>) -> bool {
    in_key_order(r, v, p, |e: (String, String)| word_len(e))
}

/// `entries` with the longest word (in characters) first, entries whose words are equally
/// long in their order, so that a longer reference is applied before a shorter one that it
/// contains.
pub fn sort_word_references(entries: Vec<(String, String)>) -> (r: Vec<(String, String)>)
    ensures
        exists|p: Seq<usize>| #[trigger] words_in_order(r@, entries@, p),
{
    let mut lens: Vec<usize> = Vec::new();
    let mut i: usize = 0;
    while i < entries.len()
        invariant
            i <= entries@.len(),
            lens@.len() == i,
            forall|j: int| 0 <= j < i ==> lens@[j] as int == word_len(entries@[j]),
        decreases entries@.len() - i,
    {
        lens.push(entries[i].0.as_str().unicode_len());
        i = i + 1;
    }
    let order = order_by_len_desc(&lens);
    let mut r: Vec<(String, String)> = Vec::new();
    let mut j: usize = 0;
    while j < order.len()
        invariant
            is_ordering(order@, entries@.len()),
            lens@.len() == entries@.len(),
            j <= order@.len(),
            r@.len() == j,
            forall|a: int| 0 <= a < j ==> #[trigger] r@[a] == entries@[order@[a] as int],
        decreases order@.len() - j,
    {
        let e = &entries[order[j]];
        r.push((e.0.clone(), e.1.clone()));
        j = j + 1;
    }
    assert(words_in_order(r@, entries@, order@)) by {
        assert forall|a: int, b: int| 0 <= a < b < r@.len() implies word_len(r@[a]) > word_len(r@[b])
            || (word_len(r@[a]) == word_len(r@[b]) && order@[a] < order@[b]) by {
            assert(r@[a] == entries@[order@[a] as int]);
            assert(r@[b] == entries@[order@[b] as int]);
        }
    }
    r
}

/// The word references of `content`, longest word first (see `sort_word_references`): each
/// configured word once, with what is said in its place.
pub fn load_word_references(content: Option<&str>) -> (r: Vec<(String, String)>)
    ensures
        lists_word_map(r@, configured_words(content)),
        forall|k: Seq<char>| #[trigger] configured_words(content).contains_key(k)
            ==> exists|a: int| 0 <= a < r@.len() && r@[a].0@ == k,
        forall|a: int, b: int| 0 <= a < b < r@.len() ==> r@[a].0@.len() >= r@[b].0@.len(),
{
    let entries = match content {
        Some(t) => parse_word_map(t),
        None => None,
    };
    let entries = match entries {
        Some(v) => v,
        None => {
            let r: Vec<(String, String)> = Vec::new();
            proof {
                assert(configured_words(content).dom() =~= Set::<Seq<char>>::empty());
            }
            return r;
        },
    };
    let ghost m = configured_words(content);
    let ghost v = entries@;
    let r = sort_word_references(entries);
    proof {
        let f = |e: (String, String)| word_len(e);
        let p = choose|p: Seq<usize>| words_in_order(r@, v, p);
        assert forall|a: int, b: int| 0 <= a < b < r@.len() implies r@[a].0@ != r@[b].0@ by {
            let (x, y) = (p[a] as int, p[b] as int);
            assert(r@[a] == v[x] && r@[b] == v[y]);
            if x < y {
                assert(v[x].0@ != v[y].0@);
            } else {
                assert(v[y].0@ != v[x].0@);
            }
        }
        assert forall|a: int| 0 <= a < r@.len() implies m.contains_key(#[trigger] r@[a].0@)
            && m[r@[a].0@] == r@[a].1@ by {
            assert(r@[a] == v[p[a] as int]);
        }
        assert forall|a: int, b: int| 0 <= a < b < r@.len() implies r@[a].0@.len() >= r@[b].0@.len() by {
            assert(f(r@[a]) >= f(r@[b]));
        }
        lemma_listed_words_cover(r@, m);
    }
    r
}

// ---------------------------------------------------------------------------
// Characters to strip: a JSON list of strings, of which the first character counts.
// ---------------------------------------------------------------------------

/// What `serde_json::from_str` reads from `text` as a `Vec<String>`: the list's strings in
/// order, or nothing where `text` is not a JSON list of strings.
pub uninterp spec fn string_list_of(text: Seq<char>) -> Option<Seq<Seq<char>>>;

/// The views of a list of strings.
pub open spec fn strings_view(v: Seq<String>) -> Seq<Seq<char>> {
    v.map_values(|s: String| s@)
}

/// Calls `serde_json::from_str::<Vec<String>>` on `text`.
#[verifier::external_body]
fn parse_string_list(text: &str) -> (r: Option<Vec<String>>)
    ensures
        match (r, string_list_of(text@)) {
            (None, None) => true,
            (Some(v), Some(l)) => strings_view(v@) == l,
            _ => false,
        },
{
    match serde_json::from_str::<Vec<String>>(text) {
        Ok(v) => Some(v),
        Err(_) => None,
    }
}

/// The first characters of the nonempty strings of `l`.
pub open spec fn first_chars(l: Seq<Seq<char>>) -> Set<char> {
    Set::new(|c: char| exists|i: int| 0 <= i < l.len() && l[i].len() > 0 && l[i][0] == c)
}

/// The characters to strip that `content` configures: none where there is no document or
/// it is not a JSON list of strings.
pub open spec fn configured_strip(content: Option<&str>) -> Set<char> {
    match text_of(content) {
        Some(t) => match string_list_of(t) {
            Some(l) => first_chars(l),
            None => Set::empty(),
        },
        None => Set::empty(),
    }
}

/// The set of the first characters of the nonempty strings of `entries`.
pub fn first_char_set(entries: &Vec<String>) -> (r: CharSet)
    ensures
        r.wf(),
        r@ == first_chars(strings_view(entries@)),
{
    let mut r = CharSet::new();
    let ghost l = strings_view(entries@);
    let mut i: usize = 0;
    assert(first_chars(l.take(0)) =~= Set::<char>::empty());
    while i < entries.len()
        invariant
            l == strings_view(entries@),
            i <= entries@.len(),
            r.wf(),
            r@ == first_chars(l.take(i as int)),
        decreases entries@.len() - i,
    {
        let s = entries[i].as_str();
        let ghost before = r@;
        if !s.is_empty() {
            r.insert(s.get_char(0));
        }
        proof {
            let t = l.take(i + 1);
            let p = l.take(i as int);
            assert(l[i as int] == entries@[i as int]@);
            assert(t[i as int] == l[i as int]);
            assert forall|c: char| first_chars(t).contains(c) <==> (first_chars(p).contains(c)
                || (l[i as int].len() > 0 && l[i as int][0] == c)) by {
                if first_chars(p).contains(c) {
                    let k = choose|k: int| 0 <= k < p.len() && p[k].len() > 0 && p[k][0] == c;
                    assert(t[k] == p[k]);
                }
                if first_chars(t).contains(c) {
                    let k = choose|k: int| 0 <= k < t.len() && t[k].len() > 0 && t[k][0] == c;
                    if k < i {
                        assert(p[k] == t[k]);
                    }
                }
            }
            assert(r@ =~= first_chars(l.take(i + 1)));
        }
        i = i + 1;
    }
    assert(l.take(entries@.len() as int) =~= l);
    r
}

/// The characters to strip: the first character of each entry of `content`'s list.
pub fn load_strip_chars(content: Option<&str>) -> (r: CharSet)
    ensures
        r.wf(),
        r@ == configured_strip(content),
{
    let entries = match content {
        Some(t) => parse_string_list(t),
        None => None,
    };
    match entries {
        Some(v) => first_char_set(&v),
        None => {
            assert(configured_strip(content) =~= Set::<char>::empty());
            CharSet::new()
        },
    }
}

// ---------------------------------------------------------------------------
// Measurement units: a JSON object from a unit to its singular and plural words.
// ---------------------------------------------------------------------------

/// What `serde_json::from_str` reads from `text` as a `HashMap<String, (String, String)>`:
/// the map of the object's keys to their pairs of strings, or nothing where `text` is not
/// such an object.
pub uninterp spec fn unit_map_of(text: Seq<char>) -> Option<Map<Seq<char>, (Seq<char>, Seq<char>)>>;

/// `v` lists the entries of the finite map `m`, each key once.
pub open spec fn lists_unit_map(
    v: Seq<(String, (String, String))>,
    m: Map<Seq<char>, (Seq<char>, Seq<char>)>,
) -> bool {
    &&& m.dom().finite()
    &&& v.len() == m.dom().len()
    &&& forall|a: int, b: int| 0 <= a < b < v.len() ==> v[a].0@ != v[b].0@
    &&& forall|a: int|
        0 <= a < v.len() ==> m.contains_key(#[trigger] v[a].0@) && m[v[a].0@] == (
        v[a].1.0@,
        v[a].1.1@,
    )
}

/// Calls `serde_json::from_str::<HashMap<String, (String, String)>>` on `text` and hands out
/// the map's entries. The order in which a `HashMap` hands out its entries depends on a
/// hasher that each process seeds, so the order is left unsaid: each key comes once, with
/// its value.
#[verifier::external_body]
fn parse_unit_map(text: &str) -> (r: Option<Vec<(String, (String, String))>>)
    ensures
        match (r, unit_map_of(text@)) {
            (None, None) => true,
            (Some(v), Some(m)) => lists_unit_map(v@, m),
            _ => false,
        },
{
    match serde_json::from_str::<std::collections::HashMap<String, (String, String)>>(text) {
        Ok(m) => Some(m.into_iter().collect()),
        Err(_) => None,
    }
}

/// The units that `content` configures: none where there is no document or it is not a
/// JSON object of pairs of strings.
pub open spec fn configured_units(content: Option<&str>) -> Map<Seq<char>, (Seq<char>, Seq<char>)> {
    match text_of(content) {
        Some(t) => match unit_map_of(t) {
            Some(m) => m,
            None => Map::empty(),
        },
        None => Map::empty(),
    }
}

/// `v` lists the units of the finite map `m`, each unit once.
pub open spec fn lists_units(
    v: Seq<(String, String, String)>,
    m: Map<Seq<char>, (Seq<char>, Seq<char>)>,
) -> bool {
    &&& m.dom().finite()
    &&& v.len() == m.dom().len()
    &&& forall|a: int, b: int| 0 <= a < b < v.len() ==> v[a].0@ != v[b].0@
    &&& forall|a: int|
        0 <= a < v.len() ==> m.contains_key(#[trigger] v[a].0@) && m[v[a].0@] == (
        v[a].1@,
        v[a].2@,
    )
}

/// The length of `s` in UTF-8 bytes, as `str::len` gives it.
pub open spec fn byte_len(s: Seq<char>) -> usize {
    vstd::utf8::encode_utf8(s).len() as usize
}

/// Every unit of `m` occurs in `v`.
proof fn lemma_listed_units_cover(
    v: Seq<(String, String, String)>,
    m: Map<Seq<char>, (Seq<char>, Seq<char>)>,
)
    requires
        lists_units(v, m),
    ensures
        forall|k: Seq<char>| #[trigger] m.contains_key(k) ==> exists|a: int| 0 <= a < v.len() && v[a].0@ == k,
{
    let keys = v.map_values(|e: (String, String, String)| e.0@);
    assert(keys.no_duplicates()) by {
        assert forall|a: int, b: int| 0 <= a < keys.len() && 0 <= b < keys.len() && a != b implies keys[a] != keys[b] by {
            if a < b {
                assert(v[a].0@ != v[b].0@);
            } else {
                assert(v[b].0@ != v[a].0@);
            }
        }
    }
    keys.unique_seq_to_set();
    assert(keys.to_set().subset_of(m.dom())) by {
        assert forall|k: Seq<char>| keys.to_set().contains(k) implies m.dom().contains(k) by {
            let a = choose|a: int| 0 <= a < keys.len() && keys[a] == k;
            assert(m.contains_key(v[a].0@));
        }
    }
    vstd::set_lib::lemma_subset_equality(keys.to_set(), m.dom());
    assert forall|k: Seq<char>| #[trigger] m.contains_key(k) implies exists|a: int| 0 <= a < v.len() && v[a].0@ == k by {
        assert(keys.to_set().contains(k));
        let a = choose|a: int| 0 <= a < keys.len() && keys[a] == k;
        assert(v[a].0@ == k);
    }
}

/// A unit entry with its pair of words laid out flat.
pub open spec fn flat_unit(e: (String, (String, String))) -> (String, String, String) {
    (e.0, e.1.0, e.1.1)
}

/// `r` is `v` laid out flat in the order `p`: the longest unit (in bytes) first, units that
/// are equally long in the order of `v`.
pub open spec fn units_in_order(
    r: Seq<(String, String, String)>,
    v: Seq<(String, (String, String))>,
    p: Seq<usize>,
) -> bool {
    &&& is_ordering(p, v.len())
    &&& r.len() == v.len()
    &&& forall|a: int| 0 <= a < r.len() ==> #[trigger] r[a] == flat_unit(v[p[a] as int])
    &&& forall|a: int, b: int|
        0 <= a < b < r.len() ==> byte_len(r[a].0@) > byte_len(r[b].0@) || (byte_len(r[a].0@)
            == byte_len(r[b].0@) && p[a] < p[b])
}

/// `entries` laid out flat, the longest unit (in bytes) first and units that are equally
/// long in their order, so that a longer unit is matched before a shorter one that begins it.
pub fn sort_units(entries: Vec<(String, (String, String))>) -> (r: Vec<(String, String, String)>)
    ensures
        exists|p: Seq<usize>| #[trigger] units_in_order(r@, entries@, p),
{
    let mut lens: Vec<usize> = Vec::new();
    let mut i: usize = 0;
    while i < entries.len()
        invariant
            i <= entries@.len(),
            lens@.len() == i,
            forall|j: int| 0 <= j < i ==> lens@[j] == byte_len(entries@[j].0@),
        decreases entries@.len() - i,
    {
        lens.push(entries[i].0.as_str().len());
        i = i + 1;
    }
    let order = order_by_len_desc(&lens);
    let mut r: Vec<(String, String, String)> = Vec::new();
    let mut j: usize = 0;
    while j < order.len()
        invariant
            is_ordering(order@, entries@.len()),
            lens@.len() == entries@.len(),
            j <= order@.len(),
            r@.len() == j,
            forall|a: int| 0 <= a < j ==> #[trigger] r@[a] == flat_unit(entries@[order@[a] as int]),
        decreases order@.len() - j,
    {
        let e = &entries[order[j]];
        r.push((e.0.clone(), e.1.0.clone(), e.1.1.clone()));
        j = j + 1;
    }
    assert(units_in_order(r@, entries@, order@)) by {
        assert forall|a: int, b: int| 0 <= a < b < r@.len() implies byte_len(r@[a].0@) > byte_len(
            r@[b].0@,
        ) || (byte_len(r@[a].0@) == byte_len(r@[b].0@) && order@[a] < order@[b]) by {
            assert(r@[a] == flat_unit(entries@[order@[a] as int]));
            assert(r@[b] == flat_unit(entries@[order@[b] as int]));
        }
    }
    r
}

/// The units of `content`, longest unit first (see `sort_units`): each configured unit once,
/// with its singular and plural words.
pub fn load_units(content: Option<&str>) -> (r: Vec<(String, String, String)>)
    ensures
        lists_units(r@, configured_units(content)),
        forall|k: Seq<char>| #[trigger] configured_units(content).contains_key(k)
            ==> exists|a: int| 0 <= a < r@.len() && r@[a].0@ == k,
        forall|a: int, b: int| 0 <= a < b < r@.len() ==> byte_len(r@[a].0@) >= byte_len(r@[b].0@),
{
    let entries = match content {
        Some(t) => parse_unit_map(t),
        None => None,
    };
    let entries = match entries {
        Some(v) => v,
        None => {
            let r: Vec<(String, String, String)> = Vec::new();
            proof {
                assert(configured_units(content).dom() =~= Set::<Seq<char>>::empty());
            }
            return r;
        },
    };
    let ghost m = configured_units(content);
    let ghost v = entries@;
    let r = sort_units(entries);
    proof {
        let p = choose|p: Seq<usize>| units_in_order(r@, v, p);
        assert forall|a: int, b: int| 0 <= a < b < r@.len() implies r@[a].0@ != r@[b].0@ by {
            let (x, y) = (p[a] as int, p[b] as int);
            assert(r@[a] == flat_unit(v[x]) && r@[b] == flat_unit(v[y]));
            if x < y {
                assert(v[x].0@ != v[y].0@);
            } else {
                assert(v[y].0@ != v[x].0@);
            }
        }
        assert forall|a: int| 0 <= a < r@.len() implies m.contains_key(#[trigger] r@[a].0@)
            && m[r@[a].0@] == (r@[a].1@, r@[a].2@) by {
            assert(r@[a] == flat_unit(v[p[a] as int]));
            assert(m.contains_key(v[p[a] as int].0@));
        }
        lemma_listed_units_cover(r@, m);
    }
    r
}

proof fn lemma_first_unit_no_later(t: Seq<char>, j: int, us: Seq<UnitV>, k: int, m: int)
    requires
        0 <= k <= m < us.len(),
        unit_at(t, j, us[m].0),
    ensures
        first_unit(t, j, us, k) matches Some(x) && k <= x <= m && unit_at(t, j, us[x].0),
    decreases m - k,
{
    if !unit_at(t, j, us[k].0) {
        lemma_first_unit_no_later(t, j, us, k + 1, m);
    }
}

/// Law: with the units in the order `load_units` gives them, the unit that a measurement
/// is read with is the longest one written after the number: whenever some unit `m` is
/// written at `j`, a unit is found there, and it is at least as long as `m`.
pub proof fn law_longest_unit_wins(t: Seq<char>, j: int, units: Seq<(String, String, String)>, m: int)
    requires
        forall|a: int, b: int| 0 <= a < b < units.len() ==> byte_len(units[a].0@) >= byte_len(units[b].0@),
        0 <= m < units.len(),
        unit_at(t, j, units[m].0@),
    ensures
        first_unit(t, j, units_view(units), 0) matches Some(x) && byte_len(units[x].0@) >= byte_len(
            units[m].0@,
        ),
{
    let us = units_view(units);
    assert(us[m].0 == units[m].0@);
    lemma_first_unit_no_later(t, j, us, 0, m);
}

} // verus!
