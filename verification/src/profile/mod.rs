//! Profile persistence.

/// Properties of the profile format.
pub mod laws;
/// Character-level text utilities for the profile format.
pub mod text;

use crate::maplib;
use crate::profile::text::{
    chars_of, copy_range, find_in, parse_u64_in, push_chars, push_decimal, push_str, split_on,
    string_from_chars, trim_both,
};
use crate::types::{self, BufferKey, TierError, TierLevel};
use std::collections::BTreeMap;
use vstd::prelude::*;

verus! {

/// Start of a profile document, up to the hot keys.
pub open spec fn json_head() -> Seq<char> {
    "{\"version\":1,\"hot_keys\":["@
}

/// Between the hot keys and the tier assignments.
pub open spec fn json_middle() -> Seq<char> {
    "],\"tier_assignment\":["@
}

/// End of a profile document.
pub open spec fn json_tail() -> Seq<char> {
    "]}"@
}

/// Opening of one tier assignment object, up to its key.
pub open spec fn object_head() -> Seq<char> {
    "{\"key\":"@
}

/// Between the key and the tier name of a tier assignment object.
pub open spec fn object_middle() -> Seq<char> {
    ",\"tier\":\""@
}

/// End of a tier assignment object.
pub open spec fn object_tail() -> Seq<char> {
    "\"}"@
}

/// The name a tier is written under.
pub open spec fn tier_text(t: TierLevel) -> Seq<char> {
    match t {
        TierLevel::Vram => "Vram"@,
        TierLevel::Host => "Host"@,
        TierLevel::Storage => "Storage"@,
    }
}

/// The parts joined with `sep` between consecutive parts.
pub open spec fn join(parts: Seq<Seq<char>>, sep: Seq<char>) -> Seq<char>
    decreases parts.len(),
{
    if parts.len() == 0 {
        Seq::empty()
    } else if parts.len() == 1 {
        parts[0]
    } else {
        join(parts.drop_last(), sep) + sep + parts.last()
    }
}

/// One tier assignment written as a JSON object.
pub open spec fn object_text(entry: (u64, TierLevel)) -> Seq<char> {
    object_head() + text::decimal(entry.0 as nat) + object_middle() + tier_text(entry.1)
        + object_tail()
}

/// Each hot key written in decimal.
pub open spec fn key_parts(keys: Seq<u64>) -> Seq<Seq<char>> {
    keys.map_values(|k: u64| text::decimal(k as nat))
}

/// Each tier assignment written as an object.
pub open spec fn object_parts(entries: Seq<(u64, TierLevel)>) -> Seq<Seq<char>> {
    entries.map_values(|e: (u64, TierLevel)| object_text(e))
}

/// The hot keys written as comma-separated decimals.
pub open spec fn keys_text(keys: Seq<u64>) -> Seq<char> {
    join(key_parts(keys), ","@)
}

/// The tier assignments written as comma-separated objects.
pub open spec fn objects_text(entries: Seq<(u64, TierLevel)>) -> Seq<char> {
    join(object_parts(entries), ","@)
}

/// The tier assignments in ascending key order.
pub open spec fn entries_of(m: Map<u64, TierLevel>) -> Seq<(u64, TierLevel)> {
    maplib::ascending_keys(m.dom()).map_values(|k: u64| (k, m[k]))
}

/// The profile document for hot keys and tier assignments.
pub open spec fn json_text(keys: Seq<u64>, assignment: Map<u64, TierLevel>) -> Seq<char> {
    json_head() + keys_text(keys) + json_middle() + objects_text(entries_of(assignment))
        + json_tail()
}

/// The text between the first `prefix` and the first `suffix` after it.
pub open spec fn between(s: Seq<char>, prefix: Seq<char>, suffix: Seq<char>) -> Result<
    Seq<char>,
    Seq<char>,
> {
    match text::find(s, prefix) {
        None => Err("missing JSON field prefix "@ + prefix),
        Some(p) => {
            let rest = s.subrange(p + prefix.len(), s.len() as int);
            match text::find(rest, suffix) {
                None => Err("missing JSON field suffix "@ + suffix),
                Some(e) => Ok(rest.subrange(0, e)),
            }
        },
    }
}

/// The integers written in the pieces, or the error for the first that is not one.
pub open spec fn parse_keys(pieces: Seq<Seq<char>>) -> Result<Seq<u64>, Seq<char>>
    decreases pieces.len(),
{
    if pieces.len() == 0 {
        Ok(Seq::empty())
    } else {
        match parse_keys(pieces.drop_last()) {
            Err(e) => Err(e),
            Ok(vs) => match text::parse_u64(pieces.last()) {
                None => Err("hot key must be an unsigned integer"@),
                Some(v) => Ok(vs.push(v)),
            },
        }
    }
}

/// An error on some prefix of the pieces is the error on all of them.
pub proof fn lemma_parse_keys_prefix(pieces: Seq<Seq<char>>, k: int)
    requires
        0 <= k <= pieces.len(),
        parse_keys(pieces.take(k)) is Err,
    ensures
        parse_keys(pieces) == parse_keys(pieces.take(k)),
    decreases pieces.len() - k,
{
    if k == pieces.len() {
        assert(pieces.take(k) =~= pieces);
    } else {
        assert(pieces.take(k + 1).drop_last() =~= pieces.take(k));
        lemma_parse_keys_prefix(pieces, k + 1);
    }
}

/// The hot keys of a compact profile document.
pub open spec fn hot_keys_of(s: Seq<char>) -> Result<Seq<u64>, Seq<char>> {
    match between(s, "\"hot_keys\":["@, "]"@) {
        Err(e) => Err(e),
        Ok(body) => if body.len() == 0 {
            Ok(Seq::empty())
        } else {
            parse_keys(text::split(body, ","@))
        },
    }
}

/// The tier named by a text.
pub open spec fn tier_named(t: Seq<char>) -> Option<TierLevel> {
    if t == "Vram"@ {
        Some(TierLevel::Vram)
    } else if t == "Host"@ {
        Some(TierLevel::Host)
    } else if t == "Storage"@ {
        Some(TierLevel::Storage)
    } else {
        None
    }
}

/// The pieces without their leading `{` and trailing `}` characters.
pub open spec fn unbraced(pieces: Seq<Seq<char>>) -> Seq<Seq<char>> {
    pieces.map_values(|p: Seq<char>| text::trim_end(text::trim_start(p, '{'), '}'))
}

/// The tier assignment objects of a body, stripped of their braces.
pub open spec fn objects_of(body: Seq<char>) -> Result<Seq<Seq<char>>, Seq<char>> {
    let items = unbraced(text::split(body, "},{"@));
    if exists|i: int| 0 <= i < items.len() && #[trigger] items[i].len() == 0 {
        Err("empty tier assignment object"@)
    } else {
        Ok(items)
    }
}

/// The key and tier of one assignment object.
pub open spec fn parse_item(item: Seq<char>) -> Result<(u64, TierLevel), Seq<char>> {
    match between(item, "\"key\":"@, ",\"tier\""@) {
        Err(e) => Err(e),
        Ok(key_text) => match between(item, "\"tier\":\""@, "\""@) {
            Err(e) => Err(e),
            Ok(tier_text) => match text::parse_u64(key_text) {
                None => Err("assignment key must be an unsigned integer"@),
                Some(k) => match tier_named(tier_text) {
                    None => Err("tier must be Vram, Host, or Storage"@),
                    Some(t) => Ok((k, t)),
                },
            },
        },
    }
}

/// The assignments of the objects in order, later keys overriding earlier
/// ones, or the error for the first object that fails.
pub open spec fn parse_items(items: Seq<Seq<char>>) -> Result<Map<u64, TierLevel>, Seq<char>>
    decreases items.len(),
{
    if items.len() == 0 {
        Ok(Map::empty())
    } else {
        match parse_items(items.drop_last()) {
            Err(e) => Err(e),
            Ok(m) => match parse_item(items.last()) {
                Err(e) => Err(e),
                Ok(kt) => Ok(m.insert(kt.0, kt.1)),
            },
        }
    }
}

/// The tier assignments of a compact profile document.
pub open spec fn assignments_of(s: Seq<char>) -> Result<Map<u64, TierLevel>, Seq<char>> {
    match between(s, "\"tier_assignment\":["@, "]"@) {
        Err(e) => Err(e),
        Ok(body) => if body.len() == 0 {
            Ok(Map::empty())
        } else {
            match objects_of(body) {
                Err(e) => Err(e),
                Ok(items) => parse_items(items),
            }
        },
    }
}

/// The hot keys and tier assignments of a profile document, or the message
/// of the first problem found. Whitespace is ignored; the document must be an
/// object holding `"version":1` followed by `,` or `}`, so that only version 1
/// is accepted.
pub open spec fn parse_profile(json: Seq<char>) -> Result<
    (Seq<u64>, Map<u64, TierLevel>),
    Seq<char>,
> {
    let c = text::strip_spaces(json);
    if !(c.len() > 0 && c[0] == '{' && c.last() == '}') {
        Err("profile must be a JSON object"@)
    } else if text::find(c, "\"version\":1,"@) is None && text::find(c, "\"version\":1}"@) is None {
        Err("profile version is missing or unsupported"@)
    } else {
        match hot_keys_of(c) {
            Err(e) => Err(e),
            Ok(keys) => match assignments_of(c) {
                Err(e) => Err(e),
                Ok(m) => Ok((keys, m)),
            },
        }
    }
}

/// `e` is a parse error with exactly this message.
pub open spec fn is_parse_error(e: TierError, message: Seq<char>) -> bool {
    match e {
        TierError::Parse(m) => m@ == message,
        _ => false,
    }
}

/// The error value for a message.
fn parse_error(message: &Vec<char>) -> (res: TierError)
    ensures
        is_parse_error(res, message@),
{
    TierError::Parse(string_from_chars(message))
}

/// The error value for a fixed message.
fn parse_error_str(message: &str) -> (res: TierError)
    ensures
        is_parse_error(res, message@),
{
    TierError::Parse(message.to_owned())
}

/// Returns whether the characters spell the string slice.
fn same_text(a: &Vec<char>, b: &str) -> (res: bool)
    ensures
        res == (a@ == b@),
{
    let bc = chars_of(b);
    if a.len() != bc.len() {
        return false;
    }
    let mut i: usize = 0;
    while i < a.len()
        invariant
            i <= a.len(),
            a.len() == bc.len(),
            bc@ == b@,
            forall|j: int| 0 <= j < i ==> a@[j] == bc@[j],
        decreases a.len() - i,
    {
        if a[i] != bc[i] {
            return false;
        }
        i = i + 1;
    }
    proof {
        assert(a@ =~= bc@);
    }
    true
}

/// Returns the text between the first `prefix` and the first `suffix` after it.
fn between_in(text: &Vec<char>, prefix: &str, suffix: &str) -> (res: Result<Vec<char>, TierError>)
    ensures
        match (res, between(text@, prefix@, suffix@)) {
            (Ok(v), Ok(b)) => v@ == b,
            (Err(e), Err(m)) => is_parse_error(e, m),
            _ => false,
        },
{
    let p = chars_of(prefix);
    let n = text.len();
    proof {
        text::lemma_find(text@, p@);
    }
    let start = match find_in(text, &p) {
        Some(i) => {
            proof {
                assert(text::occurs_at(text@, p@, i as int));
                assert(i + p@.len() <= text@.len());
            }
            i + p.len()
        },
        None => {
            let mut message = chars_of("missing JSON field prefix ");
            push_chars(&mut message, &p);
            return Err(parse_error(&message));
        },
    };
    let rest = copy_range(text, start, text.len());
    let sfx = chars_of(suffix);
    proof {
        text::lemma_find(rest@, sfx@);
    }
    let end = match find_in(&rest, &sfx) {
        Some(e) => {
            proof {
                assert(text::occurs_at(rest@, sfx@, e as int));
            }
            e
        },
        None => {
            let mut message = chars_of("missing JSON field suffix ");
            push_chars(&mut message, &sfx);
            return Err(parse_error(&message));
        },
    };
    Ok(copy_range(&rest, 0, end))
}

/// Parses the comma-separated hot keys of a compact profile document.
fn parse_hot_keys(json: &Vec<char>) -> (res: Result<Vec<BufferKey>, TierError>)
    ensures
        match (res, hot_keys_of(json@)) {
            (Ok(v), Ok(ks)) => types::key_ids(v@) == ks,
            (Err(e), Err(m)) => is_parse_error(e, m),
            _ => false,
        },
{
    let body = match between_in(json, "\"hot_keys\":[", "]") {
        Ok(b) => b,
        Err(e) => {
            return Err(e);
        },
    };
    let mut keys: Vec<BufferKey> = Vec::new();
    if body.len() == 0 {
        proof {
            assert(types::key_ids(keys@) =~= Seq::<u64>::empty());
        }
        return Ok(keys);
    }
    let comma = chars_of(",");
    proof {
        reveal_strlit(",");
    }
    let pieces = split_on(&body, &comma);
    let ghost ps = text::views(pieces@);
    proof {
        assert(ps.take(0) =~= Seq::<Seq<char>>::empty());
        assert(types::key_ids(keys@) =~= Seq::<u64>::empty());
    }
    let mut i: usize = 0;
    while i < pieces.len()
        invariant
            i <= pieces.len(),
            ps == text::views(pieces@),
            ps == text::split(body@, ","@),
            body@.len() > 0,
            between(json@, "\"hot_keys\":["@, "]"@) == Ok::<Seq<char>, Seq<char>>(body@),
            parse_keys(ps.take(i as int)) == Ok::<Seq<u64>, Seq<char>>(types::key_ids(keys@)),
        decreases pieces.len() - i,
    {
        proof {
            assert(ps.take(i + 1).drop_last() =~= ps.take(i as int));
            assert(ps.take(i + 1).last() == pieces@[i as int]@);
        }
        match parse_u64_in(&pieces[i]) {
            Some(v) => {
                let ghost before = keys@;
                keys.push(BufferKey(v));
                proof {
                    assert(types::key_ids(keys@) =~= types::key_ids(before).push(v));
                }
            },
            None => {
                proof {
                    lemma_parse_keys_prefix(ps, i + 1);
                }
                return Err(parse_error_str("hot key must be an unsigned integer"));
            },
        }
        i = i + 1;
    }
    proof {
        assert(ps.take(i as int) =~= ps);
    }
    Ok(keys)
}

/// Splits the body of the tier assignments into objects stripped of braces.
fn split_objects(body: &Vec<char>) -> (res: Result<Vec<Vec<char>>, TierError>)
    ensures
        match (res, objects_of(body@)) {
            (Ok(v), Ok(items)) => text::views(v@) == items,
            (Err(e), Err(m)) => is_parse_error(e, m),
            _ => false,
        },
{
    let sep = chars_of("},{");
    proof {
        reveal_strlit("},{");
    }
    let pieces = split_on(body, &sep);
    let ghost items = unbraced(text::split(body@, "},{"@));
    let mut objects: Vec<Vec<char>> = Vec::new();
    let mut i: usize = 0;
    while i < pieces.len()
        invariant
            i <= pieces.len(),
            text::views(pieces@) == text::split(body@, "},{"@),
            items == unbraced(text::split(body@, "},{"@)),
            text::views(objects@) == items.take(i as int),
            forall|j: int| 0 <= j < i ==> (#[trigger] items[j]).len() > 0,
        decreases pieces.len() - i,
    {
        let item = trim_both(&pieces[i], '{', '}');
        proof {
            assert(items[i as int] == item@);
        }
        if item.len() == 0 {
            proof {
                assert(items[i as int].len() == 0);
            }
            return Err(parse_error_str("empty tier assignment object"));
        }
        let ghost before = objects@;
        objects.push(item);
        proof {
            assert(text::views(objects@) =~= text::views(before).push(item@));
            assert(text::views(objects@) =~= items.take(i + 1));
        }
        i = i + 1;
    }
    proof {
        assert(items.take(i as int) =~= items);
        assert(!exists|j: int| 0 <= j < items.len() && #[trigger] items[j].len() == 0) by {
            if exists|j: int| 0 <= j < items.len() && #[trigger] items[j].len() == 0 {
                let j = choose|j: int| 0 <= j < items.len() && #[trigger] items[j].len() == 0;
                assert(items[j].len() > 0);
            }
        }
    }
    Ok(objects)
}

/// Returns the tier a name denotes.
fn parse_tier(value: &Vec<char>) -> (res: Result<TierLevel, TierError>)
    ensures
        match (res, tier_named(value@)) {
            (Ok(t), Some(u)) => t == u,
            (Err(e), None) => is_parse_error(e, "tier must be Vram, Host, or Storage"@),
            _ => false,
        },
{
    if same_text(value, "Vram") {
        Ok(TierLevel::Vram)
    } else if same_text(value, "Host") {
        Ok(TierLevel::Host)
    } else if same_text(value, "Storage") {
        Ok(TierLevel::Storage)
    } else {
        Err(parse_error_str("tier must be Vram, Host, or Storage"))
    }
}

/// Returns the name a tier is written under.
pub fn tier_name(tier: TierLevel) -> (res: &'static str)
    ensures
        res@ == tier_text(tier),
{
    match tier {
        TierLevel::Vram => "Vram",
        TierLevel::Host => "Host",
        TierLevel::Storage => "Storage",
    }
}

/// Parses one tier assignment object.
fn parse_object(item: &Vec<char>) -> (res: Result<(u64, TierLevel), TierError>)
    ensures
        match (res, parse_item(item@)) {
            (Ok(a), Ok(b)) => a == b,
            (Err(e), Err(m)) => is_parse_error(e, m),
            _ => false,
        },
{
    let key_text = match between_in(item, "\"key\":", ",\"tier\"") {
        Ok(t) => t,
        Err(e) => {
            return Err(e);
        },
    };
    let tier_text = match between_in(item, "\"tier\":\"", "\"") {
        Ok(t) => t,
        Err(e) => {
            return Err(e);
        },
    };
    let key = match parse_u64_in(&key_text) {
        Some(k) => k,
        None => {
            return Err(parse_error_str("assignment key must be an unsigned integer"));
        },
    };
    let tier = match parse_tier(&tier_text) {
        Ok(t) => t,
        Err(e) => {
            return Err(e);
        },
    };
    Ok((key, tier))
}

/// An error on some prefix of the objects is the error on all of them.
pub proof fn lemma_parse_items_prefix(items: Seq<Seq<char>>, k: int)
    requires
        0 <= k <= items.len(),
        parse_items(items.take(k)) is Err,
    ensures
        parse_items(items) == parse_items(items.take(k)),
    decreases items.len() - k,
{
    if k == items.len() {
        assert(items.take(k) =~= items);
    } else {
        assert(items.take(k + 1).drop_last() =~= items.take(k));
        lemma_parse_items_prefix(items, k + 1);
    }
}

/// Parses the tier assignments of a compact profile document.
fn parse_assignments(json: &Vec<char>) -> (res: Result<BTreeMap<u64, TierLevel>, TierError>)
    ensures
        match (res, assignments_of(json@)) {
            (Ok(m), Ok(sm)) => m@ == sm,
            (Err(e), Err(msg)) => is_parse_error(e, msg),
            _ => false,
        },
{
    proof {
        maplib::lemma_u64_ordered();
    }
    let body = match between_in(json, "\"tier_assignment\":[", "]") {
        Ok(b) => b,
        Err(e) => {
            return Err(e);
        },
    };
    let mut assignments: BTreeMap<u64, TierLevel> = BTreeMap::new();
    if body.len() == 0 {
        proof {
            assert(assignments@ =~= Map::<u64, TierLevel>::empty());
        }
        return Ok(assignments);
    }
    let items = match split_objects(&body) {
        Ok(v) => v,
        Err(e) => {
            return Err(e);
        },
    };
    let ghost its = text::views(items@);
    proof {
        assert(its.take(0) =~= Seq::<Seq<char>>::empty());
        assert(assignments@ =~= Map::<u64, TierLevel>::empty());
    }
    let mut i: usize = 0;
    while i < items.len()
        invariant
            i <= items.len(),
            its == text::views(items@),
            body@.len() > 0,
            between(json@, "\"tier_assignment\":["@, "]"@) == Ok::<Seq<char>, Seq<char>>(body@),
            objects_of(body@) == Ok::<Seq<Seq<char>>, Seq<char>>(its),
            parse_items(its.take(i as int)) == Ok::<Map<u64, TierLevel>, Seq<char>>(assignments@),
        decreases items.len() - i,
    {
        proof {
            assert(its.take(i + 1).drop_last() =~= its.take(i as int));
            assert(its.take(i + 1).last() == items@[i as int]@);
        }
        match parse_object(&items[i]) {
            Ok((key, tier)) => {
                assignments.insert(key, tier);
            },
            Err(e) => {
                proof {
                    lemma_parse_items_prefix(its, i + 1);
                }
                return Err(e);
            },
        }
        i = i + 1;
    }
    proof {
        assert(its.take(i as int) =~= its);
    }
    Ok(assignments)
}

/// Removes whitespace characters from a string.
fn compact_chars(json: &str) -> (res: Vec<char>)
    ensures
        res@ == text::strip_spaces(json@),
{
    let mut compact: Vec<char> = Vec::new();
    for c in it: json.chars()
        invariant
            it.seq() == json@,
            compact@ == text::strip_spaces(it.seq().take(it.index())),
    {
        let keep = !text::is_whitespace(c);
        if keep {
            compact.push(c);
        }
        proof {
            let t = it.seq().take(it.index() + 1);
            assert(t.drop_last() =~= it.seq().take(it.index()));
            assert(t.last() == c);
            reveal(Seq::filter);
            assert(compact@ =~= text::strip_spaces(t));
        }
    }
    proof {
        assert(json@.take(json@.len() as int) =~= json@);
    }
    compact
}

/// The tier assignments as (key, tier) pairs in ascending key order.
fn assignment_entries(m: &BTreeMap<u64, TierLevel>) -> (res: Vec<(u64, TierLevel)>)
    ensures
        res@ == entries_of(m@),
{
    broadcast use vstd::std_specs::btree::group_btree_axioms;

    let mut res: Vec<(u64, TierLevel)> = Vec::new();
    let iter = m.iter();
    let ghost v = vstd::std_specs::iter::IteratorSpec::remaining(&iter);
    let ghost ks = v.unref();
    proof {
        maplib::lemma_u64_ordered();
        assert(vstd::std_specs::btree::increasing_seq(v.map_values(|kv: (&u64, &TierLevel)| *kv.0)));
        assert forall|k: u64| m@.contains_key(k) implies exists|i: int|
            0 <= i < ks.len() && ks[i].0 == k by {
            assert(v.contains((&k, &m@[k])));
            let i = choose|i: int| 0 <= i < v.len() && v[i] == (&k, &m@[k]);
            assert(ks[i].0 == k);
        }
        assert(v.map_values(|kv: (&u64, &TierLevel)| *kv.0) =~= ks.map_values(
            |p: (u64, TierLevel)| p.0,
        ));
        maplib::lemma_increasing_keys(v.map_values(|kv: (&u64, &TierLevel)| *kv.0));
    }
    for kv in it: iter
        invariant
            it.seq().unref() == ks,
            ks.len() == m@.dom().len(),
            forall|i: int|
                0 <= i < ks.len() ==> m@.contains_key(ks[i].0) && m@[ks[i].0] == ks[i].1,
            forall|k: u64|
                m@.contains_key(k) ==> exists|i: int| 0 <= i < ks.len() && ks[i].0 == k,
            maplib::ascending(ks.map_values(|p: (u64, TierLevel)| p.0)),
            res@ == ks.take(it.index()),
    {
        res.push((*kv.0, *kv.1));
        proof {
            assert(ks.take(it.index() + 1) =~= res@);
        }
    }
    proof {
        assert(ks.take(ks.len() as int) =~= ks);
        let key_seq = ks.map_values(|p: (u64, TierLevel)| p.0);
        assert(key_seq.to_set() =~= m@.dom()) by {
            assert forall|k: u64| m@.contains_key(k) implies key_seq.contains(k) by {
                let i = choose|i: int| 0 <= i < ks.len() && ks[i].0 == k;
                assert(key_seq[i] == k);
            }
        }
        maplib::lemma_ascending_keys_is(key_seq, m@.dom());
        assert(res@ =~= entries_of(m@));
    }
    res
}

/// Persisted workload profile.
#[derive(Clone, Debug, PartialEq, Eq)]
pub struct Profile {
    /// Hot buffers ordered by descending importance.
    pub hot_keys: Vec<BufferKey>,
    /// Persisted tier assignment per key.
    pub tier_assignment: BTreeMap<u64, TierLevel>,
}

impl Profile {
    /// Creates a profile from hot keys and tier assignments.
    pub fn new(hot_keys: Vec<BufferKey>, tier_assignment: BTreeMap<u64, TierLevel>) -> (res: Profile)
        ensures
            res.hot_keys@ == hot_keys@,
            res.tier_assignment@ == tier_assignment@,
    {
        Profile { hot_keys, tier_assignment }
    }

    /// Serializes this profile to JSON: the hot keys in order, then the tier
    /// assignments in ascending key order.
    pub fn to_json(&self) -> (res: String)
        ensures
            res@ == json_text(types::key_ids(self.hot_keys@), self.tier_assignment@),
    {
        let mut out: Vec<char> = Vec::new();
        push_str(&mut out, "{\"version\":1,\"hot_keys\":[");
        let ghost ids = types::key_ids(self.hot_keys@);
        let ghost parts = key_parts(ids);
        let mut i: usize = 0;
        proof {
            reveal_strlit(",");
            assert(parts.take(0) =~= Seq::<Seq<char>>::empty());
            assert(out@ =~= json_head() + join(parts.take(0), ","@));
        }
        while i < self.hot_keys.len()
            invariant
                i <= self.hot_keys.len(),
                ids == types::key_ids(self.hot_keys@),
                parts == key_parts(ids),
                ","@ == seq![','],
                out@ == json_head() + join(parts.take(i as int), ","@),
            decreases self.hot_keys.len() - i,
        {
            proof {
                assert(parts.take(i + 1).drop_last() =~= parts.take(i as int));
                assert(parts.take(i + 1).last() == text::decimal(self.hot_keys@[i as int].0 as nat));
            }
            if i > 0 {
                out.push(',');
            }
            push_decimal(&mut out, self.hot_keys[i].0);
            proof {
                if i == 0 {
                    assert(parts.take(1) =~= seq![parts[0]]);
                }
                assert(out@ =~= json_head() + join(parts.take(i + 1), ","@));
            }
            i = i + 1;
        }
        proof {
            assert(parts.take(i as int) =~= parts);
        }
        push_str(&mut out, "],\"tier_assignment\":[");
        let entries = assignment_entries(&self.tier_assignment);
        let ghost objs = object_parts(entries@);
        let ghost start = out@;
        let mut j: usize = 0;
        proof {
            assert(objs.take(0) =~= Seq::<Seq<char>>::empty());
            assert(out@ =~= start + join(objs.take(0), ","@));
        }
        while j < entries.len()
            invariant
                j <= entries.len(),
                objs == object_parts(entries@),
                ","@ == seq![','],
                out@ == start + join(objs.take(j as int), ","@),
            decreases entries.len() - j,
        {
            proof {
                assert(objs.take(j + 1).drop_last() =~= objs.take(j as int));
                assert(objs.take(j + 1).last() == object_text(entries@[j as int]));
            }
            if j > 0 {
                out.push(',');
            }
            let (key, tier) = entries[j];
            let ghost mark = out@;
            push_str(&mut out, "{\"key\":");
            push_decimal(&mut out, key);
            push_str(&mut out, ",\"tier\":\"");
            push_str(&mut out, tier_name(tier));
            push_str(&mut out, "\"}");
            proof {
                assert(out@ =~= mark + object_text(entries@[j as int]));
                if j == 0 {
                    assert(objs.take(1) =~= seq![objs[0]]);
                }
                assert(out@ =~= start + join(objs.take(j + 1), ","@));
            }
            j = j + 1;
        }
        proof {
            assert(objs.take(j as int) =~= objs);
        }
        push_str(&mut out, "]}");
        proof {
            assert(out@ =~= json_text(ids, self.tier_assignment@));
        }
        string_from_chars(&out)
    }

    /// Parses profile JSON produced by [`Profile::to_json`]; whitespace is ignored.
    ///
    /// # Errors
    ///
    /// Returns an error when mandatory fields are absent or malformed.
    pub fn from_json(json: &str) -> (res: Result<Profile, TierError>)
        ensures
            match (res, parse_profile(json@)) {
                (Ok(p), Ok(parsed)) => types::key_ids(p.hot_keys@) == parsed.0
                    && p.tier_assignment@ == parsed.1,
                (Err(e), Err(msg)) => is_parse_error(e, msg),
                _ => false,
            },
    {
        let compact = compact_chars(json);
        let n = compact.len();
        if !(n > 0 && compact[0] == '{' && compact[n - 1] == '}') {
            return Err(parse_error_str("profile must be a JSON object"));
        }
        let version_then_more = chars_of("\"version\":1,");
        let version_at_end = chars_of("\"version\":1}");
        if find_in(&compact, &version_then_more).is_none() && find_in(&compact, &version_at_end).is_none() {
            return Err(parse_error_str("profile version is missing or unsupported"));
        }
        let hot_keys = match parse_hot_keys(&compact) {
            Ok(k) => k,
            Err(e) => {
                return Err(e);
            },
        };
        let tier_assignment = match parse_assignments(&compact) {
            Ok(m) => m,
            Err(e) => {
                return Err(e);
            },
        };
        Ok(Profile { hot_keys, tier_assignment })
    }
}

} // verus!
