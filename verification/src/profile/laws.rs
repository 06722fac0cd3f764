use crate::maplib;
use crate::profile::text::{self, decimal, find, occurs_at, split, strip_spaces, trim_end, trim_start};
use crate::profile::{
    assignments_of, between, entries_of, hot_keys_of, join, json_text, object_text, objects_of,
    parse_item, parse_items, parse_keys, parse_profile, tier_named, tier_text,
};
use crate::types::TierLevel;
use vstd::prelude::*;

verus! {

/// A text without whitespace is its own compact form.
pub proof fn lemma_strip_plain(s: Seq<char>)
    requires
        forall|i: int| 0 <= i < s.len() ==> !text::is_space(#[trigger] s[i]),
    ensures
        strip_spaces(s) == s,
    decreases s.len(),
{
    reveal(Seq::filter);
    if s.len() > 0 {
        lemma_strip_plain(s.drop_last());
        assert(s.drop_last().push(s.last()) =~= s);
    }
}

/// An occurrence of a pattern matches it character by character.
pub proof fn lemma_occurs_char(s: Seq<char>, pat: Seq<char>, j: int, k: int)
    requires
        occurs_at(s, pat, j),
        0 <= k < pat.len(),
    ensures
        s[j + k] == pat[k],
{
    assert(s.subrange(j, j + pat.len())[k] == s[j + k]);
}

/// A join of two or more parts starts with the first part and a separator.
pub proof fn lemma_join_front(parts: Seq<Seq<char>>, sep: Seq<char>)
    requires
        parts.len() >= 2,
    ensures
        join(parts, sep) == parts[0] + sep + join(parts.drop_first(), sep),
    decreases parts.len(),
{
    if parts.len() == 2 {
        assert(parts.drop_last().len() == 1);
        assert(parts.drop_first().len() == 1);
        assert(join(parts.drop_last(), sep) == parts[0]);
        assert(join(parts.drop_first(), sep) == parts[1]);
    } else {
        let d = parts.drop_last();
        lemma_join_front(d, sep);
        assert(d.drop_first() =~= parts.drop_first().drop_last());
        assert(parts.drop_first().last() == parts.last());
        assert(d[0] == parts[0]);
        let x = join(d.drop_first(), sep);
        assert(join(parts.drop_first(), sep) == x + sep + parts.last());
        assert(join(parts, sep) == (parts[0] + sep + x) + sep + parts.last());
        assert((parts[0] + sep + x) + sep + parts.last() =~= parts[0] + sep + (x + sep
            + parts.last()));
    }
}

/// Every character of a join is a character of some part or of the separator.
pub proof fn lemma_join_chars(parts: Seq<Seq<char>>, sep: Seq<char>, p: spec_fn(char) -> bool)
    requires
        forall|i: int, k: int|
            0 <= i < parts.len() && 0 <= k < parts[i].len() ==> p(#[trigger] parts[i][k]),
        forall|k: int| 0 <= k < sep.len() ==> p(#[trigger] sep[k]),
    ensures
        forall|k: int| 0 <= k < join(parts, sep).len() ==> p(#[trigger] join(parts, sep)[k]),
    decreases parts.len(),
{
    if parts.len() == 0 {
    } else if parts.len() == 1 {
        assert forall|k: int| 0 <= k < join(parts, sep).len() implies p(
            #[trigger] join(parts, sep)[k],
        ) by {
            assert(parts[0][k] == join(parts, sep)[k]);
        }
    } else {
        let d = parts.drop_last();
        assert forall|i: int, k: int| 0 <= i < d.len() && 0 <= k < d[i].len() implies p(
            #[trigger] d[i][k],
        ) by {
            assert(d[i] == parts[i]);
        }
        lemma_join_chars(d, sep, p);
        let j = join(parts, sep);
        let a = join(d, sep);
        let l = parts.last();
        assert forall|k: int| 0 <= k < j.len() implies p(#[trigger] j[k]) by {
            if k < a.len() {
                assert(j[k] == a[k]);
            } else if k < a.len() + sep.len() {
                assert(j[k] == sep[k - a.len()]);
            } else {
                assert(j[k] == l[k - a.len() - sep.len()]);
                assert(parts[parts.len() - 1] == l);
            }
        }
    }
}

/// The pieces a text splits into when the text is parts joined by a separator
/// whose first character occurs nowhere else, framed by `a` and a short `b`:
/// the parts, with `a` before the first and `b` after the last.
pub open spec fn framed(parts: Seq<Seq<char>>, a: Seq<char>, b: Seq<char>) -> Seq<Seq<char>>
    decreases parts.len(),
{
    if parts.len() <= 1 {
        seq![a + parts[0] + b]
    } else {
        seq![a + parts[0]] + framed(parts.drop_first(), Seq::empty(), b)
    }
}

/// Splitting parts joined by a separator gives the parts back.
pub proof fn lemma_split_join(parts: Seq<Seq<char>>, sep: Seq<char>, a: Seq<char>, b: Seq<char>)
    requires
        parts.len() >= 1,
        sep.len() >= 1,
        b.len() < sep.len(),
        forall|k: int| 0 <= k < a.len() ==> #[trigger] a[k] != sep[0],
        forall|i: int, k: int|
            0 <= i < parts.len() && 0 <= k < parts[i].len() ==> #[trigger] parts[i][k] != sep[0],
        forall|k: int| 1 <= k < sep.len() ==> #[trigger] sep[k] != sep[0],
    ensures
        split(a + join(parts, sep) + b, sep) == framed(parts, a, b),
    decreases parts.len(),
{
    let s = a + join(parts, sep) + b;
    let p0 = parts[0];
    if parts.len() == 1 {
        assert(s =~= a + p0 + b);
        text::lemma_find(s, sep);
        if find(s, sep) is Some {
            let j = find(s, sep)->Some_0;
            lemma_occurs_char(s, sep, j, 0);
            if j < a.len() {
                assert(s[j] == a[j]);
            } else if j < a.len() + p0.len() {
                assert(s[j] == p0[j - a.len()]);
                assert(parts[0][j - a.len()] != sep[0]);
            }
        }
    } else {
        lemma_join_front(parts, sep);
        let rest = parts.drop_first();
        let i: int = (a.len() + p0.len()) as int;
        assert(s =~= (a + p0) + sep + (join(rest, sep) + b));
        assert(s.subrange(i, i + sep.len() as int) =~= sep);
        assert forall|j: int| 0 <= j < i implies !occurs_at(s, sep, j) by {
            if occurs_at(s, sep, j) {
                lemma_occurs_char(s, sep, j, 0);
                if j < a.len() {
                    assert(s[j] == a[j]);
                } else {
                    assert(s[j] == p0[j - a.len()]);
                    assert(parts[0][j - a.len()] != sep[0]);
                }
            }
        }
        text::lemma_find_is(s, sep, i);
        assert(s.subrange(0, i) =~= a + p0);
        let tail = s.subrange(i + sep.len() as int, s.len() as int);
        assert(tail =~= Seq::<char>::empty() + join(rest, sep) + b);
        assert forall|ii: int, k: int| 0 <= ii < rest.len() && 0 <= k < rest[ii].len() implies #[trigger] rest[ii][k]
            != sep[0] by {
            assert(rest[ii] == parts[ii + 1]);
        }
        lemma_split_join(rest, sep, Seq::empty(), b);
    }
}

/// Removing leading characters that are not there changes nothing.
pub proof fn lemma_trim_start_none(x: Seq<char>, c: char)
    requires
        x.len() == 0 || x[0] != c,
    ensures
        trim_start(x, c) == x,
{
}

/// Removing trailing characters that are not there changes nothing.
pub proof fn lemma_trim_end_none(x: Seq<char>, c: char)
    requires
        x.len() == 0 || x.last() != c,
    ensures
        trim_end(x, c) == x,
{
}

/// Removing one leading character in front of a text that does not start with it.
pub proof fn lemma_trim_start_one(x: Seq<char>, c: char)
    requires
        x.len() == 0 || x[0] != c,
    ensures
        trim_start(seq![c] + x, c) == x,
{
    assert((seq![c] + x).drop_first() =~= x);
    assert((seq![c] + x)[0] == c);
    lemma_trim_start_none(x, c);
}

/// Removing one trailing character behind a text that does not end with it.
pub proof fn lemma_trim_end_one(x: Seq<char>, c: char)
    requires
        x.len() == 0 || x.last() != c,
    ensures
        trim_end(x + seq![c], c) == x,
{
    assert((x + seq![c]).drop_last() =~= x);
    assert((x + seq![c]).last() == c);
    lemma_trim_end_none(x, c);
}


/// The inside of a tier assignment object, between its braces.
pub open spec fn inner_text(e: (u64, TierLevel)) -> Seq<char> {
    "\"key\":"@ + decimal(e.0 as nat) + ",\"tier\":\""@ + tier_text(e.1) + "\""@
}

/// The insides of the tier assignment objects.
pub open spec fn inner_parts(es: Seq<(u64, TierLevel)>) -> Seq<Seq<char>> {
    es.map_values(|e: (u64, TierLevel)| inner_text(e))
}

/// A tier assignment object is its inside between braces.
pub proof fn lemma_object_text(e: (u64, TierLevel))
    ensures
        object_text(e) == seq!['{'] + inner_text(e) + seq!['}'],
{
    reveal_strlit("{\"key\":");
    reveal_strlit("\"key\":");
    reveal_strlit("\"}");
    reveal_strlit("\"");
    assert(crate::profile::object_head() =~= seq!['{'] + "\"key\":"@);
    assert(crate::profile::object_tail() =~= "\""@ + seq!['}']);
    assert(object_text(e) =~= seq!['{'] + inner_text(e) + seq!['}']);
}

/// Comma-separated objects are their insides separated by `},{`, between braces.
pub proof fn lemma_objects_join(es: Seq<(u64, TierLevel)>)
    requires
        es.len() >= 1,
    ensures
        crate::profile::objects_text(es) == seq!['{'] + join(inner_parts(es), "},{"@) + seq!['}'],
    decreases es.len(),
{
    reveal_strlit(",");
    reveal_strlit("},{");
    let op = crate::profile::object_parts(es);
    let ip = inner_parts(es);
    if es.len() == 1 {
        lemma_object_text(es[0]);
        assert(op[0] == object_text(es[0]));
        assert(ip[0] == inner_text(es[0]));
    } else {
        let d = es.drop_last();
        lemma_objects_join(d);
        assert(op.drop_last() =~= crate::profile::object_parts(d));
        assert(ip.drop_last() =~= inner_parts(d));
        lemma_object_text(es.last());
        assert(op.last() == object_text(es.last()));
        assert(ip.last() == inner_text(es.last()));
        let jd = join(inner_parts(d), "},{"@);
        assert(crate::profile::objects_text(es) == (seq!['{'] + jd + seq!['}']) + ","@ + (seq!['{']
            + inner_text(es.last()) + seq!['}']));
        assert(join(ip, "},{"@) == jd + "},{"@ + inner_text(es.last()));
        assert(crate::profile::objects_text(es) =~= seq!['{'] + join(ip, "},{"@) + seq!['}']);
    }
}

/// Parts framed by nothing are the parts.
pub proof fn lemma_framed_plain(parts: Seq<Seq<char>>)
    requires
        parts.len() >= 1,
    ensures
        framed(parts, Seq::empty(), Seq::empty()) == parts,
    decreases parts.len(),
{
    if parts.len() == 1 {
        assert(Seq::<char>::empty() + parts[0] + Seq::<char>::empty() =~= parts[0]);
        assert(framed(parts, Seq::empty(), Seq::empty()) =~= parts);
    } else {
        lemma_framed_plain(parts.drop_first());
        assert(Seq::<char>::empty() + parts[0] =~= parts[0]);
        assert(framed(parts, Seq::empty(), Seq::empty()) =~= parts);
    }
}

/// Stripping the braces of the pieces of `{` + parts + `}` gives the parts
/// back, when no part is empty, starts with `{` or ends with `}`.
pub proof fn lemma_unbraced_framed(parts: Seq<Seq<char>>, a: Seq<char>)
    requires
        parts.len() >= 1,
        a == seq!['{'] || a == Seq::<char>::empty(),
        forall|i: int|
            0 <= i < parts.len() ==> (#[trigger] parts[i]).len() > 0 && parts[i][0] != '{'
                && parts[i].last() != '}',
    ensures
        crate::profile::unbraced(framed(parts, a, seq!['}'])) == parts,
    decreases parts.len(),
{
    let p0 = parts[0];
    let f = framed(parts, a, seq!['}']);
    if parts.len() == 1 {
        let piece = a + p0 + seq!['}'];
        if a == seq!['{'] {
            assert(piece =~= seq!['{'] + (p0 + seq!['}']));
            lemma_trim_start_one(p0 + seq!['}'], '{');
        } else {
            assert(piece =~= p0 + seq!['}']);
            lemma_trim_start_none(p0 + seq!['}'], '{');
        }
        lemma_trim_end_one(p0, '}');
        assert(crate::profile::unbraced(f) =~= parts);
    } else {
        let rest = parts.drop_first();
        lemma_unbraced_framed(rest, Seq::empty());
        let piece = a + p0;
        if a == seq!['{'] {
            lemma_trim_start_one(p0, '{');
        } else {
            assert(piece =~= p0);
            lemma_trim_start_none(p0, '{');
        }
        lemma_trim_end_none(p0, '}');
        let u = crate::profile::unbraced(f);
        assert(f == seq![piece] + framed(rest, Seq::empty(), seq!['}']));
        assert forall|i: int| 0 <= i < parts.len() implies u[i] == parts[i] by {
            if i > 0 {
                assert(f[i] == framed(rest, Seq::empty(), seq!['}'])[i - 1]);
                assert(crate::profile::unbraced(framed(rest, Seq::empty(), seq!['}']))[i - 1]
                    == rest[i - 1]);
            }
        }
        assert(u =~= parts);
    }
}

/// Decimal keys parse back to the keys.
pub proof fn lemma_parse_key_parts(keys: Seq<u64>)
    ensures
        parse_keys(crate::profile::key_parts(keys)) == Ok::<Seq<u64>, Seq<char>>(keys),
    decreases keys.len(),
{
    let kp = crate::profile::key_parts(keys);
    if keys.len() == 0 {
        assert(kp.len() == 0);
        assert(keys =~= Seq::<u64>::empty());
    } else {
        lemma_parse_key_parts(keys.drop_last());
        assert(kp.drop_last() =~= crate::profile::key_parts(keys.drop_last()));
        assert(kp.last() == decimal(keys.last() as nat));
        text::lemma_parse_decimal(keys.last());
        assert(keys.drop_last().push(keys.last()) =~= keys);
    }
}


/// A tier name is made of ASCII letters.
pub proof fn lemma_tier_text_letters(t: TierLevel)
    ensures
        tier_text(t).len() > 0,
        forall|k: int|
            0 <= k < tier_text(t).len() ==> 'A' <= #[trigger] tier_text(t)[k] <= 'z' && tier_text(
                t,
            )[k] != '[' && tier_text(t)[k] != ']',
        tier_named(tier_text(t)) == Some(t),
{
    reveal_strlit("Vram");
    reveal_strlit("Host");
    reveal_strlit("Storage");
    assert("Vram"@ != "Host"@) by {
        assert("Vram"@[0] != "Host"@[0]);
    }
    assert("Vram"@ != "Storage"@) by {
        assert("Vram"@[0] != "Storage"@[0]);
    }
    assert("Host"@ != "Storage"@) by {
        assert("Host"@[0] != "Storage"@[0]);
    }
}

/// The first occurrence of a single character after a text free of it.
pub proof fn lemma_find_char(x: Seq<char>, y: Seq<char>, c: char)
    requires
        forall|k: int| 0 <= k < x.len() ==> #[trigger] x[k] != c,
        y.len() > 0,
        y[0] == c,
    ensures
        find(x + y, seq![c]) == Some(x.len() as int),
{
    let s = x + y;
    assert(s.subrange(x.len() as int, x.len() + 1int) =~= seq![c]);
    assert forall|j: int| 0 <= j < x.len() implies !occurs_at(s, seq![c], j) by {
        if occurs_at(s, seq![c], j) {
            lemma_occurs_char(s, seq![c], j, 0);
            assert(s[j] == x[j]);
        }
    }
    text::lemma_find_is(s, seq![c], x.len() as int);
}

/// The key and tier of an object's inside are read back from it.
pub proof fn lemma_parse_inner(e: (u64, TierLevel))
    ensures
        parse_item(inner_text(e)) == Ok::<(u64, TierLevel), Seq<char>>(e),
{
    reveal_strlit("\"key\":");
    reveal_strlit(",\"tier\"");
    reveal_strlit(",\"tier\":\"");
    reveal_strlit("\"tier\":\"");
    reveal_strlit("\"");
    let kp = "\"key\":"@;
    let d = decimal(e.0 as nat);
    let tm = ",\"tier\":\""@;
    let n = tier_text(e.1);
    let q = "\""@;
    let inner = inner_text(e);
    assert(inner == kp + d + tm + n + q);
    text::lemma_decimal_parses(e.0 as nat);
    lemma_tier_text_letters(e.1);
    // The key prefix opens the inside.
    assert(inner.subrange(0, 6) =~= kp);
    text::lemma_find_is(inner, kp, 0);
    let rest = inner.subrange(6, inner.len() as int);
    assert(rest =~= d + (tm + n + q));
    let ts = ",\"tier\""@;
    assert(rest.subrange(d.len() as int, d.len() + 7int) =~= ts);
    assert forall|j: int| 0 <= j < d.len() implies !occurs_at(rest, ts, j) by {
        if occurs_at(rest, ts, j) {
            lemma_occurs_char(rest, ts, j, 0);
            assert(rest[j] == d[j]);
            assert(text::is_digit(d[j]));
        }
    }
    text::lemma_find_is(rest, ts, d.len() as int);
    assert(rest.subrange(0, d.len() as int) =~= d);
    // The tier prefix follows the key digits.
    let tp = "\"tier\":\""@;
    let i: int = 7 + d.len() as int;
    assert(inner.subrange(i, i + 8) =~= tp);
    assert forall|j: int| 0 <= j < i implies !occurs_at(inner, tp, j) by {
        if occurs_at(inner, tp, j) {
            lemma_occurs_char(inner, tp, j, 0);
            lemma_occurs_char(inner, tp, j, 1);
            if j < 6 {
                assert(inner[j] == kp[j]);
                assert(inner[j + 1] == kp[j + 1]);
            } else if j < 6 + d.len() {
                assert(inner[j] == d[j - 6]);
                assert(text::is_digit(d[j - 6]));
            } else {
                assert(inner[j] == tm[0]);
            }
        }
    }
    text::lemma_find_is(inner, tp, i);
    let rest2 = inner.subrange(i + 8, inner.len() as int);
    assert(rest2 =~= n + q);
    lemma_find_char(n, q, '"');
    assert(q =~= seq!['"']);
    assert(rest2.subrange(0, n.len() as int) =~= n);
    text::lemma_parse_decimal(e.0);
}


/// The map built by inserting the entries in order.
pub open spec fn fold_entries(es: Seq<(u64, TierLevel)>) -> Map<u64, TierLevel>
    decreases es.len(),
{
    if es.len() == 0 {
        Map::empty()
    } else {
        fold_entries(es.drop_last()).insert(es.last().0, es.last().1)
    }
}

/// Reading the insides of objects gives the entries inserted in order.
pub proof fn lemma_parse_inner_parts(es: Seq<(u64, TierLevel)>)
    ensures
        parse_items(inner_parts(es)) == Ok::<Map<u64, TierLevel>, Seq<char>>(fold_entries(es)),
    decreases es.len(),
{
    if es.len() > 0 {
        lemma_parse_inner_parts(es.drop_last());
        assert(inner_parts(es).drop_last() =~= inner_parts(es.drop_last()));
        assert(inner_parts(es).last() == inner_text(es.last()));
        lemma_parse_inner(es.last());
    }
}

/// Inserting entries with distinct keys maps each key to its entry's value.
pub proof fn lemma_fold_entries(es: Seq<(u64, TierLevel)>)
    requires
        forall|i: int, j: int| 0 <= i < j < es.len() ==> es[i].0 != es[j].0,
    ensures
        forall|k: u64|
            fold_entries(es).contains_key(k) <==> exists|i: int| 0 <= i < es.len() && es[i].0 == k,
        forall|i: int| 0 <= i < es.len() ==> fold_entries(es)[#[trigger] es[i].0] == es[i].1,
    decreases es.len(),
{
    if es.len() > 0 {
        let d = es.drop_last();
        lemma_fold_entries(d);
        assert forall|k: u64| fold_entries(es).contains_key(k) <==> exists|i: int|
            0 <= i < es.len() && es[i].0 == k by {
            if fold_entries(es).contains_key(k) && k != es.last().0 {
                assert(fold_entries(d).contains_key(k));
                let i = choose|i: int| 0 <= i < d.len() && d[i].0 == k;
                assert(d[i] == es[i]);
                assert(es[i].0 == k);
            }
            if k == es.last().0 {
                assert(es[es.len() - 1].0 == k);
            }
            if exists|i: int| 0 <= i < es.len() && es[i].0 == k {
                let i = choose|i: int| 0 <= i < es.len() && es[i].0 == k;
                if i < d.len() {
                    assert(d[i] == es[i]);
                    assert(d[i].0 == k);
                }
            }
        }
        assert forall|i: int| 0 <= i < es.len() implies fold_entries(es)[#[trigger] es[i].0]
            == es[i].1 by {
            if i < d.len() {
                assert(d[i] == es[i]);
                assert(es[i].0 != es.last().0);
            }
        }
    }
}

/// The entries of a finite map, inserted in ascending key order, rebuild it.
pub proof fn lemma_fold_entries_of(m: Map<u64, TierLevel>)
    requires
        m.dom().finite(),
    ensures
        fold_entries(entries_of(m)) == m,
{
    maplib::lemma_ascending_keys_exist(m.dom());
    let ks = maplib::ascending_keys(m.dom());
    let es = entries_of(m);
    assert forall|i: int, j: int| 0 <= i < j < es.len() implies es[i].0 != es[j].0 by {
        assert(es[i].0 == ks[i]);
        assert(es[j].0 == ks[j]);
    }
    lemma_fold_entries(es);
    let f = fold_entries(es);
    assert forall|k: u64| f.contains_key(k) <==> m.contains_key(k) by {
        if m.contains_key(k) {
            assert(ks.to_set().contains(k));
            let i = choose|i: int| 0 <= i < ks.len() && ks[i] == k;
            assert(es[i].0 == k);
        }
        if f.contains_key(k) {
            let i = choose|i: int| 0 <= i < es.len() && es[i].0 == k;
            assert(ks[i] == k);
            assert(ks.to_set().contains(k));
        }
    }
    assert forall|k: u64| #[trigger] m.contains_key(k) implies f[k] == m[k] by {
        assert(ks.to_set().contains(k));
        let i = choose|i: int| 0 <= i < ks.len() && ks[i] == k;
        assert(es[i] == (k, m[k]));
    }
    assert(f =~= m);
}


/// A character that may stand in a profile document between its brackets:
/// no whitespace and no closing bracket.
pub open spec fn plain_char(c: char) -> bool {
    !text::is_space(c) && c != ']'
}

/// Decimal digits and commas are plain.
pub proof fn lemma_keys_text_chars(keys: Seq<u64>)
    ensures
        forall|k: int|
            0 <= k < crate::profile::keys_text(keys).len() ==> {
                let c = #[trigger] crate::profile::keys_text(keys)[k];
                &&& plain_char(c)
                &&& c != '"'
                &&& c != '['
            },
{
    reveal_strlit(",");
    let kp = crate::profile::key_parts(keys);
    let p = |c: char| plain_char(c) && c != '"' && c != '[';
    assert forall|i: int, k: int| 0 <= i < kp.len() && 0 <= k < kp[i].len() implies p(
        #[trigger] kp[i][k],
    ) by {
        text::lemma_decimal_parses(keys[i] as nat);
        assert(kp[i] == decimal(keys[i] as nat));
        assert(text::is_digit(kp[i][k]));
    }
    lemma_join_chars(kp, ","@, p);
}

/// The characters of a tier assignment object are plain.
pub proof fn lemma_object_chars(e: (u64, TierLevel))
    ensures
        forall|k: int| 0 <= k < object_text(e).len() ==> plain_char(#[trigger] object_text(e)[k]),
        forall|k: int| 0 <= k < inner_text(e).len() ==> #[trigger] inner_text(e)[k] != '}',
        inner_text(e).len() > 0,
        inner_text(e)[0] == '"',
        inner_text(e).last() == '"',
{
    reveal_strlit("\"key\":");
    reveal_strlit(",\"tier\":\"");
    reveal_strlit("\"");
    lemma_object_text(e);
    text::lemma_decimal_parses(e.0 as nat);
    lemma_tier_text_letters(e.1);
    let kp = "\"key\":"@;
    let d = decimal(e.0 as nat);
    let tm = ",\"tier\":\""@;
    let n = tier_text(e.1);
    let q = "\""@;
    let inner = inner_text(e);
    assert(inner == kp + d + tm + n + q);
    assert forall|k: int| 0 <= k < inner.len() implies plain_char(#[trigger] inner[k]) && inner[k]
        != '}' && inner[k] != '{' by {
        if k < kp.len() {
            assert(inner[k] == kp[k]);
        } else if k < kp.len() + d.len() {
            assert(inner[k] == d[k - kp.len()]);
            assert(text::is_digit(d[k - kp.len()]));
        } else if k < kp.len() + d.len() + tm.len() {
            assert(inner[k] == tm[k - kp.len() - d.len()]);
        } else if k < kp.len() + d.len() + tm.len() + n.len() {
            assert(inner[k] == n[k - kp.len() - d.len() - tm.len()]);
        } else {
            assert(inner[k] == q[k - kp.len() - d.len() - tm.len() - n.len()]);
        }
    }
    let o = object_text(e);
    assert forall|k: int| 0 <= k < o.len() implies plain_char(#[trigger] o[k]) by {
        if 1 <= k < 1 + inner.len() {
            assert(o[k] == inner[k - 1]);
        }
    }
}

/// The tier assignment objects are plain.
pub proof fn lemma_objects_text_chars(es: Seq<(u64, TierLevel)>)
    ensures
        forall|k: int|
            0 <= k < crate::profile::objects_text(es).len() ==> plain_char(
                #[trigger] crate::profile::objects_text(es)[k],
            ),
{
    reveal_strlit(",");
    let op = crate::profile::object_parts(es);
    let p = |c: char| plain_char(c);
    assert forall|i: int, k: int| 0 <= i < op.len() && 0 <= k < op[i].len() implies p(
        #[trigger] op[i][k],
    ) by {
        lemma_object_chars(es[i]);
        assert(op[i] == object_text(es[i]));
    }
    lemma_join_chars(op, ","@, p);
}

/// The layout of a profile document: head, hot keys, middle, objects, tail.
pub proof fn lemma_json_layout(keys: Seq<u64>, m: Map<u64, TierLevel>)
    ensures
        json_text(keys, m) == crate::profile::json_head() + crate::profile::keys_text(keys)
            + crate::profile::json_middle() + crate::profile::objects_text(entries_of(m))
            + crate::profile::json_tail(),
        crate::profile::json_head().len() == 25,
        crate::profile::json_middle().len() == 21,
        crate::profile::json_head() == "{\"version\":1,\"hot_keys\":["@,
{
    reveal_strlit("{\"version\":1,\"hot_keys\":[");
    reveal_strlit("],\"tier_assignment\":[");
}

/// A profile document holds no whitespace, and opens and closes with braces.
#[verifier::spinoff_prover]
#[verifier::rlimit(40)]
pub proof fn lemma_json_plain(keys: Seq<u64>, m: Map<u64, TierLevel>)
    ensures
        strip_spaces(json_text(keys, m)) == json_text(keys, m),
        json_text(keys, m)[0] == '{',
        json_text(keys, m).last() == '}',
        json_text(keys, m).len() > 0,
{
    reveal_strlit("{\"version\":1,\"hot_keys\":[");
    reveal_strlit("],\"tier_assignment\":[");
    reveal_strlit("]}");
    lemma_json_layout(keys, m);
    let h = crate::profile::json_head();
    let kt = crate::profile::keys_text(keys);
    let mid = crate::profile::json_middle();
    let ot = crate::profile::objects_text(entries_of(m));
    let t = crate::profile::json_tail();
    let j = json_text(keys, m);
    lemma_keys_text_chars(keys);
    lemma_objects_text_chars(entries_of(m));
    assert forall|k: int| 0 <= k < j.len() implies !text::is_space(#[trigger] j[k]) by {
        if k < 25 {
            assert(j[k] == h[k]);
        } else if k < 25 + kt.len() {
            assert(j[k] == kt[k - 25]);
        } else if k < 25 + kt.len() + 21 {
            assert(j[k] == mid[k - 25 - kt.len()]);
        } else if k < 46 + kt.len() + ot.len() {
            assert(j[k] == ot[k - 46 - kt.len()]);
            assert(plain_char(ot[k - 46 - kt.len()]));
        } else {
            assert(j[k] == t[k - 46 - kt.len() - ot.len()]);
        }
    }
    lemma_strip_plain(j);
    assert(j[0] == h[0]);
    assert(j.last() == t[1]);
}

/// The version tag of a profile document is found, followed by a comma.
pub proof fn lemma_json_version(keys: Seq<u64>, m: Map<u64, TierLevel>)
    ensures
        find(json_text(keys, m), "\"version\":1,"@) is Some,
{
    reveal_strlit("{\"version\":1,\"hot_keys\":[");
    reveal_strlit("\"version\":1,");
    lemma_json_layout(keys, m);
    let j = json_text(keys, m);
    let h = crate::profile::json_head();
    assert(j.subrange(1, 13) =~= h.subrange(1, 13));
    assert(j.subrange(1, 13) =~= "\"version\":1,"@);
    assert(occurs_at(j, "\"version\":1,"@, 1));
    text::lemma_find(j, "\"version\":1,"@);
}

/// The hot keys of a profile document read back as the keys written.
pub proof fn lemma_json_hot_keys(keys: Seq<u64>, m: Map<u64, TierLevel>)
    ensures
        hot_keys_of(json_text(keys, m)) == Ok::<Seq<u64>, Seq<char>>(keys),
{
    reveal_strlit("{\"version\":1,\"hot_keys\":[");
    reveal_strlit("\"hot_keys\":[");
    reveal_strlit("],\"tier_assignment\":[");
    reveal_strlit("]");
    reveal_strlit(",");
    lemma_json_layout(keys, m);
    let h = crate::profile::json_head();
    let kt = crate::profile::keys_text(keys);
    let mid = crate::profile::json_middle();
    let ot = crate::profile::objects_text(entries_of(m));
    let t = crate::profile::json_tail();
    let j = json_text(keys, m);
    lemma_keys_text_chars(keys);
    let hp = "\"hot_keys\":["@;
    assert(j.subrange(13, 25) =~= h.subrange(13, 25));
    assert(j.subrange(13, 25) =~= hp);
    assert forall|x: int| 0 <= x < 13 implies !occurs_at(j, hp, x) by {
        if occurs_at(j, hp, x) {
            lemma_occurs_char(j, hp, x, 0);
            lemma_occurs_char(j, hp, x, 1);
            assert(j[x] == h[x]);
            assert(j[x + 1] == h[x + 1]);
        }
    }
    text::lemma_find_is(j, hp, 13);
    let rest = j.subrange(25, j.len() as int);
    assert(rest =~= kt + (mid + ot + t));
    assert forall|k: int| 0 <= k < kt.len() implies #[trigger] kt[k] != ']' by {
        assert(plain_char(kt[k]));
    }
    lemma_find_char(kt, mid + ot + t, ']');
    assert("]"@ =~= seq![']']);
    assert(rest.subrange(0, kt.len() as int) =~= kt);
    assert(between(j, hp, "]"@) == Ok::<Seq<char>, Seq<char>>(kt));
    if keys.len() == 0 {
        assert(crate::profile::key_parts(keys).len() == 0);
        assert(kt.len() == 0);
        assert(keys =~= Seq::<u64>::empty());
    } else {
        let kp = crate::profile::key_parts(keys);
        assert forall|i: int, k: int| 0 <= i < kp.len() && 0 <= k < kp[i].len() implies #[trigger] kp[i][k]
            != ","@[0] by {
            text::lemma_decimal_parses(keys[i] as nat);
            assert(kp[i] == decimal(keys[i] as nat));
            assert(text::is_digit(kp[i][k]));
        }
        assert(Seq::<char>::empty() + join(kp, ","@) + Seq::<char>::empty() =~= kt);
        lemma_split_join(kp, ","@, Seq::empty(), Seq::empty());
        lemma_framed_plain(kp);
        lemma_parse_key_parts(keys);
    }
}

/// The tier assignments of a profile document read back as the map written.
pub proof fn lemma_json_assignments(keys: Seq<u64>, m: Map<u64, TierLevel>)
    requires
        m.dom().finite(),
    ensures
        assignments_of(json_text(keys, m)) == Ok::<Map<u64, TierLevel>, Seq<char>>(m),
{
    reveal_strlit("{\"version\":1,\"hot_keys\":[");
    reveal_strlit("],\"tier_assignment\":[");
    reveal_strlit("]}");
    reveal_strlit("\"tier_assignment\":[");
    reveal_strlit("]");
    reveal_strlit("},{");
    lemma_json_layout(keys, m);
    let h = crate::profile::json_head();
    let kt = crate::profile::keys_text(keys);
    let mid = crate::profile::json_middle();
    let es = entries_of(m);
    let ot = crate::profile::objects_text(es);
    let t = crate::profile::json_tail();
    let j = json_text(keys, m);
    lemma_keys_text_chars(keys);
    lemma_objects_text_chars(es);
    let ap = "\"tier_assignment\":["@;
    let pos: int = 27 + kt.len() as int;
    assert(j.subrange(pos, pos + 19) =~= mid.subrange(2, 21));
    assert(j.subrange(pos, pos + 19) =~= ap);
    assert forall|x: int| 0 <= x < pos implies !occurs_at(j, ap, x) by {
        if occurs_at(j, ap, x) {
            lemma_occurs_char(j, ap, x, 0);
            lemma_occurs_char(j, ap, x, 1);
            if x < 24 {
                assert(j[x] == h[x]);
                assert(j[x + 1] == h[x + 1]);
            } else if x == 24 {
                assert(j[x] == h[x]);
            } else if x < 25 + kt.len() {
                assert(j[x] == kt[x - 25]);
            } else {
                assert(j[x] == mid[x - 25 - kt.len()]);
            }
        }
    }
    text::lemma_find_is(j, ap, pos);
    let rest2 = j.subrange(pos + 19, j.len() as int);
    assert(rest2 =~= ot + t);
    assert forall|k: int| 0 <= k < ot.len() implies #[trigger] ot[k] != ']' by {
        assert(plain_char(ot[k]));
    }
    lemma_find_char(ot, t, ']');
    assert("]"@ =~= seq![']']);
    assert(rest2.subrange(0, ot.len() as int) =~= ot);
    assert(between(j, ap, "]"@) == Ok::<Seq<char>, Seq<char>>(ot));
    maplib::lemma_ascending_keys_exist(m.dom());
    lemma_fold_entries_of(m);
    if es.len() == 0 {
        assert(crate::profile::object_parts(es).len() == 0);
        assert(ot.len() == 0);
        assert(m.dom().len() == 0) by {
            assert(maplib::ascending_keys(m.dom()).len() == 0);
            assert(maplib::ascending_keys(m.dom()).to_set() =~= Set::<u64>::empty());
        }
        assert(m =~= Map::<u64, TierLevel>::empty());
    } else {
        let ip = inner_parts(es);
        lemma_objects_join(es);
        assert forall|i: int, k: int| 0 <= i < ip.len() && 0 <= k < ip[i].len() implies #[trigger] ip[i][k]
            != "},{"@[0] by {
            lemma_object_chars(es[i]);
            assert(ip[i] == inner_text(es[i]));
        }
        assert forall|i: int| 0 <= i < ip.len() implies (#[trigger] ip[i]).len() > 0 && ip[i][0]
            != '{' && ip[i].last() != '}' by {
            lemma_object_chars(es[i]);
            assert(ip[i] == inner_text(es[i]));
        }
        lemma_split_join(ip, "},{"@, seq!['{'], seq!['}']);
        lemma_unbraced_framed(ip, seq!['{']);
        let items = crate::profile::unbraced(split(ot, "},{"@));
        assert(items == ip);
        assert(!exists|i: int| 0 <= i < items.len() && #[trigger] items[i].len() == 0);
        assert(objects_of(ot) == Ok::<Seq<Seq<char>>, Seq<char>>(ip));
        lemma_parse_inner_parts(es);
    }
}

/// Reading a profile document written from hot keys and tier assignments
/// gives back exactly those hot keys, in order, and those tier assignments.
pub proof fn law_profile_roundtrip(keys: Seq<u64>, m: Map<u64, TierLevel>)
    requires
        m.dom().finite(),
    ensures
        parse_profile(json_text(keys, m)) == Ok::<(Seq<u64>, Map<u64, TierLevel>), Seq<char>>(
            (keys, m),
        ),
{
    let j = json_text(keys, m);
    lemma_json_plain(keys, m);
    lemma_json_version(keys, m);
    lemma_json_hot_keys(keys, m);
    lemma_json_assignments(keys, m);
    let c = strip_spaces(j);
    assert(c == j);
    assert(c.len() > 0 && c[0] == '{' && c.last() == '}');
    assert(find(c, "\"version\":1,"@) is Some);
    assert(hot_keys_of(c) == Ok::<Seq<u64>, Seq<char>>(keys));
    assert(assignments_of(c) == Ok::<Map<u64, TierLevel>, Seq<char>>(m));
    lemma_parse_compact(j, keys, m);
}

/// A document without whitespace, braced, tagged with the version, whose hot
/// keys and tier assignments read as given, parses to them.
pub proof fn lemma_parse_compact(j: Seq<char>, keys: Seq<u64>, m: Map<u64, TierLevel>)
    requires
        strip_spaces(j) == j,
        j.len() > 0 && j[0] == '{' && j.last() == '}',
        find(j, "\"version\":1,"@) is Some,
        hot_keys_of(j) == Ok::<Seq<u64>, Seq<char>>(keys),
        assignments_of(j) == Ok::<Map<u64, TierLevel>, Seq<char>>(m),
    ensures
        parse_profile(j) == Ok::<(Seq<u64>, Map<u64, TierLevel>), Seq<char>>((keys, m)),
{
}

/// Each tier's name reads back as that tier, and a text reads as a tier only
/// when it is that tier's name.
pub proof fn law_tier_name_roundtrip(t: TierLevel, name: Seq<char>)
    ensures
        crate::profile::tier_named(crate::profile::tier_text(t)) == Some(t),
        crate::profile::tier_named(name) is Some ==> crate::profile::tier_text(
            crate::profile::tier_named(name).unwrap(),
        ) == name,
{
    reveal_strlit("Vram");
    reveal_strlit("Host");
    reveal_strlit("Storage");
    assert("Vram"@[0] != "Host"@[0] && "Vram"@[0] != "Storage"@[0] && "Host"@[0] != "Storage"@[0]);
}

/// A profile reads the same with any Unicode `White_Space` character put
/// anywhere in it, as `char::is_whitespace` defines that set: tab, line feed,
/// vertical tab, form feed, carriage return, space, next line, no-break
/// space, ogham space mark, the spaces from en quad to hair space, line and
/// paragraph separators, narrow no-break space, medium mathematical space and
/// ideographic space. So a saved file with a Windows line ending loads as
/// the same profile.
pub proof fn law_whitespace_ignored(before: Seq<char>, c: char, after: Seq<char>)
    requires
        ({
            let u = c as u32;
            ||| 0x09 <= u <= 0x0D
            ||| u == 0x20
            ||| u == 0x85
            ||| u == 0xA0
            ||| u == 0x1680
            ||| 0x2000 <= u <= 0x200A
            ||| u == 0x2028
            ||| u == 0x2029
            ||| u == 0x202F
            ||| u == 0x205F
            ||| u == 0x3000
        }),
    ensures
        parse_profile(before + seq![c] + after) == parse_profile(before + after),
{
    let keep = |x: char| !text::is_space(x);
    Seq::filter_distributes_over_add(before + seq![c], after, keep);
    Seq::filter_distributes_over_add(before, seq![c], keep);
    Seq::filter_distributes_over_add(before, after, keep);
    assert(seq![c].filter(keep) =~= Seq::<char>::empty()) by {
        reveal(Seq::filter);
        assert(seq![c].drop_last() =~= Seq::<char>::empty());
        assert(Seq::<char>::empty().filter(keep) =~= Seq::<char>::empty());
        assert(text::is_space(c));
    }
    assert(strip_spaces(before + seq![c] + after) =~= strip_spaces(before + after));
}

} // verus!
