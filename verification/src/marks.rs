//! Philological mark codes: the built-in set and custom definitions.
use crate::text::{chars_of, range_is};
use vstd::prelude::*;

verus! {

/// The sixteen built-in mark codes.
pub open spec fn builtin_marks() -> Seq<Seq<char>> {
    seq![
        seq!['n', 'b'],
        seq!['i', 't'],
        seq!['u', 'l'],
        seq!['s', 't'],
        seq!['s', 'c'],
        seq!['h', 'i'],
        seq!['e', 'm'],
        seq!['s', 'i', 'c'],
        seq!['c', 'r', 'u', 'x'],
        seq!['l', 'a', 'c'],
        seq!['d', 'e', 'l'],
        seq!['s', 'u', 'p'],
        seq!['c', 'o', 'n', 'j'],
        seq!['d', 'u', 'b'],
        seq!['g', 'l', 'o', 's', 's'],
        seq!['i', 'n', 't', 'e', 'r', 'p'],
    ]
}

/// `t` is a mark code: built-in or one of the custom codes.
pub open spec fn is_mark_code(t: Seq<char>, custom: Seq<Seq<char>>) -> bool {
    builtin_marks().contains(t) || custom.contains(t)
}

pub open spec fn codes_view(list: Seq<Vec<char>>) -> Seq<Seq<char>> {
    list.map_values(|w: Vec<char>| w@)
}

/// The built-in mark codes, as character vectors.
pub fn builtin_marks_exec() -> (r: Vec<Vec<char>>)
    ensures
        codes_view(r@) == builtin_marks(),
{
    let r = vec![
        vec!['n', 'b'],
        vec!['i', 't'],
        vec!['u', 'l'],
        vec!['s', 't'],
        vec!['s', 'c'],
        vec!['h', 'i'],
        vec!['e', 'm'],
        vec!['s', 'i', 'c'],
        vec!['c', 'r', 'u', 'x'],
        vec!['l', 'a', 'c'],
        vec!['d', 'e', 'l'],
        vec!['s', 'u', 'p'],
        vec!['c', 'o', 'n', 'j'],
        vec!['d', 'u', 'b'],
        vec!['g', 'l', 'o', 's', 's'],
        vec!['i', 'n', 't', 'e', 'r', 'p'],
    ];
    assert(codes_view(r@) =~= builtin_marks());
    r
}

/// Whether `v[lo..hi]` is one of the codes in `list`.
pub fn contains_code(list: &Vec<Vec<char>>, v: &Vec<char>, lo: usize, hi: usize) -> (b: bool)
    requires
        lo <= hi <= v.len(),
    ensures
        b == codes_view(list@).contains(v@.subrange(lo as int, hi as int)),
{
    let ghost t = v@.subrange(lo as int, hi as int);
    let mut i: usize = 0;
    while i < list.len()
        invariant
            i <= list.len(),
            lo <= hi <= v.len(),
            t == v@.subrange(lo as int, hi as int),
            forall|k: int| 0 <= k < i ==> (#[trigger] list@[k])@ != t,
        decreases list.len() - i,
    {
        if range_is(v, lo, hi, list[i].as_slice()) {
            assert(codes_view(list@)[i as int] == t);
            return true;
        }
        i += 1;
    }
    assert forall|k: int| 0 <= k < codes_view(list@).len() implies codes_view(list@)[k] != t by {
        assert(codes_view(list@)[k] == list@[k]@);
    }
    false
}

/// Whether `v[lo..hi]` is a built-in or custom mark code.
pub fn is_mark_code_exec(
    builtin: &Vec<Vec<char>>,
    custom: &Vec<Vec<char>>,
    v: &Vec<char>,
    lo: usize,
    hi: usize,
) -> (b: bool)
    requires
        lo <= hi <= v.len(),
        codes_view(builtin@) == builtin_marks(),
    ensures
        b == is_mark_code(v@.subrange(lo as int, hi as int), codes_view(custom@)),
{
    contains_code(builtin, v, lo, hi) || contains_code(custom, v, lo, hi)
}

// ------------------------------------------------------------ custom marks

/// A custom mark definition from `.lit/marks.toml`.
#[derive(Debug, Clone, PartialEq, Eq)]
pub struct MarkDefinition {
    pub label: String,
    pub icon: Option<String>,
    /// CSS property and value pairs from the `[code.style]` table, sorted by
    /// property
    pub style: Vec<(String, String)>,
}

/// The TOML data that mark definitions are read from: strings, tables
/// (their entries in table order), and everything else.
pub enum TomlValue {
    Str(String),
    Table(Vec<(String, TomlValue)>),
    Other,
}

#[verifier::external_type_specification]
#[verifier::external_body]
pub struct ExTomlValue(toml::Value);

/// What the toml crate parses a document into, as a [`TomlValue`] (`None`
/// for invalid TOML).
pub uninterp spec fn toml_document(input: Seq<char>) -> Option<TomlValue>;

/// `a` sorts before `b`: character by character, a proper prefix first.
/// For strings this is the order of their UTF-8 bytes.
pub open spec fn key_less(a: Seq<char>, b: Seq<char>) -> bool
    decreases a.len(),
{
    if a.len() == 0 {
        b.len() > 0
    } else if b.len() == 0 {
        false
    } else if a[0] != b[0] {
        a[0] < b[0]
    } else {
        key_less(a.drop_first(), b.drop_first())
    }
}

/// Table entries in strictly increasing key order (so no key twice).
pub open spec fn keys_sorted(e: Seq<(String, TomlValue)>) -> bool {
    forall|i: int, j: int| 0 <= i < j < e.len() ==> key_less(#[trigger] e[i].0@, #[trigger] e[j].0@)
}

/// Every table among the values of `e` has its keys in increasing order.
pub open spec fn values_sorted(e: Seq<(String, TomlValue)>) -> bool {
    forall|i: int|
        0 <= i < e.len() ==> ((#[trigger] e[i]).1 matches TomlValue::Table(f) ==> keys_sorted(f@))
}

/// A table, the tables among its values, and the tables among theirs, each
/// with keys in increasing order (a document, its entries, their styles).
pub open spec fn tables_sorted(e: Seq<(String, TomlValue)>) -> bool {
    &&& keys_sorted(e)
    &&& forall|i: int|
        0 <= i < e.len() ==> ((#[trigger] e[i]).1 matches TomlValue::Table(f) ==> keys_sorted(f@)
            && values_sorted(f@))
}

/// Parses `input` as a TOML document with the toml crate
/// (`str::parse::<toml::Value>`), converting the result. The contract names
/// the result (which documents are valid TOML and what they hold is the
/// crate's to say) and states one fact of the crate's source: without its
/// `preserve_order` feature every table is a `BTreeMap` keyed by `String`,
/// so each table lists its keys once each, in increasing order (stated for
/// the three levels that mark definitions read).
#[verifier::external_body]
fn parse_toml(input: &str) -> (r: Option<TomlValue>)
    ensures
        r == toml_document(input@),
        r matches Some(TomlValue::Table(e)) ==> tables_sorted(e@),
{
    match input.parse::<toml::Value>() {
        Ok(v) => Some(toml_value(&v)),
        Err(_) => None,
    }
}

/// Converts a `toml::Value`, one variant for one: strings and tables are
/// kept (table entries in the table's order), the rest become `Other`.
#[verifier::external_body]
fn toml_value(v: &toml::Value) -> TomlValue {
    match v {
        toml::Value::String(s) => TomlValue::Str(s.clone()),
        toml::Value::Table(t) => TomlValue::Table(
            t.iter().map(|(k, x)| (k.clone(), toml_value(x))).collect(),
        ),
        _ => TomlValue::Other,
    }
}

/// The mathematical value of a [`MarkDefinition`].
pub struct MarkView {
    pub label: Seq<char>,
    pub icon: Option<Seq<char>>,
    pub style: Seq<(Seq<char>, Seq<char>)>,
}

pub open spec fn pairs_view(p: Seq<(String, String)>) -> Seq<(Seq<char>, Seq<char>)> {
    p.map_values(|x: (String, String)| (x.0@, x.1@))
}

impl View for MarkDefinition {
    type V = MarkView;

    open spec fn view(&self) -> MarkView {
        MarkView {
            label: self.label@,
            icon: match self.icon {
                Some(s) => Some(s@),
                None => None,
            },
            style: pairs_view(self.style@),
        }
    }
}

/// The value of the first field named `key`, when it is a string.
pub open spec fn field_str(fields: Seq<(String, TomlValue)>, key: Seq<char>, i: int) -> Option<
    Seq<char>,
>
    decreases fields.len() - i,
{
    if i < 0 || i >= fields.len() {
        None
    } else if fields[i].0@ == key {
        match fields[i].1 {
            TomlValue::Str(s) => Some(s@),
            _ => None,
        }
    } else {
        field_str(fields, key, i + 1)
    }
}

/// The entries of the first field named `key`, when it is a table.
pub open spec fn field_table(fields: Seq<(String, TomlValue)>, key: Seq<char>, i: int) -> Option<
    Seq<(String, TomlValue)>,
>
    decreases fields.len() - i,
{
    if i < 0 || i >= fields.len() {
        None
    } else if fields[i].0@ == key {
        match fields[i].1 {
            TomlValue::Table(t) => Some(t@),
            _ => None,
        }
    } else {
        field_table(fields, key, i + 1)
    }
}

/// The string-valued entries of a style table, in order.
pub open spec fn style_pairs(t: Seq<(String, TomlValue)>) -> Seq<(Seq<char>, Seq<char>)>
    decreases t.len(),
{
    if t.len() == 0 {
        Seq::empty()
    } else {
        let rest = style_pairs(t.drop_last());
        match t.last().1 {
            TomlValue::Str(s) => rest.push((t.last().0@, s@)),
            _ => rest,
        }
    }
}

pub open spec fn all_lower(s: Seq<char>) -> bool {
    forall|k: int| 0 <= k < s.len() ==> crate::text::is_ascii_lower(#[trigger] s[k])
}

/// The definition an entry gives, when its code is a non-empty run of ASCII
/// lowercase letters (the only codes the parser can match) and its value a
/// table: the label defaults to the code; non-string style values are left
/// out.
pub open spec fn definition(code: Seq<char>, v: TomlValue) -> Option<MarkView> {
    if code.len() == 0 || !all_lower(code) {
        None
    } else {
        match v {
            TomlValue::Table(f) => {
                let fields = f@;
                Some(
                    MarkView {
                        label: match field_str(fields, seq!['l', 'a', 'b', 'e', 'l'], 0) {
                            Some(l) => l,
                            None => code,
                        },
                        icon: field_str(fields, seq!['i', 'c', 'o', 'n'], 0),
                        style: match field_table(fields, seq!['s', 't', 'y', 'l', 'e'], 0) {
                            Some(t) => style_pairs(t),
                            None => Seq::empty(),
                        },
                    },
                )
            },
            _ => None,
        }
    }
}

/// The definitions of a document's top-level entries, in the order the
/// table holds them (sorted by code).
pub open spec fn definitions(entries: Seq<(String, TomlValue)>) -> Seq<(Seq<char>, MarkView)>
    decreases entries.len(),
{
    if entries.len() == 0 {
        Seq::empty()
    } else {
        let rest = definitions(entries.drop_last());
        match definition(entries.last().0@, entries.last().1) {
            Some(d) => rest.push((entries.last().0@, d)),
            None => rest,
        }
    }
}

/// Definitions read from a parsed document (`None` unless it is a table).
pub open spec fn marks_from(doc: Option<TomlValue>) -> Option<Seq<(Seq<char>, MarkView)>> {
    match doc {
        Some(TomlValue::Table(entries)) => Some(definitions(entries@)),
        _ => None,
    }
}

/// Definitions in strictly increasing code order (so no code twice).
/// Style pairs in strictly increasing property order (so no property twice).
pub open spec fn pairs_sorted(p: Seq<(Seq<char>, Seq<char>)>) -> bool {
    forall|a: int, b: int| 0 <= a < b < p.len() ==> key_less(#[trigger] p[a].0, #[trigger] p[b].0)
}

/// Every definition's style pairs are in increasing property order.
pub open spec fn styles_sorted(d: Seq<(String, MarkDefinition)>) -> bool {
    forall|k: int| 0 <= k < d.len() ==> pairs_sorted(pairs_view((#[trigger] d[k]).1.style@))
}

/// The keys of a style table's string entries come from the table, in its
/// order: any bound on all the table's keys bounds theirs, and with the
/// table's keys sorted, so are the pairs.
proof fn lemma_style_pairs_sorted(t: Seq<(String, TomlValue)>, x: Seq<char>)
    ensures
        (forall|i: int| 0 <= i < t.len() ==> key_less(#[trigger] t[i].0@, x)) ==> (forall|k: int|
            0 <= k < style_pairs(t).len() ==> key_less((#[trigger] style_pairs(t)[k]).0, x)),
        keys_sorted(t) ==> pairs_sorted(style_pairs(t)),
    decreases t.len(),
{
    if t.len() > 0 {
        let r = t.drop_last();
        let last = t[t.len() - 1].0@;
        lemma_style_pairs_sorted(r, x);
        lemma_style_pairs_sorted(r, last);
        let sp = style_pairs(t);
        let rp = style_pairs(r);
        if forall|i: int| 0 <= i < t.len() ==> key_less(#[trigger] t[i].0@, x) {
            assert forall|i: int| 0 <= i < r.len() implies key_less(#[trigger] r[i].0@, x) by {
                assert(r[i] == t[i]);
            }
            assert forall|k: int| 0 <= k < sp.len() implies key_less((#[trigger] sp[k]).0, x) by {
                if k < rp.len() {
                    assert(sp[k] == rp[k]);
                } else {
                    assert(sp[k].0 == last);
                }
            }
        }
        if keys_sorted(t) {
            assert forall|i: int| 0 <= i < r.len() implies key_less(#[trigger] r[i].0@, last) by {
                assert(r[i] == t[i]);
            }
            assert(keys_sorted(r)) by {
                assert forall|i: int, j: int| 0 <= i < j < r.len() implies key_less(
                    #[trigger] r[i].0@,
                    #[trigger] r[j].0@,
                ) by {
                    assert(r[i] == t[i] && r[j] == t[j]);
                }
            }
            assert forall|a: int, b: int| 0 <= a < b < sp.len() implies key_less(
                #[trigger] sp[a].0,
                #[trigger] sp[b].0,
            ) by {
                assert(sp[a] == rp[a]);
                if b < rp.len() {
                    assert(sp[b] == rp[b]);
                } else {
                    assert(sp[b].0 == last);
                }
            }
        }
    }
}

/// The table that a field lookup finds is one of the fields' tables, so its
/// keys are sorted when theirs all are.
proof fn lemma_field_table_is_field(fields: Seq<(String, TomlValue)>, key: Seq<char>, i: int)
    requires
        0 <= i,
        values_sorted(fields),
    ensures
        field_table(fields, key, i) matches Some(t) ==> keys_sorted(t),
    decreases fields.len() - i,
{
    if 0 <= i < fields.len() && fields[i].0@ != key {
        lemma_field_table_is_field(fields, key, i + 1);
    } else if 0 <= i < fields.len() {
        assert(fields[i] == fields[i]);
    }
}

/// With the document's tables sorted, every definition's style pairs are.
proof fn lemma_definitions_styles(entries: Seq<(String, TomlValue)>)
    requires
        forall|i: int|
            0 <= i < entries.len() ==> ((#[trigger] entries[i]).1 matches TomlValue::Table(f)
                ==> values_sorted(f@)),
    ensures
        forall|k: int|
            0 <= k < definitions(entries).len() ==> pairs_sorted(
                (#[trigger] definitions(entries)[k]).1.style,
            ),
    decreases entries.len(),
{
    if entries.len() > 0 {
        let r = entries.drop_last();
        assert forall|i: int| 0 <= i < r.len() implies ((#[trigger] r[i]).1 matches TomlValue::Table(
            f,
        ) ==> values_sorted(f@)) by {
            assert(r[i] == entries[i]);
        }
        lemma_definitions_styles(r);
        let last = entries[entries.len() - 1];
        match last.1 {
            TomlValue::Table(f) => {
                lemma_field_table_is_field(f@, seq!['s', 't', 'y', 'l', 'e'], 0);
                match field_table(f@, seq!['s', 't', 'y', 'l', 'e'], 0) {
                    Some(t) => lemma_style_pairs_sorted(t, Seq::empty()),
                    None => {},
                }
            },
            _ => {},
        }
        let d = definitions(entries);
        let dr = definitions(r);
        assert forall|k: int| 0 <= k < d.len() implies pairs_sorted(#[trigger] d[k].1.style) by {
            if k < dr.len() {
                assert(d[k] == dr[k]);
            }
        }
    }
}

pub open spec fn codes_sorted(d: Seq<(String, MarkDefinition)>) -> bool {
    forall|a: int, b: int| 0 <= a < b < d.len() ==> key_less(#[trigger] d[a].0@, #[trigger] d[b].0@)
}

pub open spec fn defs_view(d: Seq<(String, MarkDefinition)>) -> Seq<(Seq<char>, MarkView)> {
    d.map_values(|x: (String, MarkDefinition)| (x.0@, x.1@))
}

fn literal(lit: &[char]) -> (v: Vec<char>)
    ensures
        v@ == lit@,
{
    let mut v: Vec<char> = Vec::new();
    let mut i: usize = 0;
    while i < lit.len()
        invariant
            i <= lit.len(),
            v@ == lit@.take(i as int),
        decreases lit.len() - i,
    {
        v.push(lit[i]);
        i += 1;
        assert(v@ =~= lit@.take(i as int));
    }
    assert(lit@.take(i as int) =~= lit@);
    v
}

fn str_eq(a: &String, b: &Vec<char>) -> (r: bool)
    ensures
        r == (a@ == b@),
{
    let v = chars_of(a.as_str());
    assert(v@.subrange(0, v@.len() as int) =~= v@);
    range_is(&v, 0, v.len(), b.as_slice())
}

fn field_str_exec(fields: &Vec<(String, TomlValue)>, key: &Vec<char>) -> (r: Option<String>)
    ensures
        match r {
            Some(s) => field_str(fields@, key@, 0) == Some(s@),
            None => field_str(fields@, key@, 0) is None,
        },
{
    let mut i: usize = 0;
    while i < fields.len()
        invariant
            i <= fields.len(),
            field_str(fields@, key@, i as int) == field_str(fields@, key@, 0),
        decreases fields.len() - i,
    {
        if str_eq(&fields[i].0, key) {
            return match &fields[i].1 {
                TomlValue::Str(s) => Some(s.clone()),
                _ => None,
            };
        }
        i += 1;
    }
    None
}

fn style_exec(fields: &Vec<(String, TomlValue)>, key: &Vec<char>) -> (r: Vec<(String, String)>)
    ensures
        pairs_view(r@) == match field_table(fields@, key@, 0) {
            Some(t) => style_pairs(t),
            None => Seq::empty(),
        },
{
    let mut i: usize = 0;
    while i < fields.len()
        invariant
            i <= fields.len(),
            field_table(fields@, key@, i as int) == field_table(fields@, key@, 0),
        decreases fields.len() - i,
    {
        if str_eq(&fields[i].0, key) {
            match &fields[i].1 {
                TomlValue::Table(t) => {
                    let mut out: Vec<(String, String)> = Vec::new();
                    let mut j: usize = 0;
                    assert(pairs_view(out@) =~= style_pairs(t@.take(0)));
                    while j < t.len()
                        invariant
                            j <= t.len(),
                            pairs_view(out@) == style_pairs(t@.take(j as int)),
                        decreases t.len() - j,
                    {
                        let ghost before = out@;
                        assert(t@.take(j + 1).drop_last() =~= t@.take(j as int));
                        match &t[j].1 {
                            TomlValue::Str(s) => {
                                out.push((t[j].0.clone(), s.clone()));
                                assert(pairs_view(out@) =~= pairs_view(before).push(
                                    (t@[j as int].0@, s@),
                                ));
                            },
                            _ => {},
                        }
                        j += 1;
                    }
                    assert(t@.take(j as int) =~= t@);
                    return out;
                },
                _ => {
                    return Vec::new();
                },
            }
        }
        i += 1;
    }
    Vec::new()
}

fn all_lower_exec(s: &String) -> (r: bool)
    ensures
        r == (s@.len() > 0 && all_lower(s@)),
{
    let v = chars_of(s.as_str());
    if v.len() == 0 {
        return false;
    }
    let mut k: usize = 0;
    while k < v.len()
        invariant
            k <= v.len(),
            v@ == s@,
            forall|m: int| 0 <= m < k ==> crate::text::is_ascii_lower(#[trigger] v@[m]),
        decreases v.len() - k,
    {
        if !('a' <= v[k] && v[k] <= 'z') {
            return false;
        }
        k += 1;
    }
    true
}

/// Mark definitions read from a parsed TOML document, each with its code,
/// in the order the table holds them (sorted by code). `None` unless the
/// document is a table. Lenient per entry: a missing label defaults to the
/// code, non-string style values are skipped, and codes the annotation
/// parser could never match (anything but ASCII lowercase letters) are
/// dropped.
pub fn marks_from_document(doc: Option<TomlValue>) -> (r: Option<Vec<(String, MarkDefinition)>>)
    ensures
        match r {
            Some(d) => marks_from(doc) == Some(defs_view(d@)),
            None => marks_from(doc) is None,
        },
        (doc matches Some(TomlValue::Table(e)) && tables_sorted(e@)) ==> (r matches Some(d)
            ==> codes_sorted(d@) && styles_sorted(d@)),
{
    let entries = match doc {
        Some(TomlValue::Table(e)) => e,
        _ => return None,
    };
    let k_label = literal(&['l', 'a', 'b', 'e', 'l']);
    let k_icon = literal(&['i', 'c', 'o', 'n']);
    let k_style = literal(&['s', 't', 'y', 'l', 'e']);
    let ghost sorted_in = tables_sorted(entries@);
    proof {
        if sorted_in {
            lemma_definitions_styles(entries@);
        }
    }
    let mut out: Vec<(String, MarkDefinition)> = Vec::new();
    let ghost mut src: Seq<int> = Seq::empty();
    let mut i: usize = 0;
    assert(defs_view(out@) =~= definitions(entries@.take(0)));
    while i < entries.len()
        invariant
            i <= entries.len(),
            k_label@ == seq!['l', 'a', 'b', 'e', 'l'],
            k_icon@ == seq!['i', 'c', 'o', 'n'],
            k_style@ == seq!['s', 't', 'y', 'l', 'e'],
            defs_view(out@) == definitions(entries@.take(i as int)),
            sorted_in == tables_sorted(entries@),
            src.len() == out.len(),
            forall|k: int|
                0 <= k < src.len() ==> 0 <= #[trigger] src[k] < i && out@[k].0@
                    == entries@[src[k]].0@,
            sorted_in ==> codes_sorted(out@),
        decreases entries.len() - i,
    {
        let ghost before = out@;
        let ghost src_before = src;
        assert(entries@.take(i + 1).drop_last() =~= entries@.take(i as int));
        let code = &entries[i].0;
        if all_lower_exec(code) {
            match &entries[i].1 {
                TomlValue::Table(fields) => {
                    let label = match field_str_exec(fields, &k_label) {
                        Some(l) => l,
                        None => code.clone(),
                    };
                    let icon = field_str_exec(fields, &k_icon);
                    let style = style_exec(fields, &k_style);
                    let def = MarkDefinition { label, icon, style };
                    assert(definition(code@, entries@[i as int].1) == Some(def@));
                    out.push((code.clone(), def));
                    assert(defs_view(out@) =~= defs_view(before).push((code@, def@)));
                    proof {
                        src = src.push(i as int);
                        assert forall|k: int| 0 <= k < src.len() implies 0 <= #[trigger] src[k]
                            < i + 1 && out@[k].0@ == entries@[src[k]].0@ by {
                            if k < src_before.len() {
                                assert(src[k] == src_before[k]);
                                assert(out@[k] == before[k]);
                            }
                        }
                        if sorted_in {
                            assert forall|a: int, b: int|
                                0 <= a < b < out@.len() implies key_less(
                                #[trigger] out@[a].0@,
                                #[trigger] out@[b].0@,
                            ) by {
                                assert(out@[a] == before[a]);
                                if b < before.len() {
                                    assert(out@[b] == before[b]);
                                } else {
                                    assert(src[a] < i);
                                    assert(key_less(entries@[src[a]].0@, entries@[i as int].0@));
                                }
                            }
                        }
                    }
                },
                _ => {},
            }
        }
        i += 1;
    }
    assert(entries@.take(i as int) =~= entries@);
    proof {
        if sorted_in {
            assert forall|k: int| 0 <= k < out@.len() implies pairs_sorted(
                pairs_view((#[trigger] out@[k]).1.style@),
            ) by {
                assert(defs_view(out@)[k] == (out@[k].0@, out@[k].1@));
                assert(definitions(entries@)[k].1.style == pairs_view(out@[k].1.style@));
            }
        }
    }
    Some(out)
}

/// Parse a `.lit/marks.toml` document into mark definitions, each with its
/// code, sorted by code.
///
/// Returns `None` for invalid TOML; see [`marks_from_document`] for what a
/// valid document gives.
pub fn parse_marks_toml(input: &str) -> (r: Option<Vec<(String, MarkDefinition)>>)
    ensures
        match r {
            Some(d) => marks_from(toml_document(input@)) == Some(defs_view(d@)),
            None => marks_from(toml_document(input@)) is None,
        },
        r matches Some(d) ==> codes_sorted(d@) && styles_sorted(d@),
{
    marks_from_document(parse_toml(input))
}

} // verus!
