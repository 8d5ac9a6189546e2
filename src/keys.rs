//! The key builder: one resource key from its raw map of tag to value, and
//! the document from all keys.
use vstd::prelude::*;
use indexmap::IndexMap;
use crate::model::{File, Key, LocalizedString, PluralValue, Section, StringValue, ValueModel};
use crate::normalize::{normalized, parse_localized_string_value};
use crate::ordered::{raw_entries, raw_entry, raw_len, slot_entries, slot_insert, slot_of, slots_new};
use crate::text::{chars_of, string_of_range};

verus! {

/// A key is plural when any of its tags holds the separator `:`.
pub open spec fn is_plural_key(raw: Seq<(Seq<char>, Option<Seq<char>>)>) -> bool {
    exists|i: int| 0 <= i < raw.len() && #[trigger] raw[i].0.contains(':')
}

/// The localizations of a simple key: one per present value, in order.
pub open spec fn single_localizations(raw: Seq<(Seq<char>, Option<Seq<char>>)>) -> Seq<
    (Seq<char>, ValueModel),
>
    decreases raw.len(),
{
    if raw.len() == 0 {
        Seq::empty()
    } else {
        let rest = single_localizations(raw.drop_last());
        match raw.last().1 {
            Some(v) => rest.push((raw.last().0, ValueModel::Single(normalized(v)))),
            None => rest,
        }
    }
}

/// The position of the first `:` of `t` at or after `i`, or its length.
pub open spec fn first_colon(t: Seq<char>, i: int) -> int
    decreases t.len() - i,
{
    if i < 0 || i >= t.len() {
        t.len() as int
    } else if t[i] == ':' {
        i
    } else {
        first_colon(t, i + 1)
    }
}

pub open spec fn has_locale(g: Seq<(Seq<char>, Seq<(Seq<char>, Seq<char>)>)>, loc: Seq<char>) -> bool {
    exists|k: int| 0 <= k < g.len() && #[trigger] g[k].0 == loc
}

/// Adds the variant `item` to the group of `loc`, made last where there is none.
pub open spec fn add_variant(
    g: Seq<(Seq<char>, Seq<(Seq<char>, Seq<char>)>)>,
    loc: Seq<char>,
    item: (Seq<char>, Seq<char>),
) -> Seq<(Seq<char>, Seq<(Seq<char>, Seq<char>)>)> {
    if has_locale(g, loc) {
        let k = choose|k: int| 0 <= k < g.len() && #[trigger] g[k].0 == loc;
        g.update(k, (loc, g[k].1.push(item)))
    } else {
        g.push((loc, seq![item]))
    }
}

/// The plural variants grouped by locale, locales in first-seen order and
/// the variants of each in the order of their tags; an entry without a value
/// or whose tag has no `:` is left out.
pub open spec fn plural_groups(raw: Seq<(Seq<char>, Option<Seq<char>>)>) -> Seq<
    (Seq<char>, Seq<(Seq<char>, Seq<char>)>),
>
    decreases raw.len(),
{
    if raw.len() == 0 {
        Seq::empty()
    } else {
        let g = plural_groups(raw.drop_last());
        let tag = raw.last().0;
        let j = first_colon(tag, 0);
        match raw.last().1 {
            Some(v) => if j < tag.len() {
                add_variant(g, tag.subrange(0, j), (tag.subrange(j + 1, tag.len() as int), normalized(v)))
            } else {
                g
            },
            None => g,
        }
    }
}

pub open spec fn plural_localizations(raw: Seq<(Seq<char>, Option<Seq<char>>)>) -> Seq<
    (Seq<char>, ValueModel),
> {
    plural_groups(raw).map_values(
        |g: (Seq<char>, Seq<(Seq<char>, Seq<char>)>)| (g.0, ValueModel::Plural(g.1)),
    )
}

/// The localizations of a key built from the raw entries `raw`.
pub open spec fn key_localizations(raw: Seq<(Seq<char>, Option<Seq<char>>)>) -> Seq<
    (Seq<char>, ValueModel),
> {
    if is_plural_key(raw) {
        plural_localizations(raw)
    } else {
        single_localizations(raw)
    }
}

pub open spec fn distinct_locales(g: Seq<(Seq<char>, Seq<(Seq<char>, Seq<char>)>)>) -> bool {
    forall|a: int, b: int| 0 <= a < b < g.len() ==> #[trigger] g[a].0 != #[trigger] g[b].0
}

/// Within a plural key each locale has one group.
pub proof fn lemma_plural_locales_distinct(raw: Seq<(Seq<char>, Option<Seq<char>>)>)
    ensures
        distinct_locales(plural_groups(raw)),
    decreases raw.len(),
{
    if raw.len() > 0 {
        lemma_plural_locales_distinct(raw.drop_last());
    }
}

fn find_colon(t: &Vec<char>) -> (r: usize)
    ensures
        r as int == first_colon(t@, 0),
        r <= t@.len(),
        r < t@.len() <==> t@.contains(':'),
{
    let mut j: usize = 0;
    while j < t.len() && t[j] != ':'
        invariant
            j <= t@.len(),
            first_colon(t@, 0) == first_colon(t@, j as int),
            forall|k: int| 0 <= k < j ==> t@[k] != ':',
        decreases t@.len() - j,
    {
        j = j + 1;
    }
    if j < t.len() {
        assert(t@[j as int] == ':');
    }
    j
}

fn raw_is_plural(raw: &IndexMap<String, Option<String>>) -> (r: bool)
    ensures
        r == is_plural_key(raw_entries(*raw)),
{
    let n = raw_len(raw);
    let mut i: usize = 0;
    while i < n
        invariant
            n == raw_entries(*raw).len(),
            i <= n,
            forall|k: int| 0 <= k < i ==> !(#[trigger] raw_entries(*raw)[k].0.contains(':')),
        decreases n - i,
    {
        let (tag, _) = raw_entry(raw, i).unwrap();
        let t = chars_of(tag.as_str());
        if find_colon(&t) < t.len() {
            assert(raw_entries(*raw)[i as int].0.contains(':'));
            return true;
        }
        i = i + 1;
    }
    false
}

fn key_from_locale_single_value_map(name: String, raw_localizations: IndexMap<String, Option<String>>) -> (r: Result<Key, String>)
    ensures
        r matches Ok(k) && k@ == (name@, single_localizations(raw_entries(raw_localizations))),
{
    let ghost raw = raw_entries(raw_localizations);
    let n = raw_len(&raw_localizations);
    let mut localizations: Vec<LocalizedString> = Vec::new();
    let mut i: usize = 0;
    while i < n
        invariant
            n == raw.len(),
            raw == raw_entries(raw_localizations),
            i <= n,
            localizations@.map_values(|l: LocalizedString| l@) == single_localizations(
                raw.subrange(0, i as int),
            ),
        decreases n - i,
    {
        let (tag, value) = raw_entry(&raw_localizations, i).unwrap();
        assert(raw.subrange(0, i + 1).drop_last() =~= raw.subrange(0, i as int));
        match value {
            Some(v) => {
                let text = match parse_localized_string_value(v.clone()) {
                    Ok(t) => t,
                    Err(e) => return Err(e),
                };
                localizations.push(
                    LocalizedString { language_code: tag.clone(), value: StringValue::Single(text) },
                );
            },
            None => {},
        }
        i = i + 1;
        assert(localizations@.map_values(|l: LocalizedString| l@) =~= single_localizations(
            raw.subrange(0, i as int),
        ));
    }
    assert(raw.subrange(0, n as int) =~= raw);
    Ok(Key { name, localizations })
}

fn key_from_locale_plural_value_map(name: String, raw_localizations: IndexMap<String, Option<String>>) -> (r: Result<Key, String>)
    ensures
        r matches Ok(k) && k@ == (name@, plural_localizations(raw_entries(raw_localizations))),
{
    let ghost raw = raw_entries(raw_localizations);
    let n = raw_len(&raw_localizations);
    let mut slots = slots_new();
    let mut localizations: Vec<LocalizedString> = Vec::new();
    let mut i: usize = 0;
    while i < n
        invariant
            n == raw.len(),
            raw == raw_entries(raw_localizations),
            i <= n,
            localizations@.map_values(|l: LocalizedString| l@) == plural_localizations(
                raw.subrange(0, i as int),
            ),
            slot_entries(slots).len() == localizations@.len(),
            forall|j: int|
                0 <= j < localizations@.len() ==> (#[trigger] slot_entries(slots)[j]).0
                    == localizations@[j].language_code@ && slot_entries(slots)[j].1 as int == j,
        decreases n - i,
    {
        let ghost g = plural_groups(raw.subrange(0, i as int));
        let ghost locs0 = localizations@;
        proof {
            lemma_plural_locales_distinct(raw.subrange(0, i as int));
            assert(raw.subrange(0, i + 1).drop_last() =~= raw.subrange(0, i as int));
            assert(locs0.map_values(|l: LocalizedString| l@).len() == locs0.len());
            assert(plural_localizations(raw.subrange(0, i as int)).len() == g.len());
            assert forall|j: int| 0 <= j < locs0.len() implies #[trigger] locs0[j]@ == (
                g[j].0,
                ValueModel::Plural(g[j].1),
            ) by {
                assert(locs0.map_values(|l: LocalizedString| l@)[j] == locs0[j]@);
                assert(plural_localizations(raw.subrange(0, i as int))[j] == (
                    g[j].0,
                    ValueModel::Plural(g[j].1),
                ));
            }
        }
        let (tag, value) = raw_entry(&raw_localizations, i).unwrap();
        if let Some(v) = value {
            let t = chars_of(tag.as_str());
            let j = find_colon(&t);
            if j < t.len() {
                let locale = string_of_range(&t, 0, j);
                let quantity = string_of_range(&t, j + 1, t.len());
                let text = match parse_localized_string_value(v.clone()) {
                    Ok(x) => x,
                    Err(e) => return Err(e),
                };
                let ghost item = (quantity@, text@);
                match slot_of(&slots, &locale) {
                    Some(k) => {
                        let ghost kk = choose|kk: int|
                            0 <= kk < slot_entries(slots).len() && #[trigger] slot_entries(slots)[kk]
                                == (locale@, k);
                        assert(slot_entries(slots)[kk].1 as int == kk);
                        assert(kk == k);
                        assert(locs0[kk]@ == (g[kk].0, ValueModel::Plural(g[kk].1)));
                        assert(g[kk].0 == locale@);
                        assert(has_locale(g, locale@));
                        let LocalizedString { language_code, value } = localizations.remove(k);
                        let mut quantities = match value {
                            StringValue::Plural { quantities } => quantities,
                            StringValue::Single(_) => Vec::new(),
                        };
                        let ghost old_q = quantities@;
                        quantities.push(PluralValue { quantity, text });
                        assert(quantities@.map_values(|q: PluralValue| q@) =~= old_q.map_values(
                            |q: PluralValue| q@,
                        ).push(item));
                        localizations.insert(
                            k,
                            LocalizedString { language_code, value: StringValue::Plural { quantities } },
                        );
                        proof {
                            let c = choose|c: int| 0 <= c < g.len() && #[trigger] g[c].0 == locale@;
                            assert(c == kk);
                            let newg = g.update(kk, (locale@, g[kk].1.push(item)));
                            assert(raw.subrange(0, i + 1).last() == raw[i as int]);
                            assert(plural_groups(raw.subrange(0, i + 1)) == newg);
                            assert(localizations@.len() == locs0.len());
                            assert forall|x: int| 0 <= x < localizations@.len() implies #[trigger] localizations@[x]@ == (
                                newg[x].0,
                                ValueModel::Plural(newg[x].1),
                            ) by {
                                if x != kk {
                                    assert(localizations@[x] == locs0[x]);
                                    assert(locs0[x]@ == (g[x].0, ValueModel::Plural(g[x].1)));
                                }
                            }
                            assert(localizations@.map_values(|l: LocalizedString| l@) =~= plural_localizations(
                                raw.subrange(0, i + 1),
                            ));
                        }
                    },
                    None => {
                        proof {
                            assert forall|c: int| 0 <= c < g.len() implies #[trigger] g[c].0 != locale@ by {
                                assert(locs0[c]@ == (g[c].0, ValueModel::Plural(g[c].1)));
                                assert(slot_entries(slots)[c].0 != locale@);
                            }
                        }
                        let pos = localizations.len();
                        slot_insert(&mut slots, locale.clone(), pos);
                        let mut quantities: Vec<PluralValue> = Vec::new();
                        quantities.push(PluralValue { quantity, text });
                        assert(quantities@.map_values(|q: PluralValue| q@) =~= seq![item]);
                        localizations.push(
                            LocalizedString { language_code: locale, value: StringValue::Plural { quantities } },
                        );
                        proof {
                            let newg = g.push((locale@, seq![item]));
                            assert(raw.subrange(0, i + 1).last() == raw[i as int]);
                            assert(!has_locale(g, locale@));
                            assert(plural_groups(raw.subrange(0, i + 1)) == newg);
                            assert forall|x: int| 0 <= x < localizations@.len() implies #[trigger] localizations@[x]@ == (
                                newg[x].0,
                                ValueModel::Plural(newg[x].1),
                            ) by {
                                if x < locs0.len() {
                                    assert(localizations@[x] == locs0[x]);
                                    assert(locs0[x]@ == (g[x].0, ValueModel::Plural(g[x].1)));
                                }
                            }
                        }
                        assert(localizations@.map_values(|l: LocalizedString| l@) =~= plural_localizations(
                            raw.subrange(0, i + 1),
                        ));
                    },
                }
            } else {
                assert(localizations@.map_values(|l: LocalizedString| l@) =~= plural_localizations(
                    raw.subrange(0, i + 1),
                ));
            }
        } else {
            assert(localizations@.map_values(|l: LocalizedString| l@) =~= plural_localizations(
                raw.subrange(0, i + 1),
            ));
        }
        i = i + 1;
    }
    assert(raw.subrange(0, n as int) =~= raw);
    Ok(Key { name, localizations })
}

/// Builds one key from its raw map of tag to value, plural where any tag
/// holds `:`. Entries without a value are left out, and so are the entries
/// of a plural key whose tag has no `:`; every kept value is normalized.
pub fn key_from_locale_value_map(name: String, raw_localizations: IndexMap<String, Option<String>>) -> (r: Result<Key, String>)
    ensures
        r matches Ok(k) && k@ == (name@, key_localizations(raw_entries(raw_localizations))),
{
    if raw_is_plural(&raw_localizations) {
        key_from_locale_plural_value_map(name, raw_localizations)
    } else {
        key_from_locale_single_value_map(name, raw_localizations)
    }
}

/// The keys of a document built from `map`: each name with its localizations.
pub open spec fn document_keys(map: Seq<(String, IndexMap<String, Option<String>>)>) -> Seq<
    (Seq<char>, Seq<(Seq<char>, ValueModel)>),
> {
    map.map_values(
        |e: (String, IndexMap<String, Option<String>>)| (e.0@, key_localizations(raw_entries(e.1))),
    )
}

/// Builds the document from the resource keys in the order read: one section
/// that holds one key per entry of `map`.
pub fn file_from_resource_map(map: Vec<(String, IndexMap<String, Option<String>>)>) -> (r: Result<File, String>)
    ensures
        r matches Ok(f) && f.sections@.len() == 1 && f.sections@[0]@ == document_keys(map@),
{
    let ghost all = map@;
    let mut map = map;
    let mut keys: Vec<Key> = Vec::new();
    while map.len() > 0
        invariant
            keys@.map_values(|k: Key| k@) + document_keys(map@) == document_keys(all),
        decreases map@.len(),
    {
        let ghost before = map@;
        let (name, raw) = map.remove(0);
        let key = match key_from_locale_value_map(name, raw) {
            Ok(k) => k,
            Err(e) => return Err(e),
        };
        let ghost old_keys = keys@;
        keys.push(key);
        proof {
            assert(document_keys(before) =~= seq![document_keys(before)[0]] + document_keys(map@));
            assert(keys@.map_values(|k: Key| k@) =~= old_keys.map_values(|k: Key| k@).push(
                document_keys(before)[0],
            ));
            assert(keys@.map_values(|k: Key| k@) + document_keys(map@) =~= document_keys(all));
        }
    }
    assert(document_keys(map@) =~= Seq::empty());
    assert(keys@.map_values(|k: Key| k@) =~= document_keys(all));
    Ok(File { sections: vec![Section { keys }] })
}

/// An entry without a value contributes nothing to a simple key: dropping
/// it, wherever it stands, leaves the localizations as they are.
pub proof fn lemma_single_absent_dropped(raw: Seq<(Seq<char>, Option<Seq<char>>)>, i: int)
    requires
        0 <= i < raw.len(),
        raw[i].1 is None,
    ensures
        single_localizations(raw.remove(i)) == single_localizations(raw),
    decreases raw.len(),
{
    if i == raw.len() - 1 {
        assert(raw.remove(i) =~= raw.drop_last());
    } else {
        lemma_single_absent_dropped(raw.drop_last(), i);
        assert(raw.remove(i).drop_last() =~= raw.drop_last().remove(i));
        assert(raw.remove(i).last() == raw.last());
    }
}

/// An entry without a value contributes nothing to a plural key: dropping
/// it, wherever it stands, leaves the groups as they are.
pub proof fn lemma_plural_absent_dropped(raw: Seq<(Seq<char>, Option<Seq<char>>)>, i: int)
    requires
        0 <= i < raw.len(),
        raw[i].1 is None,
    ensures
        plural_groups(raw.remove(i)) == plural_groups(raw),
    decreases raw.len(),
{
    if i == raw.len() - 1 {
        assert(raw.remove(i) =~= raw.drop_last());
    } else {
        lemma_plural_absent_dropped(raw.drop_last(), i);
        assert(raw.remove(i).drop_last() =~= raw.drop_last().remove(i));
        assert(raw.remove(i).last() == raw.last());
    }
}

/// Grouping keeps first-seen order: entries read later never move a locale
/// or a variant already grouped. Each earlier locale keeps its place, and
/// its earlier variants stay, in order, at the start of its group.
pub proof fn lemma_plural_order_kept(
    raw: Seq<(Seq<char>, Option<Seq<char>>)>,
    more: Seq<(Seq<char>, Option<Seq<char>>)>,
)
    ensures
        plural_groups(raw).len() <= plural_groups(raw + more).len(),
        forall|k: int|
            0 <= k < plural_groups(raw).len() ==> #[trigger] plural_groups(raw + more)[k].0
                == plural_groups(raw)[k].0 && plural_groups(raw)[k].1.is_prefix_of(
                plural_groups(raw + more)[k].1,
            ),
    decreases more.len(),
{
    let g = plural_groups(raw);
    if more.len() == 0 {
        assert(raw + more =~= raw);
        assert forall|k: int| 0 <= k < g.len() implies #[trigger] plural_groups(raw + more)[k].0
            == g[k].0 && g[k].1.is_prefix_of(plural_groups(raw + more)[k].1) by {
            assert(g[k].1.is_prefix_of(g[k].1));
        }
    } else {
        let m0 = more.drop_last();
        lemma_plural_order_kept(raw, m0);
        assert((raw + more).drop_last() =~= raw + m0);
        let h = plural_groups(raw + m0);
        let h2 = plural_groups(raw + more);
        assert forall|k: int| 0 <= k < g.len() implies #[trigger] h2[k].0 == g[k].0
            && g[k].1.is_prefix_of(h2[k].1) by {
            assert(plural_groups(raw + m0)[k].0 == g[k].0);
            assert(g[k].1.is_prefix_of(h[k].1));
            assert(h[k].1.is_prefix_of(h2[k].1)) by {
                if h2[k].1 != h[k].1 {
                    assert(h2[k].1 == h[k].1.push(h2[k].1.last()));
                }
            }
        }
    }
}

} // verus!
