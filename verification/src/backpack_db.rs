//! The item database: items as the game's data dump lists them, their display
//! names, the wiki links inside their descriptions, and the infobox fields of
//! each item page.
use vstd::prelude::*;
use crate::text::{
    append_chars, ascii_char, ascii_lower_code, ascii_text, ascii_upper_code, char_lower,
    char_upper, chars_of, contains, contains_chars, replace_all,
    replace_chars, same_chars, utf8_len, utf8_len_of, decimal, decimal_of, join, join_chars,
    lower_of, lowercase, starts_with, str_lower, string_of, sub_chars, trim, trim_chars, upper_of,
    views_of,
};

verus! {

/// The whole data dump: its version and its items.
#[derive(Debug, Clone)]
pub struct Db {
    pub version: String,
    pub items: Vec<Item>,
}

/// What using an item costs; an absent field costs nothing.
#[derive(Debug, Clone, Copy, PartialEq, Eq)]
pub struct UseCost {
    pub energy: Option<i32>,
    pub mana: Option<i32>,
    pub gold: Option<i32>,
}

/// An item as the data dump writes it: `name` is the item's identifier.
#[derive(Debug, Clone)]
pub struct ItemRaw {
    pub name: String,
    pub types: Vec<String>,
    pub rarity: String,
    pub descriptors: Vec<String>,
    pub cost: Option<UseCost>,
}

/// An item of the database: `id` is the data dump's identifier and `name`
/// the display name that titles its wiki page.
#[derive(Debug, Clone)]
pub struct Item {
    pub id: String,
    pub name: String,
    pub types: Vec<String>,
    pub rarity: String,
    pub descriptors: Vec<String>,
    pub cost: Option<UseCost>,
}

// ----------------------------------------------------------------------------
// Display names
// ----------------------------------------------------------------------------
/// Position `k` of `s` begins a word: it is the first position or follows a space.
pub open spec fn word_start(s: Seq<char>, k: int) -> bool {
    k == 0 || s[k - 1] == ' '
}

/// From position `k` on, `s` reads "of " when lowercased (`str::to_lowercase`).
pub open spec fn of_word_at(s: Seq<char>, k: int) -> bool {
    starts_with(str_lower(s.skip(k)), seq!['o', 'f', ' '])
}

/// The characters that position `k` of `s` becomes: uppercased at the start
/// of a word other than "of", lowercased everywhere else.
pub open spec fn cased_at(s: Seq<char>, k: int) -> Seq<char> {
    if word_start(s, k) && !of_word_at(s, k) {
        upper_of(s[k])
    } else {
        lower_of(s[k])
    }
}

/// The first `n` positions of `s`, each cased by `cased_at`.
pub open spec fn capitalized_prefix(s: Seq<char>, n: nat) -> Seq<char>
    decreases n,
{
    if n == 0 {
        seq![]
    } else {
        capitalized_prefix(s, (n - 1) as nat) + cased_at(s, n - 1)
    }
}

/// The display name of an identifier: every word capitalized, except "of".
pub open spec fn capitalized(s: Seq<char>) -> Seq<char> {
    capitalized_prefix(s, s.len())
}

/// A cost whose fields are all absent stands for no cost at all.
pub open spec fn kept_cost(cost: Option<UseCost>) -> Option<UseCost> {
    match cost {
        Some(c) => if c.energy is None && c.mana is None && c.gold is None {
            None
        } else {
            Some(c)
        },
        None => None,
    }
}

/// At least one field of the cost is present.
pub open spec fn cost_present(c: UseCost) -> bool {
    c.energy is Some || c.mana is Some || c.gold is Some
}

/// Whether the lowercased characters `lc` begin with "of ".
fn begins_with_of(lc: &Vec<char>) -> (b: bool)
    ensures
        b == starts_with(lc@, seq!['o', 'f', ' ']),
{
    let ghost p = seq!['o', 'f', ' '];
    if lc.len() < 3 {
        return false;
    }
    if lc[0] == 'o' && lc[1] == 'f' && lc[2] == ' ' {
        assert(lc@.subrange(0, 3) =~= p);
        true
    } else {
        assert(lc@.subrange(0, 3)[0] == lc@[0] && lc@.subrange(0, 3)[1] == lc@[1]
            && lc@.subrange(0, 3)[2] == lc@[2]);
        assert(p[0] == 'o' && p[1] == 'f' && p[2] == ' ');
        false
    }
}

/// The display name of an item identifier: "POTION OF HEALING" becomes
/// "Potion of Healing". A character begins a word at the start and after a
/// space; such a character is uppercased unless the text from it on reads
/// "of " in lowercase, and every other character is lowercased.
pub fn capitalize(s: &str) -> (r: String)
    ensures
        r@ == capitalized(s@),
        ascii_text(s@) ==> ascii_display_name(s@, r@),
{
    let cs = chars_of(s);
    let n = cs.len();
    let mut out: Vec<char> = Vec::new();
    let mut start = true;
    for i in 0..n
        invariant
            n == cs@.len(),
            cs@ == s@,
            out@ == capitalized_prefix(s@, i as nat),
            start == word_start(s@, i as int),
            ascii_text(s@) ==> out@.len() == i && forall|k: int|
                0 <= k < i ==> (#[trigger] out@[k]) as int == ascii_cased_code(s@, k),
    {
        let c = cs[i];
        let up = if start {
            let rest = sub_chars(&cs, i, n);
            assert(rest@ =~= s@.skip(i as int));
            let rest_text = string_of(&rest);
            let low = lowercase(rest_text.as_str());
            let low_chars = chars_of(low.as_str());
            let of_word = begins_with_of(&low_chars);
            proof {
                if ascii_text(s@) {
                    let t = s@.skip(i as int);
                    assert forall|j: int| 0 <= j < t.len() implies ascii_char(#[trigger] t[j]) by {
                        assert(t[j] == s@[i + j]);
                    }
                    let l = low_chars@;
                    let p = seq!['o', 'f', ' '];
                    if l.len() >= 3 {
                        assert(t[0] == s@[i as int] && t[1] == s@[i + 1] && t[2] == s@[i + 2]);
                        assert(l[0] as int == ascii_lower_code(t[0] as int));
                        assert(l[1] as int == ascii_lower_code(t[1] as int));
                        assert(l[2] as int == ascii_lower_code(t[2] as int));
                        if l[0] == 'o' && l[1] == 'f' && l[2] == ' ' {
                            assert(l.subrange(0, 3) =~= p);
                        } else {
                            assert(l.subrange(0, 3)[0] == l[0] && l.subrange(0, 3)[1] == l[1]
                                && l.subrange(0, 3)[2] == l[2]);
                        }
                    }
                    assert(of_word == ascii_of_word_at(s@, i as int));
                }
            }
            !of_word
        } else {
            false
        };
        let ghost before = out@;
        let mapped = if up {
            char_upper(c)
        } else {
            char_lower(c)
        };
        append_chars(&mut out, &mapped);
        proof {
            if ascii_text(s@) {
                assert(ascii_char(s@[i as int]));
                assert(up == ascii_raised_at(s@, i as int));
                assert(out@[i as int] == mapped@[0]);
                assert forall|k: int| 0 <= k < i + 1 implies (#[trigger] out@[k]) as int
                    == ascii_cased_code(s@, k) by {
                    if k < i {
                        assert(out@[k] == before[k]);
                    }
                }
            }
        }
        start = c == ' ';
    }
    string_of(&out)
}

impl Item {
    /// The item that a data dump entry describes: the entry's name is the
    /// identifier, its capitalized form the display name, and a cost with
    /// no field present is no cost.
    pub fn from_raw(f: ItemRaw) -> (item: Item)
        ensures
            item.id == f.name,
            item.name@ == capitalized(f.name@),
            item.types == f.types,
            item.rarity == f.rarity,
            item.descriptors == f.descriptors,
            item.cost == kept_cost(f.cost),
    {
        let name = capitalize(f.name.as_str());
        let cost = match f.cost {
            Some(c) => if c.energy.is_none() && c.mana.is_none() && c.gold.is_none() {
                None
            } else {
                Some(c)
            },
            None => None,
        };
        Item {
            id: f.name,
            name,
            types: f.types,
            rarity: f.rarity,
            descriptors: f.descriptors,
            cost,
        }
    }
}


// ----------------------------------------------------------------------------
// Infobox fields
// ----------------------------------------------------------------------------
/// A trimmed descriptor line that starts with '/' belongs to the description;
/// every other line is an effect.
pub open spec fn is_description(t: Seq<char>) -> bool {
    t.len() > 0 && t[0] == '/'
}

/// The descriptor lines of an item, each trimmed.
pub open spec fn trimmed_lines(ds: Seq<String>) -> Seq<Seq<char>> {
    ds.map_values(|d: String| trim(d@))
}

/// The effect lines among trimmed lines, in order.
pub open spec fn effect_lines(ts: Seq<Seq<char>>) -> Seq<Seq<char>>
    decreases ts.len(),
{
    if ts.len() == 0 {
        seq![]
    } else if is_description(ts.last()) {
        effect_lines(ts.drop_last())
    } else {
        effect_lines(ts.drop_last()).push(ts.last())
    }
}

/// The description lines among trimmed lines, in order, without their '/'.
pub open spec fn description_lines(ts: Seq<Seq<char>>) -> Seq<Seq<char>>
    decreases ts.len(),
{
    if ts.len() == 0 {
        seq![]
    } else if is_description(ts.last()) {
        description_lines(ts.drop_last()).push(ts.last().drop_first())
    } else {
        description_lines(ts.drop_last())
    }
}

/// One word per present field of a cost: "<n> Energy", "<n> mana", "<n> Gold".
pub open spec fn cost_words(c: UseCost) -> Seq<Seq<char>> {
    let e = match c.energy {
        Some(x) => seq![decimal(x as int) + " Energy"@],
        None => seq![],
    };
    let m = match c.mana {
        Some(x) => seq![decimal(x as int) + " mana"@],
        None => seq![],
    };
    let g = match c.gold {
        Some(x) => seq![decimal(x as int) + " Gold"@],
        None => seq![],
    };
    e + m + g
}

/// Key and value of each infobox field, as character sequences.
pub open spec fn pairs_view(v: Seq<(&str, String)>) -> Seq<(Seq<char>, Seq<char>)> {
    v.map_values(|p: (&str, String)| (p.0@, p.1@))
}

/// The infobox fields of an item, in order: title, type (the types joined
/// by ", "), rarity; then useCost (the cost words joined by ", ") when the
/// item has a cost; then effects and description (their lines joined by
/// "<br/>" and a line break) when there are any.
pub open spec fn infobox_fields(item: Item) -> Seq<(Seq<char>, Seq<char>)> {
    let base = seq![
        ("title"@, item.name@),
        ("type"@, join(item.types@.map_values(|t: String| t@), ", "@)),
        ("rarity"@, item.rarity@),
    ];
    let with_cost = match item.cost {
        Some(c) => base.push(("useCost"@, join(cost_words(c), ", "@))),
        None => base,
    };
    let effects = effect_lines(trimmed_lines(item.descriptors@));
    let with_effects = if effects.len() > 0 {
        with_cost.push(("effects"@, join(effects, "<br/>\n"@)))
    } else {
        with_cost
    };
    let description = description_lines(trimmed_lines(item.descriptors@));
    if description.len() > 0 {
        with_effects.push(("description"@, join(description, "<br/>\n"@)))
    } else {
        with_effects
    }
}

/// The characters of each string of `v`.
fn chars_of_each(v: &Vec<String>) -> (r: Vec<Vec<char>>)
    ensures
        views_of(r@) == v@.map_values(|t: String| t@),
{
    let mut r: Vec<Vec<char>> = Vec::new();
    let n = v.len();
    for i in 0..n
        invariant
            n == v@.len(),
            views_of(r@) == v@.take(i as int).map_values(|t: String| t@),
    {
        let ghost before = r@;
        r.push(chars_of(v[i].as_str()));
        assert(views_of(r@) =~= views_of(before).push(v@[i as int]@));
        assert(v@.take(i + 1).map_values(|t: String| t@) =~= v@.take(i as int).map_values(
            |t: String| t@,
        ).push(v@[i as int]@));
    }
    assert(v@.take(n as int) =~= v@);
    r
}

/// The word "<x><unit>" of a cost field.
fn cost_word(x: i32, unit: &str) -> (r: Vec<char>)
    ensures
        r@ == decimal(x as int) + unit@,
{
    let mut w = decimal_of(x);
    let u = chars_of(unit);
    append_chars(&mut w, &u);
    w
}

/// The words of the present fields of a cost.
fn cost_words_of(c: UseCost) -> (r: Vec<Vec<char>>)
    ensures
        views_of(r@) == cost_words(c),
{
    let mut words: Vec<Vec<char>> = Vec::new();
    if let Some(x) = c.energy {
        words.push(cost_word(x, " Energy"));
    }
    let ghost after_energy = views_of(words@);
    if let Some(x) = c.mana {
        words.push(cost_word(x, " mana"));
    }
    let ghost after_mana = views_of(words@);
    if let Some(x) = c.gold {
        words.push(cost_word(x, " Gold"));
    }
    assert(views_of(words@) =~= cost_words(c));
    words
}

impl Item {
    /// The infobox fields of the item's wiki page, as `infobox_fields`
    /// states them. An item whose cost has no field present has no words to
    /// list, so such an item is not accepted.
    pub fn to_infobox_pairs(&self) -> (r: Vec<(&'static str, String)>)
        requires
            self.cost matches Some(c) ==> cost_present(c),
        ensures
            pairs_view(r@) == infobox_fields(*self),
    {
        let mut effects: Vec<Vec<char>> = Vec::new();
        let mut description: Vec<Vec<char>> = Vec::new();
        let ghost ts = trimmed_lines(self.descriptors@);
        let nd = self.descriptors.len();
        for i in 0..nd
            invariant
                nd == self.descriptors@.len(),
                ts == trimmed_lines(self.descriptors@),
                views_of(effects@) == effect_lines(ts.take(i as int)),
                views_of(description@) == description_lines(ts.take(i as int)),
        {
            let ghost eb = effects@;
            let ghost db = description@;
            let line = chars_of(self.descriptors[i].as_str());
            let d = trim_chars(&line);
            assert(ts.take(i + 1).drop_last() =~= ts.take(i as int));
            assert(ts.take(i + 1).last() == d@);
            if d.len() > 0 && d[0] == '/' {
                let stripped = sub_chars(&d, 1, d.len());
                assert(stripped@ =~= d@.drop_first());
                description.push(stripped);
                assert(views_of(description@) =~= views_of(db).push(d@.drop_first()));
                assert(views_of(effects@) =~= views_of(eb));
            } else {
                effects.push(d);
                assert(views_of(effects@) =~= views_of(eb).push(d@));
                assert(views_of(description@) =~= views_of(db));
            }
        }
        assert(ts.take(nd as int) =~= ts);
        let mut parts: Vec<(&'static str, String)> = Vec::new();
        parts.push(("title", self.name.clone()));
        let comma = chars_of(", ");
        let types = chars_of_each(&self.types);
        let type_text = join_chars(&types, &comma);
        parts.push(("type", string_of(&type_text)));
        parts.push(("rarity", self.rarity.clone()));
        let ghost base = pairs_view(parts@);
        if let Some(c) = self.cost {
            let words = cost_words_of(c);
            let text = join_chars(&words, &comma);
            parts.push(("useCost", string_of(&text)));
        }
        let ghost with_cost = pairs_view(parts@);
        let br = chars_of("<br/>\n");
        if effects.len() > 0 {
            let text = join_chars(&effects, &br);
            parts.push(("effects", string_of(&text)));
        }
        let ghost with_effects = pairs_view(parts@);
        if description.len() > 0 {
            let text = join_chars(&description, &br);
            parts.push(("description", string_of(&text)));
        }
        assert(pairs_view(parts@) =~= infobox_fields(*self));
        parts
    }
}


// ----------------------------------------------------------------------------
// Links in descriptions
// ----------------------------------------------------------------------------
/// Identifier and display name of each item, in order.
pub open spec fn id_name_pairs(items: Seq<Item>) -> Seq<(Seq<char>, Seq<char>)> {
    items.map_values(|it: Item| (it.id@, it.name@))
}

/// Some pair has the identifier `id`.
pub open spec fn has_id(ps: Seq<(Seq<char>, Seq<char>)>, id: Seq<char>) -> bool {
    exists|k: int| 0 <= k < ps.len() && ps[k].0 == id
}

/// The pairs, in order, whose identifier is not `id`.
pub open spec fn without_id(ps: Seq<(Seq<char>, Seq<char>)>, id: Seq<char>) -> Seq<
    (Seq<char>, Seq<char>),
>
    decreases ps.len(),
{
    if ps.len() == 0 {
        seq![]
    } else if ps.last().0 == id {
        without_id(ps.drop_last(), id)
    } else {
        without_id(ps.drop_last(), id).push(ps.last())
    }
}

/// The link targets of a set of items: identifier and display name of each
/// item, except those with the identifier "ARROW" when no item has the
/// identifier "ETHEREAL ARROW".
pub open spec fn link_targets(items: Seq<Item>) -> Seq<(Seq<char>, Seq<char>)> {
    let all = id_name_pairs(items);
    if has_id(all, "ETHEREAL ARROW"@) {
        all
    } else {
        without_id(all, "ARROW"@)
    }
}

/// The targets, in order, whose identifier occurs in `line`.
pub open spec fn candidates(ts: Seq<(Seq<char>, Seq<char>)>, line: Seq<char>) -> Seq<
    (Seq<char>, Seq<char>),
>
    decreases ts.len(),
{
    if ts.len() == 0 {
        seq![]
    } else if contains(line, ts.last().0) {
        candidates(ts.drop_last(), line).push(ts.last())
    } else {
        candidates(ts.drop_last(), line)
    }
}

/// Candidate `j` contains candidate `i` if `i` is no longer than `j` in bytes.
pub open spec fn nests_in(cs: Seq<(Seq<char>, Seq<char>)>, i: int, j: int) -> bool {
    utf8_len(cs[i].0) <= utf8_len(cs[j].0) ==> contains(cs[j].0, cs[i].0)
}

/// The candidates nest: each candidate identifier contains every candidate
/// identifier that is no longer than it in bytes.
pub open spec fn nested(cs: Seq<(Seq<char>, Seq<char>)>) -> bool {
    forall|i: int, j: int|
        0 <= i < cs.len() && 0 <= j < cs.len() ==> #[trigger] nests_in(cs, i, j)
}

/// The candidate with the longest identifier in bytes; of several such, the last.
pub open spec fn longest(cs: Seq<(Seq<char>, Seq<char>)>) -> (Seq<char>, Seq<char>)
    decreases cs.len(),
{
    if cs.len() <= 1 {
        cs[0]
    } else {
        let b = longest(cs.drop_last());
        if utf8_len(cs.last().0) >= utf8_len(b.0) {
            cs.last()
        } else {
            b
        }
    }
}

/// The wiki link to a page: the page name in double square brackets.
pub open spec fn link_text(name: Seq<char>) -> Seq<char> {
    "[["@ + name + "]]"@
}

/// A description line with links: when identifiers of targets occur in the
/// line, every occurrence of the longest of them becomes a link to its page.
pub open spec fn linked_line(ts: Seq<(Seq<char>, Seq<char>)>, line: Seq<char>) -> Seq<char> {
    let cs = candidates(ts, line);
    if cs.len() == 0 {
        line
    } else {
        let b = longest(cs);
        replace_all(line, b.0, link_text(b.1))
    }
}

/// In every description line of every item, the candidate identifiers nest.
pub open spec fn links_well_nested(items: Seq<Item>) -> bool {
    forall|i: int, j: int|
        #![trigger items[i].descriptors@[j]]
        0 <= i < items.len() && 0 <= j < items[i].descriptors@.len() ==> nested(
            candidates(link_targets(items), items[i].descriptors@[j]@),
        )
}

/// `after` is `before` with each description line linked against `ts`, and
/// with every other field unchanged.
pub open spec fn relinked(after: Item, before: Item, ts: Seq<(Seq<char>, Seq<char>)>) -> bool {
    &&& after.id == before.id
    &&& after.name == before.name
    &&& after.types == before.types
    &&& after.rarity == before.rarity
    &&& after.cost == before.cost
    &&& after.descriptors@.len() == before.descriptors@.len()
    &&& forall|j: int|
        #![trigger after.descriptors@[j]]
        0 <= j < after.descriptors@.len() ==> after.descriptors@[j]@ == linked_line(
            ts,
            before.descriptors@[j]@,
        )
}

/// A link target: identifier, page name, and the identifier's length in bytes.
struct LinkTarget {
    id: Vec<char>,
    name: Vec<char>,
    id_bytes: u128,
}

spec fn target_views(v: Seq<LinkTarget>) -> Seq<(Seq<char>, Seq<char>)> {
    v.map_values(|t: LinkTarget| (t.id@, t.name@))
}

spec fn byte_lengths_known(v: Seq<LinkTarget>) -> bool {
    forall|k: int| 0 <= k < v.len() ==> #[trigger] v[k].id_bytes == utf8_len(v[k].id@)
}

/// The link targets of `items`.
fn link_targets_of(items: &Vec<Item>) -> (r: Vec<LinkTarget>)
    ensures
        target_views(r@) == link_targets(items@),
        byte_lengths_known(r@),
{
    let n = items.len();
    let mut all: Vec<LinkTarget> = Vec::new();
    for i in 0..n
        invariant
            n == items@.len(),
            target_views(all@) == id_name_pairs(items@.take(i as int)),
            byte_lengths_known(all@),
    {
        let ghost before = all@;
        let id = chars_of(items[i].id.as_str());
        let id_bytes = utf8_len_of(&id);
        let t = LinkTarget { id, name: chars_of(items[i].name.as_str()), id_bytes };
        all.push(t);
        assert(target_views(all@) =~= target_views(before).push(
            (items@[i as int].id@, items@[i as int].name@),
        ));
        assert(id_name_pairs(items@.take(i + 1)) =~= id_name_pairs(items@.take(i as int)).push(
            (items@[i as int].id@, items@[i as int].name@),
        ));
    }
    assert(items@.take(n as int) =~= items@);
    let ghost pairs = target_views(all@);
    let ethereal = chars_of("ETHEREAL ARROW");
    let mut found = false;
    for k in 0..n
        invariant
            n == all@.len(),
            pairs == target_views(all@),
            ethereal@ == "ETHEREAL ARROW"@,
            found == has_id(pairs.take(k as int), "ETHEREAL ARROW"@),
    {
        let same = same_chars(&all[k].id, &ethereal);
        if same {
            assert(pairs.take(k + 1)[k as int].0 == "ETHEREAL ARROW"@);
        }
        if found {
            let ghost w = choose|w: int|
                0 <= w < k && pairs.take(k as int)[w].0 == "ETHEREAL ARROW"@;
            assert(pairs.take(k + 1)[w].0 == "ETHEREAL ARROW"@);
        }
        if !same && !found {
            assert forall|w: int| 0 <= w < k + 1 implies (#[trigger] pairs.take(k + 1)[w]).0
                != "ETHEREAL ARROW"@ by {
                if w < k {
                    assert(pairs.take(k + 1)[w] == pairs.take(k as int)[w]);
                }
            }
        }
        found = found || same;
    }
    assert(pairs.take(n as int) =~= pairs);
    if found {
        return all;
    }
    let arrow = chars_of("ARROW");
    let mut kept: Vec<LinkTarget> = Vec::new();
    for k in 0..n
        invariant
            n == all@.len(),
            pairs == target_views(all@),
            byte_lengths_known(all@),
            byte_lengths_known(kept@),
            arrow@ == "ARROW"@,
            target_views(kept@) == without_id(pairs.take(k as int), "ARROW"@),
    {
        let ghost before = kept@;
        assert(pairs.take(k + 1).drop_last() =~= pairs.take(k as int));
        if !same_chars(&all[k].id, &arrow) {
            let t = LinkTarget {
                id: sub_chars(&all[k].id, 0, all[k].id.len()),
                name: sub_chars(&all[k].name, 0, all[k].name.len()),
                id_bytes: all[k].id_bytes,
            };
            assert(t.id@ =~= all@[k as int].id@);
            assert(t.name@ =~= all@[k as int].name@);
            kept.push(t);
            assert(target_views(kept@) =~= target_views(before).push(pairs[k as int]));
        }
    }
    assert(pairs.take(n as int) =~= pairs);
    kept
}

/// The targets at the given positions of `tv`.
spec fn picked(tv: Seq<(Seq<char>, Seq<char>)>, idx: Seq<usize>) -> Seq<(Seq<char>, Seq<char>)> {
    idx.map_values(|k: usize| tv[k as int])
}

/// Positions, in order, of the targets whose identifier occurs in `line`.
fn candidates_of(ts: &Vec<LinkTarget>, line: &Vec<char>) -> (r: Vec<usize>)
    ensures
        forall|k: int| 0 <= k < r@.len() ==> #[trigger] r@[k] < ts@.len(),
        picked(target_views(ts@), r@) == candidates(target_views(ts@), line@),
{
    let ghost tv = target_views(ts@);
    let n = ts.len();
    let mut r: Vec<usize> = Vec::new();
    for k in 0..n
        invariant
            n == ts@.len(),
            tv == target_views(ts@),
            forall|t: int| 0 <= t < r@.len() ==> #[trigger] r@[t] < n,
            picked(tv, r@) == candidates(tv.take(k as int), line@),
    {
        let ghost before = r@;
        assert(tv.take(k + 1).drop_last() =~= tv.take(k as int));
        assert(tv.take(k + 1).last() == tv[k as int]);
        if contains_chars(line, &ts[k].id) {
            r.push(k);
            assert(picked(tv, r@) =~= picked(tv, before).push(tv[k as int]));
        }
    }
    assert(tv.take(n as int) =~= tv);
    r
}

/// The position of the longest of the picked targets.
fn longest_of(ts: &Vec<LinkTarget>, idx: &Vec<usize>) -> (b: usize)
    requires
        idx@.len() > 0,
        forall|k: int| 0 <= k < idx@.len() ==> #[trigger] idx@[k] < ts@.len(),
        byte_lengths_known(ts@),
    ensures
        b < ts@.len(),
        target_views(ts@)[b as int] == longest(picked(target_views(ts@), idx@)),
{
    let ghost tv = target_views(ts@);
    let ghost cs = picked(tv, idx@);
    let mut best = idx[0];
    let n = idx.len();
    assert(cs.take(1).len() == 1);
    for i in 1..n
        invariant
            n == idx@.len(),
            tv == target_views(ts@),
            cs == picked(tv, idx@),
            forall|k: int| 0 <= k < idx@.len() ==> #[trigger] idx@[k] < ts@.len(),
            byte_lengths_known(ts@),
            best < ts@.len(),
            tv[best as int] == longest(cs.take(i as int)),
    {
        assert(cs.take(i + 1).drop_last() =~= cs.take(i as int));
        assert(cs.take(i + 1).last() == tv[idx@[i as int] as int]);
        let k = idx[i];
        assert(ts@[k as int].id_bytes == utf8_len(ts@[k as int].id@));
        assert(ts@[best as int].id_bytes == utf8_len(ts@[best as int].id@));
        if ts[k].id_bytes >= ts[best].id_bytes {
            best = k;
        }
    }
    assert(cs.take(n as int) =~= cs);
    best
}

/// Whether picked target `b` contains picked target `a` where `a` is no longer.
fn nests_at(ts: &Vec<LinkTarget>, idx: &Vec<usize>, a: usize, b: usize) -> (r: bool)
    requires
        a < idx@.len(),
        b < idx@.len(),
        forall|k: int| 0 <= k < idx@.len() ==> #[trigger] idx@[k] < ts@.len(),
        byte_lengths_known(ts@),
    ensures
        r == nests_in(picked(target_views(ts@), idx@), a as int, b as int),
{
    let ka = idx[a];
    let kb = idx[b];
    assert(ts@[ka as int].id_bytes == utf8_len(ts@[ka as int].id@));
    assert(ts@[kb as int].id_bytes == utf8_len(ts@[kb as int].id@));
    !(ts[ka].id_bytes <= ts[kb].id_bytes) || contains_chars(&ts[kb].id, &ts[ka].id)
}

/// Whether the picked targets nest.
fn nested_at(ts: &Vec<LinkTarget>, idx: &Vec<usize>) -> (r: bool)
    requires
        forall|k: int| 0 <= k < idx@.len() ==> #[trigger] idx@[k] < ts@.len(),
        byte_lengths_known(ts@),
    ensures
        r == nested(picked(target_views(ts@), idx@)),
{
    let ghost cs = picked(target_views(ts@), idx@);
    let n = idx.len();
    for a in 0..n
        invariant
            n == idx@.len(),
            n == cs.len(),
            cs == picked(target_views(ts@), idx@),
            forall|k: int| 0 <= k < idx@.len() ==> #[trigger] idx@[k] < ts@.len(),
            byte_lengths_known(ts@),
            forall|x: int, y: int| 0 <= x < a && 0 <= y < n ==> #[trigger] nests_in(cs, x, y),
    {
        for b in 0..n
            invariant
                n == idx@.len(),
                n == cs.len(),
                a < n,
                cs == picked(target_views(ts@), idx@),
                forall|k: int| 0 <= k < idx@.len() ==> #[trigger] idx@[k] < ts@.len(),
                byte_lengths_known(ts@),
                forall|x: int, y: int| 0 <= x < a && 0 <= y < n ==> #[trigger] nests_in(cs, x, y),
                forall|y: int| 0 <= y < b ==> #[trigger] nests_in(cs, a as int, y),
        {
            if !nests_at(ts, idx, a, b) {
                return false;
            }
        }
    }
    true
}

/// `line` with its links, as `linked_line` states it.
fn link_line(ts: &Vec<LinkTarget>, line: &Vec<char>) -> (r: Vec<char>)
    requires
        byte_lengths_known(ts@),
    ensures
        r@ == linked_line(target_views(ts@), line@),
{
    let idx = candidates_of(ts, line);
    if idx.len() == 0 {
        return sub_chars(line, 0, line.len());
    }
    let b = longest_of(ts, &idx);
    let mut rep = chars_of("[[");
    append_chars(&mut rep, &ts[b].name);
    let close = chars_of("]]");
    append_chars(&mut rep, &close);
    replace_chars(line, &ts[b].id, &rep)
}

/// Whether the candidate identifiers nest in every description line of
/// every item: the condition under which `wikify_description_links` accepts
/// the items.
pub fn links_unambiguous(items: &Vec<Item>) -> (r: bool)
    ensures
        r == links_well_nested(items@),
{
    let ts = link_targets_of(items);
    let ghost tv = link_targets(items@);
    let n = items.len();
    for i in 0..n
        invariant
            n == items@.len(),
            tv == target_views(ts@),
            tv == link_targets(items@),
            byte_lengths_known(ts@),
            forall|a: int, b: int|
                #![trigger items@[a].descriptors@[b]]
                0 <= a < i && 0 <= b < items@[a].descriptors@.len() ==> nested(
                    candidates(tv, items@[a].descriptors@[b]@),
                ),
    {
        let m = items[i].descriptors.len();
        for j in 0..m
            invariant
                n == items@.len(),
                i < n,
                m == items@[i as int].descriptors@.len(),
                tv == target_views(ts@),
                tv == link_targets(items@),
                byte_lengths_known(ts@),
                forall|a: int, b: int|
                    #![trigger items@[a].descriptors@[b]]
                    0 <= a < i && 0 <= b < items@[a].descriptors@.len() ==> nested(
                        candidates(tv, items@[a].descriptors@[b]@),
                    ),
                forall|b: int|
                    #![trigger items@[i as int].descriptors@[b]]
                    0 <= b < j ==> nested(candidates(tv, items@[i as int].descriptors@[b]@)),
        {
            let line = chars_of(items[i].descriptors[j].as_str());
            let idx = candidates_of(&ts, &line);
            if !nested_at(&ts, &idx) {
                assert(!nested(candidates(tv, items@[i as int].descriptors@[j as int]@)));
                return false;
            }
        }
    }
    true
}

/// Turns the mentions of other items in description lines into wiki links.
/// The link targets are the identifiers and display names of all items
/// (without "ARROW" when there is no "ETHEREAL ARROW"); in each line, every
/// occurrence of the longest identifier that occurs in it becomes a link to
/// its item's page. The identifiers that occur in one line must nest
/// (`links_unambiguous` tells whether they do); nothing but the description
/// lines changes.
pub fn wikify_description_links(items: &mut Vec<Item>)
    requires
        links_well_nested(old(items)@),
    ensures
        final(items)@.len() == old(items)@.len(),
        forall|i: int|
            0 <= i < final(items)@.len() ==> relinked(
                #[trigger] final(items)@[i],
                old(items)@[i],
                link_targets(old(items)@),
            ),
{
    let ts = link_targets_of(items);
    let ghost tv = link_targets(items@);
    let ghost orig = items@;
    let n = items.len();
    for i in 0..n
        invariant
            n == items@.len(),
            n == orig.len(),
            tv == target_views(ts@),
            tv == link_targets(orig),
            byte_lengths_known(ts@),
            forall|a: int| 0 <= a < i ==> relinked(#[trigger] items@[a], orig[a], tv),
            forall|a: int| i <= a < n ==> #[trigger] items@[a] == orig[a],
    {
        let m = items[i].descriptors.len();
        let mut new_ds: Vec<String> = Vec::new();
        for j in 0..m
            invariant
                n == items@.len(),
                i < n,
                items@[i as int] == orig[i as int],
                m == orig[i as int].descriptors@.len(),
                tv == target_views(ts@),
                byte_lengths_known(ts@),
                new_ds@.len() == j,
                forall|b: int|
                    0 <= b < j ==> (#[trigger] new_ds@[b])@ == linked_line(
                        tv,
                        orig[i as int].descriptors@[b]@,
                    ),
        {
            let line = chars_of(items[i].descriptors[j].as_str());
            let linked = link_line(&ts, &line);
            new_ds.push(string_of(&linked));
        }
        items[i].descriptors = new_ds;
    }
}

// ----------------------------------------------------------------------------
// Laws
// ----------------------------------------------------------------------------
/// Every item built from a data dump entry can be shown as an infobox: a
/// cost that `from_raw` keeps has a field present, which is what
/// `to_infobox_pairs` asks of a cost.
pub proof fn lemma_built_items_have_infobox(cost: Option<UseCost>)
    ensures
        kept_cost(cost) matches Some(c) ==> cost_present(c),
{
}

/// Building an item twice over normalizes its cost no further: a kept cost
/// is kept as it is.
pub proof fn lemma_kept_cost_stable(cost: Option<UseCost>)
    ensures
        kept_cost(kept_cost(cost)) == kept_cost(cost),
{
}

/// The infobox fields of an item have pairwise distinct keys, and begin
/// with the title (the display name), the type and the rarity.
pub proof fn lemma_infobox_keys_distinct(item: Item)
    ensures
        forall|i: int, j: int|
            0 <= i < j < infobox_fields(item).len() ==> #[trigger] infobox_fields(item)[i].0
                != #[trigger] infobox_fields(item)[j].0,
        infobox_fields(item).len() >= 3,
        infobox_fields(item)[0] == ("title"@, item.name@),
        infobox_fields(item)[1].0 == "type"@,
        infobox_fields(item)[2] == ("rarity"@, item.rarity@),
{
    reveal_strlit("title");
    reveal_strlit("type");
    reveal_strlit("rarity");
    reveal_strlit("useCost");
    reveal_strlit("effects");
    reveal_strlit("description");
    let f = infobox_fields(item);
    assert forall|i: int, j: int| 0 <= i < j < f.len() implies #[trigger] f[i].0 != #[trigger] f[j].0 by {
        let a = f[i].0;
        let b = f[j].0;
        assert(a.len() != b.len() || a[0] != b[0]);
    }
}

/// The candidates of a line are targets whose identifier occurs in it.
proof fn lemma_candidates_occur(ts: Seq<(Seq<char>, Seq<char>)>, line: Seq<char>)
    ensures
        forall|k: int|
            0 <= k < candidates(ts, line).len() ==> contains(line, (#[trigger] candidates(ts, line)[k]).0),
        candidates(ts, line).len() == 0 <==> forall|k: int|
            0 <= k < ts.len() ==> !contains(line, (#[trigger] ts[k]).0),
    decreases ts.len(),
{
    if ts.len() > 0 {
        lemma_candidates_occur(ts.drop_last(), line);
        let before = candidates(ts.drop_last(), line);
        assert forall|k: int|
            0 <= k < candidates(ts, line).len() implies contains(line, (#[trigger] candidates(ts, line)[k]).0) by {
            if k < before.len() {
                assert(contains(line, before[k].0));
            }
        }
        if candidates(ts, line).len() == 0 {
            assert forall|k: int| 0 <= k < ts.len() implies !contains(line, (#[trigger] ts[k]).0) by {
                if k < ts.len() - 1 {
                    assert(ts.drop_last()[k] == ts[k]);
                }
            }
        }
        if candidates(ts, line).len() != 0 && before.len() == 0 {
            assert(contains(line, ts.last().0));
        }
        if before.len() != 0 {
            let w = choose|k: int| 0 <= k < ts.drop_last().len() && contains(line, #[trigger] ts.drop_last()[k].0);
            assert(contains(line, ts[w].0));
        }
    }
}

/// A description line in which no link target's identifier occurs keeps
/// its text; a line in which one occurs gets a link to a target that occurs in it.
pub proof fn lemma_linking_touches_only_mentions(ts: Seq<(Seq<char>, Seq<char>)>, line: Seq<char>)
    ensures
        (forall|k: int| 0 <= k < ts.len() ==> !contains(line, (#[trigger] ts[k]).0)) ==> linked_line(
            ts,
            line,
        ) == line,
        candidates(ts, line).len() > 0 ==> contains(line, longest(candidates(ts, line)).0),
{
    lemma_candidates_occur(ts, line);
    let cs = candidates(ts, line);
    if cs.len() > 0 {
        lemma_longest_is_candidate(cs);
        let k = choose|k: int| 0 <= k < cs.len() && cs[k] == longest(cs);
        assert(contains(line, cs[k].0));
    }
}

/// The longest candidate is one of the candidates.
proof fn lemma_longest_is_candidate(cs: Seq<(Seq<char>, Seq<char>)>)
    requires
        cs.len() > 0,
    ensures
        exists|k: int| 0 <= k < cs.len() && cs[k] == longest(cs),
    decreases cs.len(),
{
    if cs.len() == 1 {
        assert(cs[0] == longest(cs));
    } else {
        lemma_longest_is_candidate(cs.drop_last());
        let b = longest(cs.drop_last());
        if utf8_len(cs.last().0) >= utf8_len(b.0) {
            assert(cs[cs.len() - 1] == longest(cs));
        } else {
            let k = choose|k: int| 0 <= k < cs.drop_last().len() && cs.drop_last()[k] == b;
            assert(cs[k] == longest(cs));
        }
    }
}


// ----------------------------------------------------------------------------
// Display names of ASCII identifiers
// ----------------------------------------------------------------------------
/// From position `k` on, the ASCII text `s` reads "of " once lowercased.
pub open spec fn ascii_of_word_at(s: Seq<char>, k: int) -> bool {
    &&& k + 3 <= s.len()
    &&& ascii_lower_code(s[k] as int) == 111
    &&& ascii_lower_code(s[k + 1] as int) == 102
    &&& s[k + 2] == ' '
}

/// Position `k` of the ASCII text `s` is uppercased in its display name: it
/// begins a word that is not "of".
pub open spec fn ascii_raised_at(s: Seq<char>, k: int) -> bool {
    word_start(s, k) && !ascii_of_word_at(s, k)
}

/// The code that position `k` of the ASCII text `s` has in its display name.
pub open spec fn ascii_cased_code(s: Seq<char>, k: int) -> int {
    if ascii_raised_at(s, k) {
        ascii_upper_code(s[k] as int)
    } else {
        ascii_lower_code(s[k] as int)
    }
}

/// `r` is the display name of the ASCII identifier `s`: one character per
/// character of `s`, uppercased at the start of a word other than "of" and
/// lowercased everywhere else.
pub open spec fn ascii_display_name(s: Seq<char>, r: Seq<char>) -> bool {
    &&& r.len() == s.len()
    &&& forall|k: int| 0 <= k < s.len() ==> (#[trigger] r[k]) as int == ascii_cased_code(s, k)
}

/// `s` and `t` differ at most in the case of their letters.
pub open spec fn same_letters(s: Seq<char>, t: Seq<char>) -> bool {
    &&& s.len() == t.len()
    &&& forall|k: int|
        0 <= k < s.len() ==> ascii_lower_code(#[trigger] s[k] as int) == ascii_lower_code(
            t[k] as int,
        )
}

/// Identifiers that differ only in case raise the same positions.
proof fn lemma_same_letters_raise_alike(s: Seq<char>, t: Seq<char>, k: int)
    requires
        ascii_text(s),
        ascii_text(t),
        same_letters(s, t),
        0 <= k < s.len(),
    ensures
        ascii_raised_at(s, k) == ascii_raised_at(t, k),
{
    if k > 0 {
        assert(ascii_lower_code(s[k - 1] as int) == ascii_lower_code(t[k - 1] as int));
        assert((s[k - 1] == ' ') == (t[k - 1] == ' '));
    }
    if k + 3 <= s.len() {
        assert(ascii_lower_code(s[k] as int) == ascii_lower_code(t[k] as int));
        assert(ascii_lower_code(s[k + 1] as int) == ascii_lower_code(t[k + 1] as int));
        assert(ascii_lower_code(s[k + 2] as int) == ascii_lower_code(t[k + 2] as int));
        assert((s[k + 2] == ' ') == (t[k + 2] == ' '));
    }
}

/// Identifiers that differ only in case have the same display name.
pub proof fn lemma_display_name_ignores_case(s: Seq<char>, t: Seq<char>, rs: Seq<char>, rt: Seq<char>)
    requires
        ascii_text(s),
        ascii_text(t),
        same_letters(s, t),
        ascii_display_name(s, rs),
        ascii_display_name(t, rt),
    ensures
        rs == rt,
{
    assert forall|k: int| 0 <= k < rs.len() implies rs[k] == rt[k] by {
        lemma_same_letters_raise_alike(s, t, k);
        assert(ascii_char(s[k]) && ascii_char(t[k]));
        assert(ascii_lower_code(s[k] as int) == ascii_lower_code(t[k] as int));
        assert(rs[k] as int == rt[k] as int);
    }
    assert(rs =~= rt);
}

/// The display name of an ASCII identifier is ASCII and differs from the
/// identifier only in case.
pub proof fn lemma_display_name_changes_only_case(s: Seq<char>, r: Seq<char>)
    requires
        ascii_text(s),
        ascii_display_name(s, r),
    ensures
        ascii_text(r),
        same_letters(r, s),
{
    assert forall|k: int| 0 <= k < r.len() implies ascii_char(#[trigger] r[k])
        && ascii_lower_code(r[k] as int) == ascii_lower_code(s[k] as int) by {
        assert(ascii_char(s[k]));
    }
}

/// Capitalizing an ASCII display name again changes nothing: the display
/// name of a display name is itself.
pub proof fn lemma_display_name_twice(s: Seq<char>, r: Seq<char>, r2: Seq<char>)
    requires
        ascii_text(s),
        ascii_display_name(s, r),
        ascii_display_name(r, r2),
    ensures
        r2 == r,
{
    lemma_display_name_changes_only_case(s, r);
    lemma_display_name_ignores_case(r, s, r2, r);
}


// ----------------------------------------------------------------------------
// Laws on building items, infobox fields and links
// ----------------------------------------------------------------------------
/// A built item keeps the dump's cost whenever one of its fields (energy,
/// mana or gold) is present, and has no cost only when there is none or
/// all three are absent.
pub proof fn lemma_built_cost(cost: Option<UseCost>)
    ensures
        (cost matches Some(c) && (c.energy is Some || c.mana is Some || c.gold is Some))
            ==> kept_cost(cost) == cost,
        !(cost matches Some(c) && (c.energy is Some || c.mana is Some || c.gold is Some))
            ==> kept_cost(cost) is None,
{
}

/// The description lines are the trimmed descriptors that start with '/',
/// in their order and without the '/'; the effect lines are the other
/// trimmed descriptors, in their order.
pub proof fn lemma_lines_keep_descriptor_order(ts: Seq<Seq<char>>)
    ensures
        description_lines(ts) == ts.filter(|t: Seq<char>| t.len() > 0 && t[0] == '/').map_values(
            |t: Seq<char>| t.drop_first(),
        ),
        effect_lines(ts) == ts.filter(|t: Seq<char>| !(t.len() > 0 && t[0] == '/')),
    decreases ts.len(),
{
    reveal(Seq::filter);
    let d = |t: Seq<char>| t.len() > 0 && t[0] == '/';
    let strip = |t: Seq<char>| t.drop_first();
    if ts.len() > 0 {
        lemma_lines_keep_descriptor_order(ts.drop_last());
        let fd = ts.drop_last().filter(d);
        if d(ts.last()) {
            assert(ts.filter(d) == fd.push(ts.last()));
            assert(fd.push(ts.last()).map_values(strip) =~= fd.map_values(strip).push(
                ts.last().drop_first(),
            ));
        } else {
            assert(ts.filter(d) == fd);
        }
    } else {
        assert(ts.filter(d).map_values(strip) =~= Seq::<Seq<char>>::empty());
    }
}

/// The last infobox field of an item with descriptors starting with '/' is
/// its description: those descriptors, trimmed, without the '/', in their
/// order, one per line.
pub proof fn lemma_infobox_description(item: Item)
    ensures
        ({
            let ts = item.descriptors@.map_values(|x: String| trim(x@));
            let ds = ts.filter(|t: Seq<char>| t.len() > 0 && t[0] == '/').map_values(
                |t: Seq<char>| t.drop_first(),
            );
            ds.len() > 0 ==> infobox_fields(item).last() == ("description"@, join(
                ds,
                "<br/>\n"@,
            ))
        }),
{
    let ts = item.descriptors@.map_values(|x: String| trim(x@));
    assert(ts =~= trimmed_lines(item.descriptors@));
    lemma_lines_keep_descriptor_order(ts);
}

/// The effects field of an item lists its descriptors that do not start
/// with '/', trimmed, in their order, one per line; it follows the rarity
/// and cost fields.
pub proof fn lemma_infobox_effects(item: Item)
    ensures
        ({
            let ts = item.descriptors@.map_values(|x: String| trim(x@));
            let es = ts.filter(|t: Seq<char>| !(t.len() > 0 && t[0] == '/'));
            let k = if item.cost is Some { 4int } else { 3int };
            es.len() > 0 ==> infobox_fields(item)[k] == ("effects"@, join(es, "<br/>\n"@))
        }),
{
    let ts = item.descriptors@.map_values(|x: String| trim(x@));
    assert(ts =~= trimmed_lines(item.descriptors@));
    lemma_lines_keep_descriptor_order(ts);
}

/// The candidate picked from the targets whose identifier occurs in the
/// line is such a target of greatest length in bytes, and every later
/// target that occurs is strictly shorter.
proof fn lemma_longest_candidate(ts: Seq<(Seq<char>, Seq<char>)>, line: Seq<char>)
    requires
        candidates(ts, line).len() > 0,
    ensures
        exists|i: int|
            {
                &&& 0 <= i < ts.len()
                &&& contains(line, ts[i].0)
                &&& longest(candidates(ts, line)) == ts[i]
                &&& forall|j: int|
                    0 <= j < ts.len() && contains(line, #[trigger] ts[j].0) ==> utf8_len(ts[j].0)
                        <= utf8_len(ts[i].0)
                &&& forall|j: int|
                    i < j < ts.len() && contains(line, #[trigger] ts[j].0) ==> utf8_len(ts[j].0)
                        < utf8_len(ts[i].0)
            },
    decreases ts.len(),
{
    let n = ts.len();
    let init = ts.drop_last();
    let last = ts.last();
    lemma_candidates_occur(init, line);
    if !contains(line, last.0) {
        assert(candidates(ts, line) == candidates(init, line));
        lemma_longest_candidate(init, line);
        let i = choose|i: int|
            {
                &&& 0 <= i < init.len()
                &&& contains(line, init[i].0)
                &&& longest(candidates(init, line)) == init[i]
                &&& forall|j: int|
                    0 <= j < init.len() && contains(line, #[trigger] init[j].0) ==> utf8_len(
                        init[j].0,
                    ) <= utf8_len(init[i].0)
                &&& forall|j: int|
                    i < j < init.len() && contains(line, #[trigger] init[j].0) ==> utf8_len(
                        init[j].0,
                    ) < utf8_len(init[i].0)
            };
        assert(ts[i] == init[i]);
        assert forall|j: int| 0 <= j < n && contains(line, #[trigger] ts[j].0) implies utf8_len(
            ts[j].0,
        ) <= utf8_len(ts[i].0) by {
            assert(j < n - 1);
            assert(ts[j] == init[j]);
        }
        assert forall|j: int| i < j < n && contains(line, #[trigger] ts[j].0) implies utf8_len(
            ts[j].0,
        ) < utf8_len(ts[i].0) by {
            assert(j < n - 1);
            assert(ts[j] == init[j]);
        }
    } else {
        let cs = candidates(ts, line);
        let ci = candidates(init, line);
        assert(cs == ci.push(last));
        assert(cs.drop_last() =~= ci);
        if ci.len() == 0 {
            assert(longest(cs) == last);
            assert forall|j: int| 0 <= j < n && contains(line, #[trigger] ts[j].0) implies utf8_len(
                ts[j].0,
            ) <= utf8_len(ts[n - 1].0) by {
                if j < n - 1 {
                    assert(ts[j] == init[j]);
                    assert(!contains(line, init[j].0));
                }
            }
            assert(ts[n - 1] == last);
        } else {
            lemma_longest_candidate(init, line);
            let i = choose|i: int|
                {
                    &&& 0 <= i < init.len()
                    &&& contains(line, init[i].0)
                    &&& longest(candidates(init, line)) == init[i]
                    &&& forall|j: int|
                        0 <= j < init.len() && contains(line, #[trigger] init[j].0) ==> utf8_len(
                            init[j].0,
                        ) <= utf8_len(init[i].0)
                    &&& forall|j: int|
                        i < j < init.len() && contains(line, #[trigger] init[j].0) ==> utf8_len(
                            init[j].0,
                        ) < utf8_len(init[i].0)
                };
            assert(ts[i] == init[i]);
            assert(ts[n - 1] == last);
            if utf8_len(last.0) >= utf8_len(init[i].0) {
                assert(longest(cs) == last);
                assert forall|j: int| 0 <= j < n && contains(line, #[trigger] ts[j].0) implies utf8_len(
                    ts[j].0,
                ) <= utf8_len(ts[n - 1].0) by {
                    if j < n - 1 {
                        assert(ts[j] == init[j]);
                    }
                }
            } else {
                assert(longest(cs) == init[i]);
                assert forall|j: int| 0 <= j < n && contains(line, #[trigger] ts[j].0) implies utf8_len(
                    ts[j].0,
                ) <= utf8_len(ts[i].0) by {
                    if j < n - 1 {
                        assert(ts[j] == init[j]);
                    }
                }
                assert forall|j: int| i < j < n && contains(line, #[trigger] ts[j].0) implies utf8_len(
                    ts[j].0,
                ) < utf8_len(ts[i].0) by {
                    if j < n - 1 {
                        assert(ts[j] == init[j]);
                    }
                }
            }
        }
    }
}

/// A line in which link targets' identifiers occur links its target of
/// greatest identifier length in bytes (of several such, the last): every
/// occurrence of that identifier becomes a link to its page. The pick does
/// not depend on the order of the targets beyond ties of equal length.
pub proof fn lemma_linked_line_links_longest(ts: Seq<(Seq<char>, Seq<char>)>, line: Seq<char>)
    requires
        exists|j: int| 0 <= j < ts.len() && contains(line, #[trigger] ts[j].0),
    ensures
        exists|i: int|
            {
                &&& 0 <= i < ts.len()
                &&& contains(line, ts[i].0)
                &&& linked_line(ts, line) == replace_all(line, ts[i].0, link_text(ts[i].1))
                &&& forall|j: int|
                    0 <= j < ts.len() && contains(line, #[trigger] ts[j].0) ==> utf8_len(ts[j].0)
                        <= utf8_len(ts[i].0)
                &&& forall|j: int|
                    i < j < ts.len() && contains(line, #[trigger] ts[j].0) ==> utf8_len(ts[j].0)
                        < utf8_len(ts[i].0)
            },
{
    lemma_candidates_occur(ts, line);
    lemma_longest_candidate(ts, line);
}


/// Dropping the pairs with identifier "ARROW" from the pairs of the items
/// is taking the pairs of the items whose identifier is not "ARROW".
proof fn lemma_without_arrow_filter(items: Seq<Item>)
    ensures
        without_id(id_name_pairs(items), "ARROW"@) == items.filter(|it: Item| it.id@ != "ARROW"@).map_values(
            |it: Item| (it.id@, it.name@),
        ),
    decreases items.len(),
{
    reveal(Seq::filter);
    let keep = |it: Item| it.id@ != "ARROW"@;
    let pair = |it: Item| (it.id@, it.name@);
    let ps = id_name_pairs(items);
    if items.len() > 0 {
        let init = items.drop_last();
        lemma_without_arrow_filter(init);
        assert(ps.drop_last() =~= id_name_pairs(init));
        assert(ps.last() == pair(items.last()));
        let fi = init.filter(keep);
        if keep(items.last()) {
            assert(items.filter(keep) == fi.push(items.last()));
            assert(fi.push(items.last()).map_values(pair) =~= fi.map_values(pair).push(
                pair(items.last()),
            ));
        } else {
            assert(items.filter(keep) == fi);
        }
    } else {
        assert(items.filter(keep).map_values(pair) =~= Seq::<(Seq<char>, Seq<char>)>::empty());
    }
}

/// The link targets are the identifier and display name of every item, in
/// item order, except that the items with identifier "ARROW" are left out
/// when no item has the identifier "ETHEREAL ARROW".
pub proof fn lemma_link_targets(items: Seq<Item>)
    ensures
        (exists|i: int| 0 <= i < items.len() && (#[trigger] items[i]).id@ == "ETHEREAL ARROW"@)
            ==> link_targets(items) == items.map_values(|it: Item| (it.id@, it.name@)),
        !(exists|i: int| 0 <= i < items.len() && (#[trigger] items[i]).id@ == "ETHEREAL ARROW"@)
            ==> link_targets(items) == items.filter(|it: Item| it.id@ != "ARROW"@).map_values(
            |it: Item| (it.id@, it.name@),
        ),
{
    let ps = id_name_pairs(items);
    lemma_without_arrow_filter(items);
    if exists|i: int| 0 <= i < items.len() && (#[trigger] items[i]).id@ == "ETHEREAL ARROW"@ {
        let i = choose|i: int| 0 <= i < items.len() && (#[trigger] items[i]).id@ == "ETHEREAL ARROW"@;
        assert(ps[i].0 == "ETHEREAL ARROW"@);
    } else {
        assert forall|k: int| 0 <= k < ps.len() implies ps[k].0 != "ETHEREAL ARROW"@ by {
            assert(ps[k].0 == items[k].id@);
        }
    }
}


/// The second infobox field lists the item's types separated by ", ", and
/// an item with a cost has, after the rarity, the useCost field: its energy,
/// mana and gold (those present, in that order) as "<n> Energy", "<n> mana"
/// and "<n> Gold", separated by ", ".
pub proof fn lemma_infobox_type_and_cost(item: Item)
    ensures
        infobox_fields(item)[1] == ("type"@, join(item.types@.map_values(|t: String| t@), ", "@)),
        item.cost matches Some(c) ==> infobox_fields(item)[3] == (
            "useCost"@,
            join(
                (if c.energy is Some {
                    seq![decimal(c.energy->0 as int) + " Energy"@]
                } else {
                    seq![]
                }) + (if c.mana is Some {
                    seq![decimal(c.mana->0 as int) + " mana"@]
                } else {
                    seq![]
                }) + (if c.gold is Some {
                    seq![decimal(c.gold->0 as int) + " Gold"@]
                } else {
                    seq![]
                }),
                ", "@,
            ),
        ),
{
    if item.cost is Some {
        let c = item.cost->0;
        let words = (if c.energy is Some {
            seq![decimal(c.energy->0 as int) + " Energy"@]
        } else {
            seq![]
        }) + (if c.mana is Some {
            seq![decimal(c.mana->0 as int) + " mana"@]
        } else {
            seq![]
        }) + (if c.gold is Some {
            seq![decimal(c.gold->0 as int) + " Gold"@]
        } else {
            seq![]
        });
        assert(cost_words(c) =~= words);
    }
}


/// In the display name of an ASCII identifier, a character that follows a
/// character other than a space is lowercased; a character at the start or
/// after a space is uppercased unless it begins "of " (in any case), which
/// stays lowercase.
pub proof fn lemma_display_name_words(s: Seq<char>, r: Seq<char>)
    requires
        ascii_display_name(s, r),
    ensures
        forall|k: int|
            0 < k < s.len() && s[k - 1] != ' ' ==> (#[trigger] r[k]) as int == ascii_lower_code(
                s[k] as int,
            ),
        forall|k: int|
            0 <= k < s.len() && (k == 0 || s[k - 1] == ' ') ==> (#[trigger] r[k]) as int == if k
                + 3 <= s.len() && ascii_lower_code(s[k] as int) == 'o' as int && ascii_lower_code(
                s[k + 1] as int,
            ) == 'f' as int && s[k + 2] == ' ' {
                ascii_lower_code(s[k] as int)
            } else {
                ascii_upper_code(s[k] as int)
            },
{
}

} // verus!
