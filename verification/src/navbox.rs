//! The item navigation box of the wiki: every item linked from a table row
//! of its category and rarity.
use vstd::prelude::*;
use crate::backpack_db::{link_text, Item};
use crate::text::{
    append_chars, chars_of, decimal, decimal_of, join, join_chars, same_chars, string_of, views_of,
};
use crate::wikiparse::string_views;

verus! {

// ----------------------------------------------------------------------------
// Categories and rarities
// ----------------------------------------------------------------------------
/// The rarities, in the order of the rows.
pub open spec fn rarity_names() -> Seq<Seq<char>> {
    seq!["Common"@, "Uncommon"@, "Rare"@, "Legendary"@]
}

/// The number of categories.
pub const CATEGORY_COUNT: usize = 7;

/// The number of rarities.
pub const RARITY_COUNT: usize = 4;

/// The categories, in the order of the table: each with its name and the
/// item types that put an item in it; "Other" takes the items of no other
/// category.
pub open spec fn categories() -> Seq<(Seq<char>, Seq<Seq<char>>)> {
    seq![
        ("Weapon"@, seq!["Weapon"@, "Bow"@, "Wand"@]),
        ("Armor"@, seq!["Armor"@, "Shield"@, "Structure"@]),
        ("Accessory"@, seq!["Accessory"@, "Ingredient"@]),
        ("Consumable"@, seq!["Consumable"@]),
        ("Curse"@, seq!["Curse"@]),
        ("Relic"@, seq!["Relic"@]),
        ("Other"@, seq![]),
    ]
}

/// The position of the "Other" category.
pub open spec fn other_category() -> int {
    6
}

/// The item has one of the given types.
pub open spec fn has_a_type(item: Item, types: Seq<Seq<char>>) -> bool {
    exists|k: int| 0 <= k < types.len() && string_views(item.types@).contains(#[trigger] types[k])
}

/// The number of the categories before position `n` that the item's types match.
pub open spec fn matching_categories(item: Item, n: nat) -> nat
    decreases n,
{
    if n == 0 {
        0
    } else {
        matching_categories(item, (n - 1) as nat) + if has_a_type(item, categories()[n - 1].1) {
            1nat
        } else {
            0nat
        }
    }
}

/// The item's category: the first whose types it has, from position `k`
/// on; "Other" when there is none.
pub open spec fn category_from(item: Item, k: nat) -> int
    decreases 7 - k,
{
    if k >= 7 {
        other_category()
    } else if has_a_type(item, categories()[k as int].1) {
        k as int
    } else {
        category_from(item, k + 1)
    }
}

/// The position of the item's category.
pub open spec fn category_of(item: Item) -> int {
    category_from(item, 0)
}

/// The display names, in item order, of the items of category `c` and rarity `r`.
pub open spec fn row_names(items: Seq<Item>, c: int, r: Seq<char>) -> Seq<Seq<char>>
    decreases items.len(),
{
    if items.len() == 0 {
        seq![]
    } else {
        let rest = row_names(items.drop_last(), c, r);
        if category_of(items.last()) == c && items.last().rarity@ == r {
            rest.push(items.last().name@)
        } else {
            rest
        }
    }
}

/// The number of rarities before position `n` that category `c` has items of.
pub open spec fn row_count(items: Seq<Item>, c: int, n: nat) -> nat
    decreases n,
{
    if n == 0 {
        0
    } else {
        row_count(items, c, (n - 1) as nat) + if row_names(items, c, rarity_names()[n - 1]).len()
            > 0 {
            1nat
        } else {
            0nat
        }
    }
}

/// A category that may have a single row: "Curse", "Relic" or "Other".
pub open spec fn may_have_one_row(c: int) -> bool {
    c == 4 || c == 5 || c == 6
}

/// The items can be laid out: each matches at most one category and has one
/// of the four rarities, and a category with exactly one row is one that
/// may have a single row.
pub open spec fn navbox_ok(items: Seq<Item>) -> bool {
    &&& forall|i: int| 0 <= i < items.len() ==> matching_categories(#[trigger] items[i], 7) <= 1
    &&& forall|i: int| 0 <= i < items.len() ==> rarity_names().contains((#[trigger] items[i]).rarity@)
    &&& forall|c: int| 0 <= c < 7 && #[trigger] row_count(items, c, 4) == 1 ==> may_have_one_row(c)
}

// ----------------------------------------------------------------------------
// Ordering of names
// ----------------------------------------------------------------------------
/// `a` comes before `b` or equals it in the order of `str`: characters
/// compared by code point (the order of their UTF-8 bytes), a prefix first.
pub open spec fn lex_le(a: Seq<char>, b: Seq<char>) -> bool
    decreases a.len(),
{
    if a.len() == 0 {
        true
    } else if b.len() == 0 {
        false
    } else if a[0] != b[0] {
        (a[0] as int) < (b[0] as int)
    } else {
        lex_le(a.drop_first(), b.drop_first())
    }
}

/// `x` inserted into `s` before the first element that it comes before or equals.
pub open spec fn insert_sorted(x: Seq<char>, s: Seq<Seq<char>>) -> Seq<Seq<char>>
    decreases s.len(),
{
    if s.len() == 0 {
        seq![x]
    } else if lex_le(x, s[0]) {
        seq![x] + s
    } else {
        seq![s[0]] + insert_sorted(x, s.drop_first())
    }
}

/// The names in the order of `str`.
pub open spec fn sorted_names(s: Seq<Seq<char>>) -> Seq<Seq<char>>
    decreases s.len(),
{
    if s.len() == 0 {
        seq![]
    } else {
        insert_sorted(s.last(), sorted_names(s.drop_last()))
    }
}

/// Whether `a` comes before `b` or equals it in the order of `str`.
pub fn lex_le_chars(a: &Vec<char>, b: &Vec<char>) -> (r: bool)
    ensures
        r == lex_le(a@, b@),
{
    let mut k: usize = 0;
    assert(a@.skip(0) =~= a@ && b@.skip(0) =~= b@);
    while k < a.len() && k < b.len() && a[k] == b[k]
        invariant
            k <= a@.len(),
            k <= b@.len(),
            lex_le(a@, b@) == lex_le(a@.skip(k as int), b@.skip(k as int)),
        decreases a@.len() - k,
    {
        assert(a@.skip(k as int).drop_first() =~= a@.skip(k + 1));
        assert(b@.skip(k as int).drop_first() =~= b@.skip(k + 1));
        k += 1;
    }
    if k == a.len() {
        true
    } else if k == b.len() {
        false
    } else {
        assert(a@.skip(k as int)[0] == a@[k as int] && b@.skip(k as int)[0] == b@[k as int]);
        a[k] < b[k]
    }
}

/// Inserting before the first element that `x` comes before splits `s` there.
proof fn lemma_insert_sorted_at(x: Seq<char>, s: Seq<Seq<char>>, p: int)
    requires
        0 <= p <= s.len(),
        forall|k: int| 0 <= k < p ==> !lex_le(x, #[trigger] s[k]),
        p < s.len() ==> lex_le(x, s[p]),
    ensures
        insert_sorted(x, s) == s.take(p) + seq![x] + s.skip(p),
    decreases s.len(),
{
    if s.len() == 0 {
        assert(s.take(p) + seq![x] + s.skip(p) =~= seq![x]);
    } else if p == 0 {
        assert(s.take(p) + seq![x] + s.skip(p) =~= seq![x] + s);
    } else {
        assert(!lex_le(x, s[0]));
        let t = s.drop_first();
        assert forall|k: int| 0 <= k < p - 1 implies !lex_le(x, #[trigger] t[k]) by {
            assert(t[k] == s[k + 1]);
        }
        lemma_insert_sorted_at(x, t, p - 1);
        assert(s.take(p) + seq![x] + s.skip(p) =~= seq![s[0]] + (t.take(p - 1) + seq![x] + t.skip(
            p - 1,
        )));
    }
}

/// The names in the order of `str`, as `sorted_names` states.
pub fn sort_names(names: &Vec<Vec<char>>) -> (r: Vec<Vec<char>>)
    ensures
        views_of(r@) == sorted_names(views_of(names@)),
{
    let ghost nv = views_of(names@);
    let mut out: Vec<Vec<char>> = Vec::new();
    let n = names.len();
    for i in 0..n
        invariant
            n == names@.len(),
            nv == views_of(names@),
            views_of(out@) == sorted_names(nv.take(i as int)),
    {
        let ghost before = views_of(out@);
        let x = &names[i];
        let m = out.len();
        let mut p: usize = 0;
        while p < m && !lex_le_chars(x, &out[p])
            invariant
                m == out@.len(),
                p <= m,
                before == views_of(out@),
                forall|k: int| 0 <= k < p ==> !lex_le(x@, #[trigger] before[k]),
            decreases m - p,
        {
            p += 1;
        }
        proof {
            lemma_insert_sorted_at(x@, before, p as int);
            assert(nv.take(i + 1).drop_last() =~= nv.take(i as int));
            assert(nv.take(i + 1).last() == x@);
        }
        let copy = crate::text::sub_chars(x, 0, x.len());
        assert(copy@ =~= x@);
        out.insert(p, copy);
        assert(views_of(out@) =~= before.take(p as int) + seq![x@] + before.skip(p as int));
    }
    assert(nv.take(n as int) =~= nv);
    out
}


// ----------------------------------------------------------------------------
// The table text
// ----------------------------------------------------------------------------
/// The text of one row: the rarity header (or, when the category has a
/// single row, a cell spanning both columns), then the links to the items,
/// sorted by name and separated by bullets.
pub open spec fn row_text(one_row: bool, rarity: Seq<char>, names: Seq<Seq<char>>) -> Seq<char> {
    (if one_row {
        "| colspan=\"2\" "@
    } else {
        "! "@ + rarity + "\n"@
    }) + "| "@ + join(sorted_names(names).map_values(|n: Seq<char>| link_text(n)), " • "@)
        + " \n"@
}

/// The rows of category `c` for the rarities before position `n` that have
/// items, in the order of the rarities.
pub open spec fn category_rows(items: Seq<Item>, c: int, one_row: bool, n: nat) -> Seq<Seq<char>>
    decreases n,
{
    if n == 0 {
        seq![]
    } else {
        let rest = category_rows(items, c, one_row, (n - 1) as nat);
        let names = row_names(items, c, rarity_names()[n - 1]);
        if names.len() > 0 {
            rest.push(row_text(one_row, rarity_names()[n - 1], names))
        } else {
            rest
        }
    }
}

/// The block of category `c`: a row separator, the category header that
/// spans its rows, and its rows separated by row separators.
pub open spec fn category_block(items: Seq<Item>, c: int) -> Seq<char> {
    let count = row_count(items, c, 4);
    "|-\n"@ + "! width=\"10%\" rowspan=\""@ + decimal(count as int) + "\" | "@ + categories()[c].0
        + "\n"@ + join(category_rows(items, c, count == 1, 4), "|-\n"@)
}

/// The blocks of the categories before position `n`.
pub open spec fn navbox_blocks(items: Seq<Item>, n: nat) -> Seq<char>
    decreases n,
{
    if n == 0 {
        seq![]
    } else {
        navbox_blocks(items, (n - 1) as nat) + category_block(items, n - 1)
    }
}

/// The text of the navigation box table body for `items`.
pub open spec fn navbox(items: Seq<Item>) -> Seq<char> {
    navbox_blocks(items, 7)
}

// ----------------------------------------------------------------------------
// Implementations
// ----------------------------------------------------------------------------
/// The name of category `k`.
fn category_name(k: usize) -> (r: Vec<char>)
    requires
        k < CATEGORY_COUNT,
    ensures
        r@ == categories()[k as int].0,
{
    if k == 0 {
        chars_of("Weapon")
    } else if k == 1 {
        chars_of("Armor")
    } else if k == 2 {
        chars_of("Accessory")
    } else if k == 3 {
        chars_of("Consumable")
    } else if k == 4 {
        chars_of("Curse")
    } else if k == 5 {
        chars_of("Relic")
    } else {
        chars_of("Other")
    }
}

/// The item types of category `k`.
fn category_types(k: usize) -> (r: Vec<Vec<char>>)
    requires
        k < CATEGORY_COUNT,
    ensures
        views_of(r@) == categories()[k as int].1,
{
    let mut r: Vec<Vec<char>> = Vec::new();
    if k == 0 {
        r.push(chars_of("Weapon"));
        r.push(chars_of("Bow"));
        r.push(chars_of("Wand"));
    } else if k == 1 {
        r.push(chars_of("Armor"));
        r.push(chars_of("Shield"));
        r.push(chars_of("Structure"));
    } else if k == 2 {
        r.push(chars_of("Accessory"));
        r.push(chars_of("Ingredient"));
    } else if k == 3 {
        r.push(chars_of("Consumable"));
    } else if k == 4 {
        r.push(chars_of("Curse"));
    } else if k == 5 {
        r.push(chars_of("Relic"));
    }
    assert(views_of(r@) =~= categories()[k as int].1);
    r
}

/// The name of rarity `k`.
fn rarity_name(k: usize) -> (r: Vec<char>)
    requires
        k < RARITY_COUNT,
    ensures
        r@ == rarity_names()[k as int],
{
    if k == 0 {
        chars_of("Common")
    } else if k == 1 {
        chars_of("Uncommon")
    } else if k == 2 {
        chars_of("Rare")
    } else {
        chars_of("Legendary")
    }
}

/// Whether the item has one of `types`.
fn has_type_in(item: &Item, types: &Vec<Vec<char>>) -> (b: bool)
    ensures
        b == has_a_type(*item, views_of(types@)),
{
    let ghost tv = views_of(types@);
    let ghost iv = string_views(item.types@);
    let n = types.len();
    let m = item.types.len();
    for k in 0..n
        invariant
            n == types@.len(),
            m == item.types@.len(),
            tv == views_of(types@),
            iv == string_views(item.types@),
            forall|q: int| 0 <= q < k ==> !iv.contains(#[trigger] tv[q]),
    {
        for j in 0..m
            invariant
                n == types@.len(),
                m == item.types@.len(),
                k < n,
                tv == views_of(types@),
                iv == string_views(item.types@),
                forall|p: int| 0 <= p < j ==> #[trigger] iv[p] != tv[k as int],
        {
            let t = chars_of(item.types[j].as_str());
            if same_chars(&t, &types[k]) {
                assert(iv[j as int] == tv[k as int]);
                assert(iv.contains(tv[k as int]));
                return true;
            }
        }
        assert(!iv.contains(tv[k as int]));
    }
    false
}

/// The position of the item's category and the number of categories whose
/// types it has.
fn category_index(item: &Item) -> (r: (usize, usize))
    ensures
        r.0 == category_of(*item),
        r.1 == matching_categories(*item, 7),
{
    let mut first: usize = 6;
    let mut found = false;
    let mut count: usize = 0;
    let mut k: usize = 0;
    while k < CATEGORY_COUNT
        invariant
            k <= 7,
            count == matching_categories(*item, k as nat),
            count <= k,
            found ==> first == category_of(*item),
            !found ==> category_of(*item) == category_from(*item, k as nat) && first == 6,
        decreases 7 - k,
    {
        let types = category_types(k);
        if has_type_in(item, &types) {
            count += 1;
            if !found {
                found = true;
                first = k;
            }
        }
        k += 1;
    }
    assert(!found ==> category_from(*item, 7) == other_category());
    (first, count)
}

/// Whether the item's rarity is one of the four.
fn rarity_known(item: &Item) -> (b: bool)
    ensures
        b == rarity_names().contains(item.rarity@),
{
    let r = chars_of(item.rarity.as_str());
    for k in 0..RARITY_COUNT
        invariant
            r@ == item.rarity@,
            forall|q: int| 0 <= q < k ==> #[trigger] rarity_names()[q] != item.rarity@,
    {
        let name = rarity_name(k);
        if same_chars(&r, &name) {
            return true;
        }
    }
    false
}

/// The category positions of the items.
fn categories_of(items: &Vec<Item>) -> (r: Vec<usize>)
    ensures
        r@.len() == items@.len(),
        forall|i: int| 0 <= i < items@.len() ==> #[trigger] r@[i] == category_of(items@[i]),
{
    let mut r: Vec<usize> = Vec::new();
    let n = items.len();
    for i in 0..n
        invariant
            n == items@.len(),
            r@.len() == i,
            forall|q: int| 0 <= q < i ==> #[trigger] r@[q] == category_of(items@[q]),
    {
        let (c, _) = category_index(&items[i]);
        r.push(c);
    }
    r
}

/// The display names of the items of category `c` and rarity `rarity`, in item order.
fn row_names_of(items: &Vec<Item>, cats: &Vec<usize>, c: usize, rarity: &Vec<char>) -> (r: Vec<
    Vec<char>,
>)
    requires
        cats@.len() == items@.len(),
        forall|i: int| 0 <= i < items@.len() ==> #[trigger] cats@[i] == category_of(items@[i]),
    ensures
        views_of(r@) == row_names(items@, c as int, rarity@),
{
    let mut r: Vec<Vec<char>> = Vec::new();
    let n = items.len();
    for i in 0..n
        invariant
            n == items@.len(),
            cats@.len() == n,
            forall|q: int| 0 <= q < n ==> #[trigger] cats@[q] == category_of(items@[q]),
            views_of(r@) == row_names(items@.take(i as int), c as int, rarity@),
    {
        let ghost before = views_of(r@);
        assert(items@.take(i + 1).drop_last() =~= items@.take(i as int));
        assert(items@.take(i + 1).last() == items@[i as int]);
        let it = &items[i];
        let rv = chars_of(it.rarity.as_str());
        if cats[i] == c && same_chars(&rv, rarity) {
            let name = chars_of(it.name.as_str());
            r.push(name);
            assert(views_of(r@) =~= before.push(it.name@));
        }
    }
    assert(items@.take(n as int) =~= items@);
    r
}

/// The rows of category `c`, one list of names per rarity, and the number
/// of rarities that have items.
fn rows_of_category(items: &Vec<Item>, cats: &Vec<usize>, c: usize) -> (r: (
    Vec<Vec<Vec<char>>>,
    usize,
))
    requires
        cats@.len() == items@.len(),
        forall|i: int| 0 <= i < items@.len() ==> #[trigger] cats@[i] == category_of(items@[i]),
    ensures
        r.0@.len() == 4,
        forall|k: int|
            0 <= k < 4 ==> views_of(#[trigger] r.0@[k]@) == row_names(
                items@,
                c as int,
                rarity_names()[k],
            ),
        r.1 == row_count(items@, c as int, 4),
        r.1 <= 4,
{
    let mut rows: Vec<Vec<Vec<char>>> = Vec::new();
    let mut count: usize = 0;
    for k in 0..RARITY_COUNT
        invariant
            cats@.len() == items@.len(),
            forall|i: int| 0 <= i < items@.len() ==> #[trigger] cats@[i] == category_of(items@[i]),
            rows@.len() == k,
            forall|q: int|
                0 <= q < k ==> views_of(#[trigger] rows@[q]@) == row_names(
                    items@,
                    c as int,
                    rarity_names()[q],
                ),
            count == row_count(items@, c as int, k as nat),
            count <= k,
    {
        let rarity = rarity_name(k);
        let names = row_names_of(items, cats, c, &rarity);
        if names.len() > 0 {
            count += 1;
        }
        rows.push(names);
    }
    (rows, count)
}

/// Whether the items can be laid out in the navigation box.
pub fn navbox_input_ok(items: &Vec<Item>) -> (b: bool)
    ensures
        b == navbox_ok(items@),
{
    let n = items.len();
    for i in 0..n
        invariant
            n == items@.len(),
            forall|q: int| 0 <= q < i ==> matching_categories(#[trigger] items@[q], 7) <= 1,
            forall|q: int| 0 <= q < i ==> rarity_names().contains((#[trigger] items@[q]).rarity@),
    {
        let (_, matches) = category_index(&items[i]);
        if matches > 1 || !rarity_known(&items[i]) {
            return false;
        }
    }
    let cats = categories_of(items);
    for c in 0..CATEGORY_COUNT
        invariant
            cats@.len() == items@.len(),
            forall|i: int| 0 <= i < items@.len() ==> #[trigger] cats@[i] == category_of(items@[i]),
            forall|q: int| 0 <= q < c && #[trigger] row_count(items@, q, 4) == 1 ==> may_have_one_row(q),
    {
        let (_, count) = rows_of_category(items, &cats, c);
        if count == 1 && !(c == 4 || c == 5 || c == 6) {
            return false;
        }
    }
    true
}

/// The text of one row, as `row_text` states.
fn row_text_of(one_row: bool, rarity: &Vec<char>, names: &Vec<Vec<char>>) -> (r: Vec<char>)
    ensures
        r@ == row_text(one_row, rarity@, views_of(names@)),
{
    let sorted = sort_names(names);
    let ghost sv = views_of(sorted@);
    let mut links: Vec<Vec<char>> = Vec::new();
    let n = sorted.len();
    for i in 0..n
        invariant
            n == sorted@.len(),
            sv == views_of(sorted@),
            views_of(links@) == sv.take(i as int).map_values(|s: Seq<char>| link_text(s)),
    {
        let mut l = chars_of("[[");
        append_chars(&mut l, &sorted[i]);
        let close = chars_of("]]");
        append_chars(&mut l, &close);
        assert(sv[i as int] == sorted@[i as int]@);
        assert(l@ == link_text(sv[i as int]));
        let ghost before = views_of(links@);
        links.push(l);
        assert(views_of(links@) =~= before.push(l@));
        assert(sv.take(i + 1) =~= sv.take(i as int).push(sv[i as int]));
        assert(views_of(links@) =~= sv.take(i + 1).map_values(|s: Seq<char>| link_text(s)));
    }
    assert(sv.take(n as int) =~= sv);
    let mut out = if one_row {
        chars_of("| colspan=\"2\" ")
    } else {
        let mut h = chars_of("! ");
        append_chars(&mut h, rarity);
        let nl = chars_of("\n");
        append_chars(&mut h, &nl);
        h
    };
    let bar = chars_of("| ");
    append_chars(&mut out, &bar);
    let sep = chars_of(" • ");
    let body = join_chars(&links, &sep);
    append_chars(&mut out, &body);
    let tail = chars_of(" \n");
    append_chars(&mut out, &tail);
    out
}

/// The block of category `c`, as `category_block` states.
fn category_block_of(items: &Vec<Item>, cats: &Vec<usize>, c: usize) -> (r: Vec<char>)
    requires
        c < CATEGORY_COUNT,
        cats@.len() == items@.len(),
        forall|i: int| 0 <= i < items@.len() ==> #[trigger] cats@[i] == category_of(items@[i]),
    ensures
        r@ == category_block(items@, c as int),
{
    let (rows, count) = rows_of_category(items, cats, c);
    let one_row = count == 1;
    let mut texts: Vec<Vec<char>> = Vec::new();
    for k in 0..RARITY_COUNT
        invariant
            rows@.len() == 4,
            forall|q: int|
                0 <= q < 4 ==> views_of(#[trigger] rows@[q]@) == row_names(
                    items@,
                    c as int,
                    rarity_names()[q],
                ),
            views_of(texts@) == category_rows(items@, c as int, one_row, k as nat),
    {
        let ghost before = views_of(texts@);
        assert(views_of(rows@[k as int]@).len() == rows@[k as int]@.len());
        if rows[k].len() > 0 {
            let rarity = rarity_name(k);
            let t = row_text_of(one_row, &rarity, &rows[k]);
            texts.push(t);
            assert(views_of(texts@) =~= before.push(t@));
        }
    }
    let mut out = chars_of("|-\n");
    let head = chars_of("! width=\"10%\" rowspan=\"");
    append_chars(&mut out, &head);
    let num = decimal_of(count as i32);
    append_chars(&mut out, &num);
    let mid = chars_of("\" | ");
    append_chars(&mut out, &mid);
    let name = category_name(c);
    append_chars(&mut out, &name);
    let nl = chars_of("\n");
    append_chars(&mut out, &nl);
    let sep = chars_of("|-\n");
    let body = join_chars(&texts, &sep);
    append_chars(&mut out, &body);
    assert(out@ =~= "|-\n"@ + "! width=\"10%\" rowspan=\""@ + decimal(count as int) + "\" | "@
        + categories()[c as int].0 + "\n"@ + join(category_rows(items@, c as int, one_row, 4), "|-\n"@));
    out
}

/// The text of the navigation box table body: for each category, in order,
/// its header and one row per rarity that has items of it.
pub fn render_navbox(items: &Vec<Item>) -> (r: String)
    requires
        navbox_ok(items@),
    ensures
        r@ == navbox(items@),
{
    let cats = categories_of(items);
    let mut out: Vec<char> = Vec::new();
    for c in 0..CATEGORY_COUNT
        invariant
            cats@.len() == items@.len(),
            forall|i: int| 0 <= i < items@.len() ==> #[trigger] cats@[i] == category_of(items@[i]),
            out@ == navbox_blocks(items@, c as nat),
    {
        let block = category_block_of(items, &cats, c);
        append_chars(&mut out, &block);
    }
    string_of(&out)
}


// ----------------------------------------------------------------------------
// Laws
// ----------------------------------------------------------------------------
/// Every two names are ordered one way or the other.
pub proof fn lemma_lex_le_total(a: Seq<char>, b: Seq<char>)
    ensures
        lex_le(a, b) || lex_le(b, a),
    decreases a.len(),
{
    if a.len() > 0 && b.len() > 0 {
        if a[0] == b[0] {
            lemma_lex_le_total(a.drop_first(), b.drop_first());
        } else {
            assert((a[0] as int) != (b[0] as int));
        }
    }
}

/// The order of names is transitive.
pub proof fn lemma_lex_le_transitive(a: Seq<char>, b: Seq<char>, c: Seq<char>)
    requires
        lex_le(a, b),
        lex_le(b, c),
    ensures
        lex_le(a, c),
    decreases a.len(),
{
    if a.len() > 0 && b.len() > 0 && c.len() > 0 && a[0] == b[0] && b[0] == c[0] {
        lemma_lex_le_transitive(a.drop_first(), b.drop_first(), c.drop_first());
    }
}

/// The names of `s` are in the order of `str`.
pub open spec fn names_in_order(s: Seq<Seq<char>>) -> bool {
    forall|i: int, j: int| 0 <= i < j < s.len() ==> lex_le(#[trigger] s[i], #[trigger] s[j])
}

/// A name that comes before `x` and all of `t` comes before all of `insert_sorted(x, t)`.
proof fn lemma_insert_sorted_lower(lo: Seq<char>, x: Seq<char>, t: Seq<Seq<char>>)
    requires
        lex_le(lo, x),
        forall|k: int| 0 <= k < t.len() ==> lex_le(lo, #[trigger] t[k]),
    ensures
        insert_sorted(x, t).len() == t.len() + 1,
        forall|k: int| 0 <= k < t.len() + 1 ==> lex_le(lo, #[trigger] insert_sorted(x, t)[k]),
    decreases t.len(),
{
    if t.len() > 0 && !lex_le(x, t[0]) {
        let u = t.drop_first();
        assert(insert_sorted(x, t) == seq![t[0]] + insert_sorted(x, u));
        assert forall|k: int| 0 <= k < u.len() implies lex_le(lo, #[trigger] u[k]) by {
            assert(u[k] == t[k + 1]);
        }
        lemma_insert_sorted_lower(lo, x, u);
        assert forall|k: int| 0 <= k < t.len() + 1 implies lex_le(
            lo,
            #[trigger] insert_sorted(x, t)[k],
        ) by {
            if k > 0 {
                assert(insert_sorted(x, t)[k] == insert_sorted(x, u)[k - 1]);
            }
        }
    }
}

/// Inserting a name into names in order keeps them in order, and adds one name.
pub proof fn lemma_insert_sorted_in_order(x: Seq<char>, s: Seq<Seq<char>>)
    requires
        names_in_order(s),
    ensures
        names_in_order(insert_sorted(x, s)),
        insert_sorted(x, s).len() == s.len() + 1,
    decreases s.len(),
{
    if s.len() == 0 {
    } else if lex_le(x, s[0]) {
        let r = seq![x] + s;
        assert forall|i: int, j: int| 0 <= i < j < r.len() implies lex_le(
            #[trigger] r[i],
            #[trigger] r[j],
        ) by {
            if i == 0 {
                assert(r[j] == s[j - 1]);
                if j > 1 {
                    assert(lex_le(s[0], s[j - 1]));
                    lemma_lex_le_transitive(x, s[0], s[j - 1]);
                }
            } else {
                assert(r[i] == s[i - 1] && r[j] == s[j - 1]);
            }
        }
    } else {
        let t = s.drop_first();
        assert forall|i: int, j: int| 0 <= i < j < t.len() implies lex_le(
            #[trigger] t[i],
            #[trigger] t[j],
        ) by {
            assert(t[i] == s[i + 1] && t[j] == s[j + 1]);
        }
        lemma_insert_sorted_in_order(x, t);
        lemma_lex_le_total(x, s[0]);
        assert forall|k: int| 0 <= k < t.len() implies lex_le(s[0], #[trigger] t[k]) by {
            assert(t[k] == s[k + 1]);
        }
        lemma_insert_sorted_lower(s[0], x, t);
        let u = insert_sorted(x, t);
        let r = insert_sorted(x, s);
        assert(r == seq![s[0]] + u);
        assert forall|i: int, j: int| 0 <= i < j < r.len() implies lex_le(
            #[trigger] r[i],
            #[trigger] r[j],
        ) by {
            assert(r[j] == u[j - 1]);
            if i > 0 {
                assert(r[i] == u[i - 1]);
            }
        }
    }
}

/// The names of a row come out in the order of `str`.
pub proof fn lemma_sorted_names_in_order(s: Seq<Seq<char>>)
    ensures
        names_in_order(sorted_names(s)),
        sorted_names(s).len() == s.len(),
    decreases s.len(),
{
    if s.len() > 0 {
        lemma_sorted_names_in_order(s.drop_last());
        lemma_insert_sorted_in_order(s.last(), sorted_names(s.drop_last()));
    }
}

/// Inserting a name adds it to the names, and takes none away.
pub proof fn lemma_insert_sorted_same_names(x: Seq<char>, s: Seq<Seq<char>>)
    ensures
        insert_sorted(x, s).to_multiset() == s.to_multiset().insert(x),
    decreases s.len(),
{
    broadcast use vstd::multiset::group_multiset_axioms;
    broadcast use vstd::seq_lib::to_multiset_build;
    broadcast use vstd::seq_lib::to_multiset_insert;

    if s.len() == 0 {
        assert(seq![x] =~= s.push(x));
    } else if lex_le(x, s[0]) {
        assert(seq![x] + s =~= s.insert(0, x));
    } else {
        let t = s.drop_first();
        lemma_insert_sorted_same_names(x, t);
        let u = insert_sorted(x, t);
        assert(s =~= t.insert(0, s[0]));
        assert(seq![s[0]] + u =~= u.insert(0, s[0]));
        assert(t.to_multiset().insert(x).insert(s[0]) =~= t.to_multiset().insert(s[0]).insert(x));
    }
}

/// Sorting a row keeps its names: each as often as before.
pub proof fn lemma_sorted_names_same_names(s: Seq<Seq<char>>)
    ensures
        sorted_names(s).to_multiset() == s.to_multiset(),
    decreases s.len(),
{
    broadcast use vstd::seq_lib::to_multiset_build;

    if s.len() == 0 {
        assert(sorted_names(s).to_multiset() =~= s.to_multiset()) by {
            assert(sorted_names(s) =~= s);
        }
    } else {
        lemma_sorted_names_same_names(s.drop_last());
        lemma_insert_sorted_same_names(s.last(), sorted_names(s.drop_last()));
        assert(s =~= s.drop_last().push(s.last()));
    }
}

/// A name is in the row of category `c` and rarity `r` exactly when an item
/// of that category and rarity has it as its display name.
pub proof fn lemma_row_names_are_the_items(items: Seq<Item>, c: int, r: Seq<char>, name: Seq<char>)
    ensures
        row_names(items, c, r).contains(name) <==> exists|i: int|
            0 <= i < items.len() && category_of(#[trigger] items[i]) == c && items[i].rarity@ == r
                && items[i].name@ == name,
    decreases items.len(),
{
    if items.len() > 0 {
        let init = items.drop_last();
        lemma_row_names_are_the_items(init, c, r, name);
        let last = items.len() - 1;
        if row_names(items, c, r).contains(name) {
            if row_names(init, c, r).contains(name) {
                let i = choose|i: int|
                    0 <= i < init.len() && category_of(#[trigger] init[i]) == c && init[i].rarity@
                        == r && init[i].name@ == name;
                assert(items[i] == init[i]);
            } else {
                let k = choose|k: int|
                    0 <= k < row_names(items, c, r).len() && row_names(items, c, r)[k] == name;
                assert(row_names(items, c, r) =~= row_names(init, c, r).push(items[last].name@));
                if k < row_names(init, c, r).len() {
                    assert(row_names(init, c, r)[k] == name);
                }
                assert(items[last] == items.last());
            }
        } else {
            assert forall|i: int|
                0 <= i < items.len() && category_of(#[trigger] items[i]) == c && items[i].rarity@
                    == r implies items[i].name@ != name by {
                if i < last {
                    assert(items[i] == init[i]);
                    if items[i].name@ == name {
                        assert(row_names(init, c, r).contains(name));
                        let k = choose|k: int|
                            0 <= k < row_names(init, c, r).len() && row_names(init, c, r)[k]
                                == name;
                        assert(row_names(items, c, r) =~= row_names(init, c, r).push(
                            items.last().name@,
                        ));
                        assert(row_names(items, c, r)[k] == name);
                    }
                } else if items[i].name@ == name {
                    let rn = row_names(items, c, r);
                    assert(items[i] == items.last());
                    assert(rn =~= row_names(init, c, r).push(items.last().name@));
                    assert(rn[rn.len() - 1] == name);
                }
            }
        }
    }
}

/// The item has the types of category `k`.
pub open spec fn in_category(item: Item, k: int) -> bool {
    has_a_type(item, categories()[k].1)
}

/// Counting matching categories over a longer prefix counts at least as many.
proof fn lemma_matching_grows(item: Item, m: nat, n: nat)
    requires
        m <= n,
    ensures
        matching_categories(item, m) <= matching_categories(item, n),
        m < n && in_category(item, m as int) ==> matching_categories(item, m) + 1
            <= matching_categories(item, n),
    decreases n - m,
{
    if m < n {
        lemma_matching_grows(item, m, (n - 1) as nat);
        if m + 1 <= n - 1 {
            lemma_matching_grows(item, (m + 1) as nat, (n - 1) as nat);
        }
    }
}

/// The category found from position `m` on is the first one whose types
/// the item has, or "Other" when it has none of theirs.
proof fn lemma_category_from_first(item: Item, m: nat)
    requires
        m <= 7,
    ensures
        (exists|k: int| m <= k < 7 && #[trigger] in_category(item, k)) ==> {
            &&& m <= category_from(item, m) < 7
            &&& in_category(item, category_from(item, m))
            &&& forall|k: int| m <= k < category_from(item, m) ==> !#[trigger] in_category(item, k)
        },
        !(exists|k: int| m <= k < 7 && #[trigger] in_category(item, k)) ==> category_from(item, m)
            == other_category(),
    decreases 7 - m,
{
    if m < 7 {
        lemma_category_from_first(item, m + 1);
        if !in_category(item, m as int) {
            assert forall|k: int| m <= k < 7 && #[trigger] in_category(item, k) implies m + 1 <= k by {}
        }
    }
}

/// An item whose types match at most one category lands in the category
/// whose types it has, and in "Other" when it has none of theirs.
pub proof fn lemma_item_lands_in_its_category(item: Item, k: int)
    requires
        matching_categories(item, 7) <= 1,
        0 <= k < 6,
    ensures
        category_of(item) == k <==> in_category(item, k),
        category_of(item) == other_category() <==> forall|q: int|
            0 <= q < 6 ==> !#[trigger] in_category(item, q),
{
    lemma_category_from_first(item, 0);
    let j = category_of(item);
    assert(!in_category(item, 6));
    if in_category(item, k) {
        assert(0 <= j <= k);
        if j < k {
            lemma_matching_grows(item, j as nat, k as nat);
            lemma_matching_grows(item, k as nat, 7);
            assert(matching_categories(item, j as nat) + 1 <= matching_categories(item, k as nat));
            assert(matching_categories(item, k as nat) + 1 <= matching_categories(item, 7));
        }
    }
    if exists|q: int| 0 <= q < 7 && #[trigger] in_category(item, q) {
        let q = choose|q: int| 0 <= q < 7 && #[trigger] in_category(item, q);
        assert(q < 6);
    }
}


/// The category that an item type puts an item in: Weapon, Bow and Wand
/// make a weapon; Armor, Shield and Structure armor; Accessory and
/// Ingredient an accessory; Consumable, Curse and Relic their namesakes;
/// any other type none.
pub open spec fn category_of_type(t: Seq<char>) -> Option<Seq<char>> {
    if t == "Weapon"@ || t == "Bow"@ || t == "Wand"@ {
        Some("Weapon"@)
    } else if t == "Armor"@ || t == "Shield"@ || t == "Structure"@ {
        Some("Armor"@)
    } else if t == "Accessory"@ || t == "Ingredient"@ {
        Some("Accessory"@)
    } else if t == "Consumable"@ {
        Some("Consumable"@)
    } else if t == "Curse"@ {
        Some("Curse"@)
    } else if t == "Relic"@ {
        Some("Relic"@)
    } else {
        None
    }
}

/// The table's categories are the categories of the types, each with
/// exactly the types that put an item in it, and "Other" last with none.
proof fn lemma_categories_by_type(k: int, t: Seq<char>)
    requires
        0 <= k < 7,
    ensures
        categories()[k].1.contains(t) <==> (k < 6 && category_of_type(t) == Some(categories()[k].0)),
        category_of_type(t) is Some ==> exists|q: int|
            0 <= q < 6 && category_of_type(t) == Some(#[trigger] categories()[q].0),
        categories()[6].0 == "Other"@,
        forall|q: int| 0 <= q < 7 && q != k ==> #[trigger] categories()[q].0 != categories()[k].0,
{
    reveal_strlit("Weapon");
    reveal_strlit("Bow");
    reveal_strlit("Wand");
    reveal_strlit("Armor");
    reveal_strlit("Shield");
    reveal_strlit("Structure");
    reveal_strlit("Accessory");
    reveal_strlit("Ingredient");
    reveal_strlit("Consumable");
    reveal_strlit("Curse");
    reveal_strlit("Relic");
    reveal_strlit("Other");
    let cs = categories();
    assert(cs[0].1 =~= seq!["Weapon"@, "Bow"@, "Wand"@]);
    assert(cs[1].1 =~= seq!["Armor"@, "Shield"@, "Structure"@]);
    assert(cs[2].1 =~= seq!["Accessory"@, "Ingredient"@]);
    assert(cs[3].1 =~= seq!["Consumable"@]);
    assert(cs[4].1 =~= seq!["Curse"@]);
    assert(cs[5].1 =~= seq!["Relic"@]);
    assert(cs[6].1 =~= Seq::<Seq<char>>::empty());
    if category_of_type(t) is Some {
        if category_of_type(t) == Some("Weapon"@) {
            assert(category_of_type(t) == Some(cs[0].0));
        } else if category_of_type(t) == Some("Armor"@) {
            assert(category_of_type(t) == Some(cs[1].0));
        } else if category_of_type(t) == Some("Accessory"@) {
            assert(category_of_type(t) == Some(cs[2].0));
        } else if category_of_type(t) == Some("Consumable"@) {
            assert(category_of_type(t) == Some(cs[3].0));
        } else if category_of_type(t) == Some("Curse"@) {
            assert(category_of_type(t) == Some(cs[4].0));
        } else {
            assert(category_of_type(t) == Some(cs[5].0));
        }
    }
    assert("Weapon"@ != "Armor"@) by { assert("Weapon"@.len() != "Armor"@.len() || "Weapon"@[0] != "Armor"@[0]); }
    assert("Weapon"@ != "Accessory"@) by { assert("Weapon"@.len() != "Accessory"@.len() || "Weapon"@[0] != "Accessory"@[0]); }
    assert("Weapon"@ != "Consumable"@) by { assert("Weapon"@.len() != "Consumable"@.len() || "Weapon"@[0] != "Consumable"@[0]); }
    assert("Weapon"@ != "Curse"@) by { assert("Weapon"@.len() != "Curse"@.len() || "Weapon"@[0] != "Curse"@[0]); }
    assert("Weapon"@ != "Relic"@) by { assert("Weapon"@.len() != "Relic"@.len() || "Weapon"@[0] != "Relic"@[0]); }
    assert("Weapon"@ != "Other"@) by { assert("Weapon"@.len() != "Other"@.len() || "Weapon"@[0] != "Other"@[0]); }
    assert("Armor"@ != "Accessory"@) by { assert("Armor"@.len() != "Accessory"@.len() || "Armor"@[0] != "Accessory"@[0]); }
    assert("Armor"@ != "Consumable"@) by { assert("Armor"@.len() != "Consumable"@.len() || "Armor"@[0] != "Consumable"@[0]); }
    assert("Armor"@ != "Curse"@) by { assert("Armor"@.len() != "Curse"@.len() || "Armor"@[0] != "Curse"@[0]); }
    assert("Armor"@ != "Relic"@) by { assert("Armor"@.len() != "Relic"@.len() || "Armor"@[0] != "Relic"@[0]); }
    assert("Armor"@ != "Other"@) by { assert("Armor"@.len() != "Other"@.len() || "Armor"@[0] != "Other"@[0]); }
    assert("Accessory"@ != "Consumable"@) by { assert("Accessory"@.len() != "Consumable"@.len() || "Accessory"@[0] != "Consumable"@[0]); }
    assert("Accessory"@ != "Curse"@) by { assert("Accessory"@.len() != "Curse"@.len() || "Accessory"@[0] != "Curse"@[0]); }
    assert("Accessory"@ != "Relic"@) by { assert("Accessory"@.len() != "Relic"@.len() || "Accessory"@[0] != "Relic"@[0]); }
    assert("Accessory"@ != "Other"@) by { assert("Accessory"@.len() != "Other"@.len() || "Accessory"@[0] != "Other"@[0]); }
    assert("Consumable"@ != "Curse"@) by { assert("Consumable"@.len() != "Curse"@.len() || "Consumable"@[0] != "Curse"@[0]); }
    assert("Consumable"@ != "Relic"@) by { assert("Consumable"@.len() != "Relic"@.len() || "Consumable"@[0] != "Relic"@[0]); }
    assert("Consumable"@ != "Other"@) by { assert("Consumable"@.len() != "Other"@.len() || "Consumable"@[0] != "Other"@[0]); }
    assert("Curse"@ != "Relic"@) by { assert("Curse"@.len() != "Relic"@.len() || "Curse"@[0] != "Relic"@[0]); }
    assert("Curse"@ != "Other"@) by { assert("Curse"@.len() != "Other"@.len() || "Curse"@[0] != "Other"@[0]); }
    assert("Relic"@ != "Other"@) by { assert("Relic"@.len() != "Other"@.len() || "Relic"@[0] != "Other"@[0]); }
    assert("Weapon"@ != "Bow"@) by { assert("Weapon"@.len() != "Bow"@.len() || "Weapon"@[0] != "Bow"@[0] || "Weapon"@[1] != "Bow"@[1]); }
    assert("Weapon"@ != "Wand"@) by { assert("Weapon"@.len() != "Wand"@.len() || "Weapon"@[0] != "Wand"@[0] || "Weapon"@[1] != "Wand"@[1]); }
    assert("Weapon"@ != "Armor"@) by { assert("Weapon"@.len() != "Armor"@.len() || "Weapon"@[0] != "Armor"@[0] || "Weapon"@[1] != "Armor"@[1]); }
    assert("Weapon"@ != "Shield"@) by { assert("Weapon"@.len() != "Shield"@.len() || "Weapon"@[0] != "Shield"@[0] || "Weapon"@[1] != "Shield"@[1]); }
    assert("Weapon"@ != "Structure"@) by { assert("Weapon"@.len() != "Structure"@.len() || "Weapon"@[0] != "Structure"@[0] || "Weapon"@[1] != "Structure"@[1]); }
    assert("Weapon"@ != "Accessory"@) by { assert("Weapon"@.len() != "Accessory"@.len() || "Weapon"@[0] != "Accessory"@[0] || "Weapon"@[1] != "Accessory"@[1]); }
    assert("Weapon"@ != "Ingredient"@) by { assert("Weapon"@.len() != "Ingredient"@.len() || "Weapon"@[0] != "Ingredient"@[0] || "Weapon"@[1] != "Ingredient"@[1]); }
    assert("Weapon"@ != "Consumable"@) by { assert("Weapon"@.len() != "Consumable"@.len() || "Weapon"@[0] != "Consumable"@[0] || "Weapon"@[1] != "Consumable"@[1]); }
    assert("Weapon"@ != "Curse"@) by { assert("Weapon"@.len() != "Curse"@.len() || "Weapon"@[0] != "Curse"@[0] || "Weapon"@[1] != "Curse"@[1]); }
    assert("Weapon"@ != "Relic"@) by { assert("Weapon"@.len() != "Relic"@.len() || "Weapon"@[0] != "Relic"@[0] || "Weapon"@[1] != "Relic"@[1]); }
    assert("Bow"@ != "Wand"@) by { assert("Bow"@.len() != "Wand"@.len() || "Bow"@[0] != "Wand"@[0] || "Bow"@[1] != "Wand"@[1]); }
    assert("Bow"@ != "Armor"@) by { assert("Bow"@.len() != "Armor"@.len() || "Bow"@[0] != "Armor"@[0] || "Bow"@[1] != "Armor"@[1]); }
    assert("Bow"@ != "Shield"@) by { assert("Bow"@.len() != "Shield"@.len() || "Bow"@[0] != "Shield"@[0] || "Bow"@[1] != "Shield"@[1]); }
    assert("Bow"@ != "Structure"@) by { assert("Bow"@.len() != "Structure"@.len() || "Bow"@[0] != "Structure"@[0] || "Bow"@[1] != "Structure"@[1]); }
    assert("Bow"@ != "Accessory"@) by { assert("Bow"@.len() != "Accessory"@.len() || "Bow"@[0] != "Accessory"@[0] || "Bow"@[1] != "Accessory"@[1]); }
    assert("Bow"@ != "Ingredient"@) by { assert("Bow"@.len() != "Ingredient"@.len() || "Bow"@[0] != "Ingredient"@[0] || "Bow"@[1] != "Ingredient"@[1]); }
    assert("Bow"@ != "Consumable"@) by { assert("Bow"@.len() != "Consumable"@.len() || "Bow"@[0] != "Consumable"@[0] || "Bow"@[1] != "Consumable"@[1]); }
    assert("Bow"@ != "Curse"@) by { assert("Bow"@.len() != "Curse"@.len() || "Bow"@[0] != "Curse"@[0] || "Bow"@[1] != "Curse"@[1]); }
    assert("Bow"@ != "Relic"@) by { assert("Bow"@.len() != "Relic"@.len() || "Bow"@[0] != "Relic"@[0] || "Bow"@[1] != "Relic"@[1]); }
    assert("Wand"@ != "Armor"@) by { assert("Wand"@.len() != "Armor"@.len() || "Wand"@[0] != "Armor"@[0] || "Wand"@[1] != "Armor"@[1]); }
    assert("Wand"@ != "Shield"@) by { assert("Wand"@.len() != "Shield"@.len() || "Wand"@[0] != "Shield"@[0] || "Wand"@[1] != "Shield"@[1]); }
    assert("Wand"@ != "Structure"@) by { assert("Wand"@.len() != "Structure"@.len() || "Wand"@[0] != "Structure"@[0] || "Wand"@[1] != "Structure"@[1]); }
    assert("Wand"@ != "Accessory"@) by { assert("Wand"@.len() != "Accessory"@.len() || "Wand"@[0] != "Accessory"@[0] || "Wand"@[1] != "Accessory"@[1]); }
    assert("Wand"@ != "Ingredient"@) by { assert("Wand"@.len() != "Ingredient"@.len() || "Wand"@[0] != "Ingredient"@[0] || "Wand"@[1] != "Ingredient"@[1]); }
    assert("Wand"@ != "Consumable"@) by { assert("Wand"@.len() != "Consumable"@.len() || "Wand"@[0] != "Consumable"@[0] || "Wand"@[1] != "Consumable"@[1]); }
    assert("Wand"@ != "Curse"@) by { assert("Wand"@.len() != "Curse"@.len() || "Wand"@[0] != "Curse"@[0] || "Wand"@[1] != "Curse"@[1]); }
    assert("Wand"@ != "Relic"@) by { assert("Wand"@.len() != "Relic"@.len() || "Wand"@[0] != "Relic"@[0] || "Wand"@[1] != "Relic"@[1]); }
    assert("Armor"@ != "Shield"@) by { assert("Armor"@.len() != "Shield"@.len() || "Armor"@[0] != "Shield"@[0] || "Armor"@[1] != "Shield"@[1]); }
    assert("Armor"@ != "Structure"@) by { assert("Armor"@.len() != "Structure"@.len() || "Armor"@[0] != "Structure"@[0] || "Armor"@[1] != "Structure"@[1]); }
    assert("Armor"@ != "Accessory"@) by { assert("Armor"@.len() != "Accessory"@.len() || "Armor"@[0] != "Accessory"@[0] || "Armor"@[1] != "Accessory"@[1]); }
    assert("Armor"@ != "Ingredient"@) by { assert("Armor"@.len() != "Ingredient"@.len() || "Armor"@[0] != "Ingredient"@[0] || "Armor"@[1] != "Ingredient"@[1]); }
    assert("Armor"@ != "Consumable"@) by { assert("Armor"@.len() != "Consumable"@.len() || "Armor"@[0] != "Consumable"@[0] || "Armor"@[1] != "Consumable"@[1]); }
    assert("Armor"@ != "Curse"@) by { assert("Armor"@.len() != "Curse"@.len() || "Armor"@[0] != "Curse"@[0] || "Armor"@[1] != "Curse"@[1]); }
    assert("Armor"@ != "Relic"@) by { assert("Armor"@.len() != "Relic"@.len() || "Armor"@[0] != "Relic"@[0] || "Armor"@[1] != "Relic"@[1]); }
    assert("Shield"@ != "Structure"@) by { assert("Shield"@.len() != "Structure"@.len() || "Shield"@[0] != "Structure"@[0] || "Shield"@[1] != "Structure"@[1]); }
    assert("Shield"@ != "Accessory"@) by { assert("Shield"@.len() != "Accessory"@.len() || "Shield"@[0] != "Accessory"@[0] || "Shield"@[1] != "Accessory"@[1]); }
    assert("Shield"@ != "Ingredient"@) by { assert("Shield"@.len() != "Ingredient"@.len() || "Shield"@[0] != "Ingredient"@[0] || "Shield"@[1] != "Ingredient"@[1]); }
    assert("Shield"@ != "Consumable"@) by { assert("Shield"@.len() != "Consumable"@.len() || "Shield"@[0] != "Consumable"@[0] || "Shield"@[1] != "Consumable"@[1]); }
    assert("Shield"@ != "Curse"@) by { assert("Shield"@.len() != "Curse"@.len() || "Shield"@[0] != "Curse"@[0] || "Shield"@[1] != "Curse"@[1]); }
    assert("Shield"@ != "Relic"@) by { assert("Shield"@.len() != "Relic"@.len() || "Shield"@[0] != "Relic"@[0] || "Shield"@[1] != "Relic"@[1]); }
    assert("Structure"@ != "Accessory"@) by { assert("Structure"@.len() != "Accessory"@.len() || "Structure"@[0] != "Accessory"@[0] || "Structure"@[1] != "Accessory"@[1]); }
    assert("Structure"@ != "Ingredient"@) by { assert("Structure"@.len() != "Ingredient"@.len() || "Structure"@[0] != "Ingredient"@[0] || "Structure"@[1] != "Ingredient"@[1]); }
    assert("Structure"@ != "Consumable"@) by { assert("Structure"@.len() != "Consumable"@.len() || "Structure"@[0] != "Consumable"@[0] || "Structure"@[1] != "Consumable"@[1]); }
    assert("Structure"@ != "Curse"@) by { assert("Structure"@.len() != "Curse"@.len() || "Structure"@[0] != "Curse"@[0] || "Structure"@[1] != "Curse"@[1]); }
    assert("Structure"@ != "Relic"@) by { assert("Structure"@.len() != "Relic"@.len() || "Structure"@[0] != "Relic"@[0] || "Structure"@[1] != "Relic"@[1]); }
    assert("Accessory"@ != "Ingredient"@) by { assert("Accessory"@.len() != "Ingredient"@.len() || "Accessory"@[0] != "Ingredient"@[0] || "Accessory"@[1] != "Ingredient"@[1]); }
    assert("Accessory"@ != "Consumable"@) by { assert("Accessory"@.len() != "Consumable"@.len() || "Accessory"@[0] != "Consumable"@[0] || "Accessory"@[1] != "Consumable"@[1]); }
    assert("Accessory"@ != "Curse"@) by { assert("Accessory"@.len() != "Curse"@.len() || "Accessory"@[0] != "Curse"@[0] || "Accessory"@[1] != "Curse"@[1]); }
    assert("Accessory"@ != "Relic"@) by { assert("Accessory"@.len() != "Relic"@.len() || "Accessory"@[0] != "Relic"@[0] || "Accessory"@[1] != "Relic"@[1]); }
    assert("Ingredient"@ != "Consumable"@) by { assert("Ingredient"@.len() != "Consumable"@.len() || "Ingredient"@[0] != "Consumable"@[0] || "Ingredient"@[1] != "Consumable"@[1]); }
    assert("Ingredient"@ != "Curse"@) by { assert("Ingredient"@.len() != "Curse"@.len() || "Ingredient"@[0] != "Curse"@[0] || "Ingredient"@[1] != "Curse"@[1]); }
    assert("Ingredient"@ != "Relic"@) by { assert("Ingredient"@.len() != "Relic"@.len() || "Ingredient"@[0] != "Relic"@[0] || "Ingredient"@[1] != "Relic"@[1]); }
    assert("Consumable"@ != "Curse"@) by { assert("Consumable"@.len() != "Curse"@.len() || "Consumable"@[0] != "Curse"@[0] || "Consumable"@[1] != "Curse"@[1]); }
    assert("Consumable"@ != "Relic"@) by { assert("Consumable"@.len() != "Relic"@.len() || "Consumable"@[0] != "Relic"@[0] || "Consumable"@[1] != "Relic"@[1]); }
    assert("Curse"@ != "Relic"@) by { assert("Curse"@.len() != "Relic"@.len() || "Curse"@[0] != "Relic"@[0] || "Curse"@[1] != "Relic"@[1]); }
    if k == 0 {
        assert(cs[0].0 == "Weapon"@);
        if t == "Weapon"@ { assert(cs[0].1[0] == t); }
        if t == "Bow"@ { assert(cs[0].1[1] == t); }
        if t == "Wand"@ { assert(cs[0].1[2] == t); }
        if cs[0].1.contains(t) { let w = choose|w: int| 0 <= w < cs[0].1.len() && cs[0].1[w] == t; assert(w == 0 || w == 1 || w == 2); }
    }
    if k == 1 {
        assert(cs[1].0 == "Armor"@);
        if t == "Armor"@ { assert(cs[1].1[0] == t); }
        if t == "Shield"@ { assert(cs[1].1[1] == t); }
        if t == "Structure"@ { assert(cs[1].1[2] == t); }
        if cs[1].1.contains(t) { let w = choose|w: int| 0 <= w < cs[1].1.len() && cs[1].1[w] == t; assert(w == 0 || w == 1 || w == 2); }
    }
    if k == 2 {
        assert(cs[2].0 == "Accessory"@);
        if t == "Accessory"@ { assert(cs[2].1[0] == t); }
        if t == "Ingredient"@ { assert(cs[2].1[1] == t); }
        if cs[2].1.contains(t) { let w = choose|w: int| 0 <= w < cs[2].1.len() && cs[2].1[w] == t; assert(w == 0 || w == 1); }
    }
    if k == 3 {
        assert(cs[3].0 == "Consumable"@);
        if t == "Consumable"@ { assert(cs[3].1[0] == t); }
        if cs[3].1.contains(t) { let w = choose|w: int| 0 <= w < cs[3].1.len() && cs[3].1[w] == t; assert(w == 0); }
    }
    if k == 4 {
        assert(cs[4].0 == "Curse"@);
        if t == "Curse"@ { assert(cs[4].1[0] == t); }
        if cs[4].1.contains(t) { let w = choose|w: int| 0 <= w < cs[4].1.len() && cs[4].1[w] == t; assert(w == 0); }
    }
    if k == 5 {
        assert(cs[5].0 == "Relic"@);
        if t == "Relic"@ { assert(cs[5].1[0] == t); }
        if cs[5].1.contains(t) { let w = choose|w: int| 0 <= w < cs[5].1.len() && cs[5].1[w] == t; assert(w == 0); }
    }
    if k == 6 {
        assert(cs[6].0 == "Other"@);

    }
}

/// An item lands in the category of its types: when its types that have a
/// category all have the same one, it is that category, and when none of
/// its types has a category, it is "Other". So an item of type Structure
/// and no type of another category is armor.
pub proof fn lemma_category_by_type(item: Item)
    ensures
        (forall|t: Seq<char>|
            string_views(item.types@).contains(t) ==> #[trigger] category_of_type(t) is None)
            ==> categories()[category_of(item)].0 == "Other"@,
        forall|t: Seq<char>|
            string_views(item.types@).contains(t) && #[trigger] category_of_type(t) is Some && (
            forall|u: Seq<char>|
                string_views(item.types@).contains(u) && #[trigger] category_of_type(u) is Some
                    ==> category_of_type(u) == category_of_type(t)) ==> categories()[category_of(
                item,
            )].0 == category_of_type(t)->Some_0,
{
    let sv = string_views(item.types@);
    assert forall|k: int| 0 <= k < 7 implies #[trigger] in_category(item, k) == (exists|t: Seq<char>|
        sv.contains(t) && category_of_type(t) == Some(categories()[k].0) && k < 6) by {
        if in_category(item, k) {
            let w = choose|w: int|
                0 <= w < categories()[k].1.len() && sv.contains(#[trigger] categories()[k].1[w]);
            let t = categories()[k].1[w];
            lemma_categories_by_type(k, t);
            assert(categories()[k].1.contains(t));
        }
        if exists|t: Seq<char>| sv.contains(t) && category_of_type(t) == Some(categories()[k].0) && k < 6 {
            let t = choose|t: Seq<char>|
                sv.contains(t) && category_of_type(t) == Some(categories()[k].0) && k < 6;
            lemma_categories_by_type(k, t);
            let w = choose|w: int| 0 <= w < categories()[k].1.len() && categories()[k].1[w] == t;
            assert(sv.contains(categories()[k].1[w]));
        }
    }
    lemma_category_from_first(item, 0);
    lemma_categories_by_type(6, seq![]);
    if forall|t: Seq<char>| sv.contains(t) ==> #[trigger] category_of_type(t) is None {
        assert forall|k: int| 0 <= k < 7 implies !#[trigger] in_category(item, k) by {
            assert(in_category(item, k) == (exists|t: Seq<char>|
                sv.contains(t) && category_of_type(t) == Some(categories()[k].0) && k < 6));
        }
    }
    assert forall|t: Seq<char>|
        sv.contains(t) && #[trigger] category_of_type(t) is Some && (forall|u: Seq<char>|
            sv.contains(u) && #[trigger] category_of_type(u) is Some ==> category_of_type(u)
                == category_of_type(t)) implies categories()[category_of(item)].0
        == category_of_type(t)->Some_0 by {
        lemma_categories_by_type(0, t);
        let q = choose|q: int| 0 <= q < 6 && category_of_type(t) == Some(#[trigger] categories()[q].0);
        lemma_categories_by_type(q, t);
        assert(in_category(item, q) == (exists|x: Seq<char>|
            sv.contains(x) && category_of_type(x) == Some(categories()[q].0) && q < 6));
        assert(in_category(item, q));
        let j = category_of(item);
        assert(0 <= j <= q);
        if j < q {
            assert(in_category(item, j));
            assert(in_category(item, j) == (exists|x: Seq<char>|
                sv.contains(x) && category_of_type(x) == Some(categories()[j].0) && j < 6));
            let x = choose|x: Seq<char>|
                sv.contains(x) && category_of_type(x) == Some(categories()[j].0) && j < 6;
            assert(category_of_type(x) == category_of_type(t));
            assert(categories()[j].0 != categories()[q].0);
        }
    }
}


/// A category's header spans as many rows as the category has: one row per
/// rarity that has items of it.
pub proof fn lemma_rowspan_counts_rows(items: Seq<Item>, c: int, one_row: bool, n: nat)
    ensures
        category_rows(items, c, one_row, n).len() == row_count(items, c, n),
        row_count(items, c, n) == Seq::new(n, |r: int| r).filter(
            |r: int| row_names(items, c, rarity_names()[r]).len() > 0,
        ).len(),
    decreases n,
{
    reveal(Seq::filter);
    let keep = |r: int| row_names(items, c, rarity_names()[r]).len() > 0;
    if n > 0 {
        lemma_rowspan_counts_rows(items, c, one_row, (n - 1) as nat);
        let all = Seq::new(n, |r: int| r);
        let prev = Seq::new((n - 1) as nat, |r: int| r);
        assert(all.drop_last() =~= prev);
        assert(all.last() == n - 1);
    }
}


/// `a` comes before `b` or equals it in the order of `str`: up to some
/// position they agree, and there `a` ends or has the smaller character.
pub proof fn lemma_lex_le_first_difference(a: Seq<char>, b: Seq<char>)
    requires
        lex_le(a, b),
    ensures
        exists|p: int|
            {
                &&& 0 <= p <= a.len()
                &&& p <= b.len()
                &&& a.take(p) == b.take(p)
                &&& p == a.len() || (p < b.len() && (a[p] as int) < (b[p] as int))
            },
    decreases a.len(),
{
    if a.len() == 0 {
        assert(a.take(0) =~= b.take(0));
    } else if a[0] != b[0] {
        assert(a.take(0) =~= b.take(0));
    } else {
        lemma_lex_le_first_difference(a.drop_first(), b.drop_first());
        let p = choose|p: int|
            {
                &&& 0 <= p <= a.drop_first().len()
                &&& p <= b.drop_first().len()
                &&& a.drop_first().take(p) == b.drop_first().take(p)
                &&& p == a.drop_first().len() || (p < b.drop_first().len() && (a.drop_first()[p]
                    as int) < (b.drop_first()[p] as int))
            };
        assert(a.take(p + 1) =~= seq![a[0]] + a.drop_first().take(p));
        assert(b.take(p + 1) =~= seq![b[0]] + b.drop_first().take(p));
        if p < a.drop_first().len() {
            assert(a[p + 1] == a.drop_first()[p] && b[p + 1] == b.drop_first()[p]);
        }
    }
}

/// The names of a row, as sorted, are in code point order: of two
/// neighbours, the first is a prefix of the second or, at the first
/// position where they differ, has the smaller character.
pub proof fn lemma_row_names_by_code_point(s: Seq<Seq<char>>, i: int)
    requires
        0 <= i < s.len() - 1,
    ensures
        sorted_names(s).len() == s.len(),
        ({
            let a = sorted_names(s)[i];
            let b = sorted_names(s)[i + 1];
            exists|p: int|
                {
                    &&& 0 <= p <= a.len()
                    &&& p <= b.len()
                    &&& a.take(p) == b.take(p)
                    &&& p == a.len() || (p < b.len() && (a[p] as int) < (b[p] as int))
                }
        }),
{
    lemma_sorted_names_in_order(s);
    let t = sorted_names(s);
    assert(lex_le(t[i], t[i + 1]));
    lemma_lex_le_first_difference(t[i], t[i + 1]);
}

} // verus!
