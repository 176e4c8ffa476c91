//! The `{{Item}}` infobox of an item page: writing a new page, and updating
//! the infobox of an existing page from the page's wiki text.
use vstd::prelude::*;
use crate::backpack_db::pairs_view;
use crate::text::{
    append_chars, chars_of, join, join_chars, lowercase, same_chars, slice, slice_ok, slice_text,
    str_lower, string_of, trim, trim_chars, views_of,
};
use parse_wiki_text::Node::{Link, Template, Text};
use parse_wiki_text::{Configuration, Node};
use crate::wikiparse::WikiLeaf::{LinkLeaf, OtherLeaf, TextLeaf};
use crate::wikiparse::WikiNode::{OtherNode, TemplateNode};
use vstd::utf8::{decode_utf8, encode_utf8, is_char_boundary};

verus! {

// ----------------------------------------------------------------------------
// Infobox text
// ----------------------------------------------------------------------------
/// Whether `key` is among the keys to skip.
pub open spec fn skipped(skip: Option<Seq<Seq<char>>>, key: Seq<char>) -> bool {
    match skip {
        Some(keys) => keys.contains(key),
        None => false,
    }
}

/// The "key = value" parts, in order, of the fields whose key is not skipped,
/// each value trimmed.
pub open spec fn appended_parts(
    vals: Seq<(Seq<char>, Seq<char>)>,
    skip: Option<Seq<Seq<char>>>,
) -> Seq<Seq<char>>
    decreases vals.len(),
{
    if vals.len() == 0 {
        seq![]
    } else {
        let rest = appended_parts(vals.drop_last(), skip);
        if skipped(skip, vals.last().0) {
            rest
        } else {
            rest.push(vals.last().0 + " = "@ + trim(vals.last().1))
        }
    }
}

/// The keys, in order, of the fields whose key is not skipped.
pub open spec fn appended_keys(
    vals: Seq<(Seq<char>, Seq<char>)>,
    skip: Option<Seq<Seq<char>>>,
) -> Seq<Seq<char>>
    decreases vals.len(),
{
    if vals.len() == 0 {
        seq![]
    } else {
        let rest = appended_keys(vals.drop_last(), skip);
        if skipped(skip, vals.last().0) {
            rest
        } else {
            rest.push(vals.last().0)
        }
    }
}

/// The infobox template text: "{{Item", then one line " | <part>" per part
/// (the given parts first, then the appended fields), then "}}".
pub open spec fn infobox_text(
    vals: Seq<(Seq<char>, Seq<char>)>,
    pre: Seq<Seq<char>>,
    skip: Option<Seq<Seq<char>>>,
) -> Seq<char> {
    let lines = pre + appended_parts(vals, skip);
    "{{Item\n"@ + join(lines.map_values(|l: Seq<char>| " | "@ + l), "\n"@) + "\n}}"@
}

/// The character sequences of the strings of `v`.
pub open spec fn string_views(v: Seq<String>) -> Seq<Seq<char>> {
    v.map_values(|s: String| s@)
}

/// The keys to skip, as character sequences.
pub open spec fn skip_view(skip: Option<&Vec<String>>) -> Option<Seq<Seq<char>>> {
    match skip {
        Some(keys) => Some(string_views(keys@)),
        None => None,
    }
}

/// Whether `key` is one of `keys`.
fn key_listed(keys: &Vec<String>, key: &Vec<char>) -> (r: bool)
    ensures
        r == string_views(keys@).contains(key@),
{
    let n = keys.len();
    for i in 0..n
        invariant
            n == keys@.len(),
            forall|t: int| 0 <= t < i ==> (#[trigger] keys@[t])@ != key@,
    {
        let k = chars_of(keys[i].as_str());
        if crate::text::same_chars(&k, key) {
            assert(string_views(keys@)[i as int] == key@);
            return true;
        }
    }
    assert forall|t: int| 0 <= t < string_views(keys@).len() implies string_views(keys@)[t]
        != key@ by {
        assert((keys@[t])@ != key@);
    }
    false
}

/// The infobox template text: "{{Item", one line " | <part>" for each of the
/// `pre_existing_part` parts, then one line " | <key> = <value>" for each
/// field whose key is not among `skip_these_keys` (the value trimmed), then
/// "}}".
pub fn _make_infobox_skipping_some(
    new_ibox_values: &[(&str, String)],
    pre_existing_part: Vec<String>,
    skip_these_keys: Option<&Vec<String>>,
) -> (r: String)
    ensures
        r@ == infobox_text(
            pairs_view(new_ibox_values@),
            string_views(pre_existing_part@),
            skip_view(skip_these_keys),
        ),
{
    let ghost vals = pairs_view(new_ibox_values@);
    let ghost skip = skip_view(skip_these_keys);
    let mut lines: Vec<Vec<char>> = Vec::new();
    let np = pre_existing_part.len();
    for i in 0..np
        invariant
            np == pre_existing_part@.len(),
            views_of(lines@) == string_views(pre_existing_part@).take(i as int),
    {
        let ghost before = lines@;
        lines.push(chars_of(pre_existing_part[i].as_str()));
        assert(views_of(lines@) =~= views_of(before).push(pre_existing_part@[i as int]@));
        assert(string_views(pre_existing_part@).take(i + 1) =~= string_views(
            pre_existing_part@,
        ).take(i as int).push(pre_existing_part@[i as int]@));
    }
    assert(string_views(pre_existing_part@).take(np as int) =~= string_views(pre_existing_part@));
    let ghost pre = views_of(lines@);
    let nv = new_ibox_values.len();
    let eq = chars_of(" = ");
    for i in 0..nv
        invariant
            nv == new_ibox_values@.len(),
            vals == pairs_view(new_ibox_values@),
            skip == skip_view(skip_these_keys),
            eq@ == " = "@,
            views_of(lines@) == pre + appended_parts(vals.take(i as int), skip),
    {
        let ghost before = lines@;
        let key = chars_of(new_ibox_values[i].0);
        let value = chars_of(new_ibox_values[i].1.as_str());
        let v = trim_chars(&value);
        assert(vals.take(i + 1).drop_last() =~= vals.take(i as int));
        assert(vals.take(i + 1).last() == vals[i as int]);
        let skip_it = match skip_these_keys {
            Some(keys) => key_listed(keys, &key),
            None => false,
        };
        if !skip_it {
            let mut part = key;
            append_chars(&mut part, &eq);
            append_chars(&mut part, &v);
            lines.push(part);
            assert(views_of(lines@) =~= views_of(before).push(
                vals[i as int].0 + " = "@ + trim(vals[i as int].1),
            ));
        }
    }
    assert(vals.take(nv as int) =~= vals);
    let ghost all = views_of(lines@);
    let bar = chars_of(" | ");
    let mut framed: Vec<Vec<char>> = Vec::new();
    let nl = lines.len();
    for i in 0..nl
        invariant
            nl == lines@.len(),
            all == views_of(lines@),
            bar@ == " | "@,
            views_of(framed@) == all.take(i as int).map_values(|l: Seq<char>| " | "@ + l),
    {
        let ghost before = framed@;
        let mut line = chars_of(" | ");
        append_chars(&mut line, &lines[i]);
        framed.push(line);
        assert(views_of(framed@) =~= views_of(before).push(" | "@ + all[i as int]));
        assert(all.take(i + 1).map_values(|l: Seq<char>| " | "@ + l) =~= all.take(
            i as int,
        ).map_values(|l: Seq<char>| " | "@ + l).push(" | "@ + all[i as int]));
    }
    assert(all.take(nl as int) =~= all);
    let newline = chars_of("\n");
    let body = join_chars(&framed, &newline);
    let mut out = chars_of("{{Item\n");
    append_chars(&mut out, &body);
    let close = chars_of("\n}}");
    append_chars(&mut out, &close);
    string_of(&out)
}

/// The text of a new item page: its infobox with the given fields, then a
/// line break and the `{{Stub}}` template.
pub fn write_new_page(new_ibox_values: &[(&str, String)]) -> (r: String)
    ensures
        r@ == infobox_text(pairs_view(new_ibox_values@), seq![], None) + "\n{{Stub}}"@,
{
    let ibox = _make_infobox_skipping_some(new_ibox_values, Vec::new(), None);
    assert(string_views(Seq::<String>::empty()) =~= Seq::<Seq<char>>::empty());
    let mut out = chars_of(ibox.as_str());
    let stub = chars_of("\n{{Stub}}");
    append_chars(&mut out, &stub);
    string_of(&out)
}


// ----------------------------------------------------------------------------
// Parsed pages
// ----------------------------------------------------------------------------
/// A node inside a template's name or a parameter, with its byte span
/// (start, end) in the page text: a text node (with its characters), a link,
/// or any other node.
#[derive(Debug)]
pub enum WikiLeaf {
    TextLeaf(usize, usize, String),
    LinkLeaf(usize, usize),
    OtherLeaf,
}

/// A template parameter: its byte span (start, end), its name nodes if it
/// is named, and its value nodes.
#[derive(Debug)]
pub struct WikiParameter(pub usize, pub usize, pub Option<Vec<WikiLeaf>>, pub Vec<WikiLeaf>);

/// A top-level node of a page: a template, with its byte span (start, end),
/// name nodes and parameters, or any other node.
#[derive(Debug)]
pub enum WikiNode {
    TemplateNode(usize, usize, Vec<WikiLeaf>, Vec<WikiParameter>),
    OtherNode,
}

/// A parsed page: its top-level nodes and the number of parser warnings.
#[derive(Debug)]
pub struct WikiPage(pub Vec<WikiNode>, pub usize);

/// What the wiki text parser (`parse_wiki_text` with its default
/// configuration) makes of a page text, as a `WikiPage`.
pub uninterp spec fn parsed_page(text: Seq<char>) -> WikiPage;

/// Calls `parse_wiki_text::Configuration::default().parse(text)` and converts
/// its output node for node: top-level templates keep their span, name and
/// parameters; text and link nodes inside them keep their span (text nodes
/// their characters too); every other node becomes `Other`; the warnings
/// become their number. The result is named by `parsed_page`.
#[verifier::external_body]
fn parse_wiki_page(text: &str) -> (page: WikiPage)
    ensures
        page == parsed_page(text@),
{
    let out = Configuration::default().parse(text);
    let leaves = |ns: &[Node]| ns.iter().map(|n| match *n {
        Text { start, end, value } => TextLeaf(start, end, value.into()),
        Link { start, end, .. } => LinkLeaf(start, end),
        _ => OtherLeaf
    }).collect();
    WikiPage(out.nodes.iter().map(|n| match n {
        Template { start, end, name, parameters } => TemplateNode(*start, *end, leaves(name), parameters.iter().map(|p| WikiParameter(p.start, p.end, p.name.as_deref().map(leaves), leaves(&p.value))).collect()),
        _ => OtherNode
    }).collect(), out.warnings.len())
}

// ----------------------------------------------------------------------------
// Updating an infobox
// ----------------------------------------------------------------------------
/// Why the infobox of a page cannot be updated.
#[derive(Debug, Clone, Copy, PartialEq, Eq)]
pub enum InfoboxError {
    /// The parser reported warnings on the page.
    ParseWarnings,
    /// A template's name is not a single text node.
    MalformedTemplateName,
    /// The page has this many `{{Item}}` templates instead of one.
    InfoboxCount(usize),
    /// Two of the new keys are equal once lowercased.
    DuplicateKeys,
    /// A parameter of the infobox is unnamed, has a name of other than one
    /// node, has a name or value with a node other than text or a link, or
    /// has a span that is not a slice of the page text.
    MalformedParameter,
    /// The infobox's span does not split the page text at character boundaries.
    TemplateOutsideText,
}

/// The outcome of an infobox update: the new page text, whether a field
/// other than "lastUpdate" changed its value, and the old "lastUpdate" value.
#[derive(Debug)]
pub struct UpdateResult {
    pub new_text: String,
    pub meaningful_change: bool,
    pub old_version: Option<String>,
    /// The parameters whose value changes meaningfully, in order: name,
    /// old value and new value of each.
    pub changes: Vec<(String, String, String)>,
    /// The keys of the fields that the infobox did not have, in order: the
    /// fields appended after its parameters.
    pub added_keys: Vec<String>,
}

/// The character sequences of an update outcome.
pub ghost struct UpdateView {
    pub new_text: Seq<char>,
    pub meaningful_change: bool,
    pub old_version: Option<Seq<char>>,
    pub changes: Seq<(Seq<char>, Seq<char>, Seq<char>)>,
    pub added_keys: Seq<Seq<char>>,
}

/// The characters of an optional string.
pub open spec fn opt_view(s: Option<String>) -> Option<Seq<char>> {
    match s {
        Some(t) => Some(t@),
        None => None,
    }
}

/// The character sequences of a list of changes.
pub open spec fn change_views(v: Seq<(String, String, String)>) -> Seq<(Seq<char>, Seq<char>, Seq<char>)> {
    v.map_values(|t: (String, String, String)| (t.0@, t.1@, t.2@))
}

/// The character sequences of an update outcome.
pub open spec fn update_view(u: UpdateResult) -> UpdateView {
    UpdateView {
        new_text: u.new_text@,
        meaningful_change: u.meaningful_change,
        old_version: opt_view(u.old_version),
        changes: change_views(u.changes@),
        added_keys: string_views(u.added_keys@),
    }
}

/// The character sequences of an update outcome or its error.
pub open spec fn result_view(r: Result<UpdateResult, InfoboxError>) -> Result<UpdateView, InfoboxError> {
    match r {
        Ok(u) => Ok(update_view(u)),
        Err(e) => Err(e),
    }
}

/// The byte span of a text or link node.
pub open spec fn leaf_span(l: WikiLeaf) -> Option<(int, int)> {
    match l {
        TextLeaf(start, end, _) => Some((start as int, end as int)),
        LinkLeaf(start, end) => Some((start as int, end as int)),
        OtherLeaf => None,
    }
}

/// A template name is well formed: a single text node.
pub open spec fn template_name_ok(node: WikiNode) -> bool {
    match node {
        TemplateNode(_, _, name, _) => name@.len() == 1 && name@[0] is TextLeaf,
        OtherNode => true,
    }
}

/// Every template of the page has a well-formed name.
pub open spec fn template_names_ok(nodes: Seq<WikiNode>) -> bool {
    forall|k: int| 0 <= k < nodes.len() ==> #[trigger] template_name_ok(nodes[k])
}

/// The node is an `{{Item}}` template: its name's text, lowercased, is "item".
pub open spec fn is_infobox(node: WikiNode) -> bool {
    match node {
        TemplateNode(_, _, name, _) => name@.len() > 0 && match name@[0] {
            TextLeaf(_, _, value) => str_lower(value@) == "item"@,
            _ => false,
        },
        OtherNode => false,
    }
}

/// The `{{Item}}` templates of the page, in order.
pub open spec fn infoboxes(nodes: Seq<WikiNode>) -> Seq<WikiNode>
    decreases nodes.len(),
{
    if nodes.len() == 0 {
        seq![]
    } else if is_infobox(nodes.last()) {
        infoboxes(nodes.drop_last()).push(nodes.last())
    } else {
        infoboxes(nodes.drop_last())
    }
}

/// Two keys are equal once lowercased.
pub open spec fn has_duplicate_keys(vals: Seq<(Seq<char>, Seq<char>)>) -> bool {
    exists|i: int, j: int|
        0 <= i < j < vals.len() && #[trigger] str_lower(vals[i].0) == #[trigger] str_lower(
            vals[j].0,
        )
}

/// The byte span of a parameter's name: defined for a name of one text or link node.
pub open spec fn name_span(p: WikiParameter) -> Option<(int, int)> {
    match p.2 {
        Some(ns) => if ns@.len() == 1 {
            leaf_span(ns@[0])
        } else {
            None
        },
        None => None,
    }
}

/// The byte span of a parameter's value: from its first node's start to its
/// last node's end, defined where both are text or link nodes.
pub open spec fn value_span(p: WikiParameter) -> Option<(int, int)> {
    if p.3@.len() == 0 {
        None
    } else {
        match (leaf_span(p.3@[0]), leaf_span(p.3@.last())) {
            (Some(f), Some(l)) => Some((f.0, l.1)),
            _ => None,
        }
    }
}

/// The parameter can be read: its name, whole text and value are slices of the page text.
pub open spec fn param_ok(text: Seq<char>, p: WikiParameter) -> bool {
    &&& name_span(p) matches Some(sp) && slice_ok(text, sp.0, sp.1)
    &&& slice_ok(text, p.0 as int, p.1 as int)
    &&& p.3@.len() == 0 || (value_span(p) matches Some(sp) && slice_ok(text, sp.0, sp.1))
}

/// Every parameter can be read.
pub open spec fn params_ok(text: Seq<char>, ps: Seq<WikiParameter>) -> bool {
    forall|k: int| 0 <= k < ps.len() ==> #[trigger] param_ok(text, ps[k])
}

/// The text of a parameter's name.
pub open spec fn param_name(text: Seq<char>, p: WikiParameter) -> Seq<char> {
    match name_span(p) {
        Some(sp) => slice(text, sp.0, sp.1),
        None => seq![],
    }
}

/// The text of a parameter's value; empty for a value without nodes.
pub open spec fn old_value(text: Seq<char>, p: WikiParameter) -> Seq<char> {
    match value_span(p) {
        Some(sp) => slice(text, sp.0, sp.1),
        None => seq![],
    }
}

/// The new value for a key: the trimmed value of the first field whose key
/// equals it once both are lowercased.
pub open spec fn first_match(vals: Seq<(Seq<char>, Seq<char>)>, name: Seq<char>) -> Option<
    Seq<char>,
>
    decreases vals.len(),
{
    if vals.len() == 0 {
        None
    } else if str_lower(vals[0].0) == str_lower(name) {
        Some(trim(vals[0].1))
    } else {
        first_match(vals.drop_first(), name)
    }
}

/// A parameter's line in the updated infobox: "<name> = <new value>" where a
/// field matches its name, its old text otherwise.
pub open spec fn updated_part(
    text: Seq<char>,
    vals: Seq<(Seq<char>, Seq<char>)>,
    p: WikiParameter,
) -> Seq<char> {
    match first_match(vals, param_name(text, p)) {
        Some(v) => param_name(text, p) + " = "@ + v,
        None => slice(text, p.0 as int, p.1 as int),
    }
}

/// The parameter gets a new value that differs from its old one, and it is
/// not "lastUpdate".
pub open spec fn changes_meaning(
    text: Seq<char>,
    vals: Seq<(Seq<char>, Seq<char>)>,
    p: WikiParameter,
) -> bool {
    match first_match(vals, param_name(text, p)) {
        Some(v) => old_value(text, p) != v && param_name(text, p) != "lastUpdate"@,
        None => false,
    }
}

/// The old value of the last parameter named "lastUpdate", if any.
pub open spec fn last_version(text: Seq<char>, ps: Seq<WikiParameter>) -> Option<Seq<char>>
    decreases ps.len(),
{
    if ps.len() == 0 {
        None
    } else if param_name(text, ps.last()) == "lastUpdate"@ {
        Some(old_value(text, ps.last()))
    } else {
        last_version(text, ps.drop_last())
    }
}

/// The meaningful changes among the parameters, in order: name, old value
/// and new value of each parameter for which `changes_meaning` holds.
pub open spec fn changed_fields(
    text: Seq<char>,
    vals: Seq<(Seq<char>, Seq<char>)>,
    ps: Seq<WikiParameter>,
) -> Seq<(Seq<char>, Seq<char>, Seq<char>)>
    decreases ps.len(),
{
    if ps.len() == 0 {
        seq![]
    } else {
        let rest = changed_fields(text, vals, ps.drop_last());
        let p = ps.last();
        if changes_meaning(text, vals, p) {
            rest.push((param_name(text, p), old_value(text, p), first_match(vals, param_name(text, p))->Some_0))
        } else {
            rest
        }
    }
}

/// Span and parameters of a template.
pub open spec fn template_parts(node: WikiNode) -> (int, int, Seq<WikiParameter>) {
    match node {
        TemplateNode(start, end, _, parameters) => (start as int, end as int, parameters@),
        OtherNode => (0, 0, seq![]),
    }
}

/// The text after byte offset `a`, defined where `a` is a character boundary.
pub open spec fn suffix_ok(text: Seq<char>, a: int) -> bool {
    is_char_boundary(encode_utf8(text), a)
}

/// The characters of `text[a..]`.
pub open spec fn suffix(text: Seq<char>, a: int) -> Seq<char> {
    decode_utf8(encode_utf8(text).subrange(a, encode_utf8(text).len() as int))
}

/// The outcome of updating the one infobox `ibox` of a page: the infobox is
/// rewritten with one line per parameter (`updated_part`), then the fields
/// whose key names no parameter, and the page text around it is kept.
pub open spec fn updated_view(
    text: Seq<char>,
    ibox: WikiNode,
    vals: Seq<(Seq<char>, Seq<char>)>,
) -> UpdateView {
    let (start, end, ps) = template_parts(ibox);
    let parts = ps.map_values(|p: WikiParameter| updated_part(text, vals, p));
    let used = ps.map_values(|p: WikiParameter| param_name(text, p));
    UpdateView {
        new_text: slice(text, 0, start) + infobox_text(vals, parts, Some(used)) + suffix(text, end),
        meaningful_change: exists|k: int|
            0 <= k < ps.len() && #[trigger] changes_meaning(text, vals, ps[k]),
        old_version: last_version(text, ps),
        changes: changed_fields(text, vals, ps),
        added_keys: appended_keys(vals, Some(used)),
    }
}

/// The error of an update, checked in this order, or `None` when the page
/// can be updated.
pub open spec fn update_error(
    text: Seq<char>,
    page: WikiPage,
    vals: Seq<(Seq<char>, Seq<char>)>,
) -> Option<InfoboxError> {
    let boxes = infoboxes(page.0@);
    let (start, end, ps) = template_parts(boxes[0]);
    if page.1 > 0 {
        Some(InfoboxError::ParseWarnings)
    } else if !template_names_ok(page.0@) {
        Some(InfoboxError::MalformedTemplateName)
    } else if boxes.len() != 1 {
        Some(InfoboxError::InfoboxCount(boxes.len() as usize))
    } else if has_duplicate_keys(vals) {
        Some(InfoboxError::DuplicateKeys)
    } else if !params_ok(text, ps) {
        Some(InfoboxError::MalformedParameter)
    } else if !(slice_ok(text, 0, start) && suffix_ok(text, end)) {
        Some(InfoboxError::TemplateOutsideText)
    } else {
        None
    }
}

/// The outcome of updating the infobox of the parsed page `page` of `text`.
pub open spec fn infobox_update(
    text: Seq<char>,
    page: WikiPage,
    vals: Seq<(Seq<char>, Seq<char>)>,
) -> Result<UpdateView, InfoboxError> {
    match update_error(text, page, vals) {
        Some(e) => Err(e),
        None => Ok(updated_view(text, infoboxes(page.0@)[0], vals)),
    }
}

/// Every node that `infoboxes` keeps is an `{{Item}}` template.
proof fn lemma_infoboxes_are_templates(nodes: Seq<WikiNode>)
    ensures
        forall|k: int|
            0 <= k < infoboxes(nodes).len() ==> #[trigger] is_infobox(infoboxes(nodes)[k]),
    decreases nodes.len(),
{
    if nodes.len() > 0 {
        lemma_infoboxes_are_templates(nodes.drop_last());
        let before = infoboxes(nodes.drop_last());
        assert forall|k: int|
            0 <= k < infoboxes(nodes).len() implies #[trigger] is_infobox(infoboxes(nodes)[k]) by {
            if k < before.len() {
                assert(is_infobox(before[k]));
            }
        }
    }
}

/// The byte span of a text or link node; `None` for any other node, which
/// the checks of `update_error` rule out of every page that is updated.
fn span_of(l: &WikiLeaf) -> (r: Option<(usize, usize)>)
    ensures
        match r {
            Some(sp) => leaf_span(*l) == Some((sp.0 as int, sp.1 as int)),
            None => leaf_span(*l) is None,
        },
{
    match l {
        TextLeaf(start, end, _) => Some((*start, *end)),
        LinkLeaf(start, end) => Some((*start, *end)),
        OtherLeaf => None,
    }
}

/// The nodes of `nodes` at the given positions.
spec fn picked_nodes(nodes: Seq<WikiNode>, idx: Seq<usize>) -> Seq<WikiNode> {
    idx.map_values(|k: usize| nodes[k as int])
}

/// The positions of the `{{Item}}` templates, or `None` where some
/// template's name is not a single text node.
fn find_infoboxes(page: &WikiPage) -> (r: Option<Vec<usize>>)
    ensures
        r is None <==> !template_names_ok(page.0@),
        r matches Some(idx) ==> {
            &&& forall|t: int| 0 <= t < idx@.len() ==> #[trigger] idx@[t] < page.0@.len()
            &&& picked_nodes(page.0@, idx@) == infoboxes(page.0@)
        },
{
    let ghost nodes = page.0@;
    let n = page.0.len();
    let item = chars_of("item");
    let mut idx: Vec<usize> = Vec::new();
    for k in 0..n
        invariant
            n == nodes.len(),
            nodes == page.0@,
            item@ == "item"@,
            forall|t: int| 0 <= t < k ==> #[trigger] template_name_ok(nodes[t]),
            forall|t: int| 0 <= t < idx@.len() ==> #[trigger] idx@[t] < n,
            picked_nodes(nodes, idx@) == infoboxes(nodes.take(k as int)),
    {
        let ghost before = idx@;
        assert(nodes.take(k + 1).drop_last() =~= nodes.take(k as int));
        assert(nodes.take(k + 1).last() == nodes[k as int]);
        match &page.0[k] {
            TemplateNode(_, _, name, _) => {
                if name.len() != 1 {
                    assert(!template_name_ok(nodes[k as int]));
                    return None;
                }
                match &name[0] {
                    TextLeaf(_, _, value) => {
                        let low = lowercase(value.as_str());
                        let low_chars = chars_of(low.as_str());
                        if same_chars(&low_chars, &item) {
                            idx.push(k);
                            assert(picked_nodes(nodes, idx@) =~= picked_nodes(nodes, before).push(
                                nodes[k as int],
                            ));
                        }
                    },
                    _ => {
                        assert(!template_name_ok(nodes[k as int]));
                        return None;
                    },
                }
            },
            OtherNode => {},
        }
    }
    assert(nodes.take(n as int) =~= nodes);
    Some(idx)
}

/// The lowercased keys of the fields.
fn lowered_keys(vals: &[(&str, String)]) -> (r: Vec<Vec<char>>)
    ensures
        r@.len() == vals@.len(),
        forall|i: int| 0 <= i < vals@.len() ==> (#[trigger] r@[i])@ == str_lower(vals@[i].0@),
{
    let n = vals.len();
    let mut r: Vec<Vec<char>> = Vec::new();
    for i in 0..n
        invariant
            n == vals@.len(),
            r@.len() == i,
            forall|t: int| 0 <= t < i ==> (#[trigger] r@[t])@ == str_lower(vals@[t].0@),
    {
        let low = lowercase(vals[i].0);
        r.push(chars_of(low.as_str()));
    }
    r
}

/// Whether two of the fields have keys that are equal once lowercased.
fn duplicate_keys(vals: &[(&str, String)], lows: &Vec<Vec<char>>) -> (r: bool)
    requires
        lows@.len() == vals@.len(),
        forall|i: int| 0 <= i < vals@.len() ==> (#[trigger] lows@[i])@ == str_lower(vals@[i].0@),
    ensures
        r == has_duplicate_keys(pairs_view(vals@)),
{
    let ghost pv = pairs_view(vals@);
    let n = lows.len();
    for i in 0..n
        invariant
            n == lows@.len(),
            n == vals@.len(),
            pv == pairs_view(vals@),
            forall|k: int| 0 <= k < vals@.len() ==> (#[trigger] lows@[k])@ == str_lower(vals@[k].0@),
            forall|x: int, y: int|
                0 <= x < i && x < y < n ==> #[trigger] str_lower(pv[x].0) != #[trigger] str_lower(
                    pv[y].0,
                ),
    {
        for j in i + 1..n
            invariant
                n == lows@.len(),
                n == vals@.len(),
                i < n,
                pv == pairs_view(vals@),
                forall|k: int| 0 <= k < vals@.len() ==> (#[trigger] lows@[k])@ == str_lower(
                    vals@[k].0@,
                ),
                forall|x: int, y: int|
                    0 <= x < i && x < y < n ==> #[trigger] str_lower(pv[x].0) != #[trigger] str_lower(
                        pv[y].0,
                    ),
                forall|y: int|
                    i < y < j ==> str_lower(pv[i as int].0) != #[trigger] str_lower(pv[y].0),
        {
            assert(pv[i as int].0 == vals@[i as int].0@ && pv[j as int].0 == vals@[j as int].0@);
            assert(lows@[i as int]@ == str_lower(vals@[i as int].0@));
            assert(lows@[j as int]@ == str_lower(vals@[j as int].0@));
            if same_chars(&lows[i], &lows[j]) {
                assert(str_lower(pv[i as int].0) == str_lower(pv[j as int].0));
                return true;
            }
        }
    }
    false
}

/// `text[a..]` for byte offset `a`, or `None` where `a` is not a character boundary.
fn suffix_text(text: &str, a: usize) -> (r: Option<String>)
    ensures
        r is Some <==> suffix_ok(text@, a as int),
        r matches Some(s) ==> s@ == suffix(text@, a as int),
{
    broadcast use vstd::utf8::group_utf8_lib;

    if !text.is_char_boundary(a) {
        return None;
    }
    let (_, right) = text.split_at(a);
    assert(right@ == decode_utf8(encode_utf8(right@)));
    Some(right.to_owned())
}

/// What one parameter of the infobox contributes to the update.
struct ParamInfo {
    name: Vec<char>,
    part: Vec<char>,
    old: Vec<char>,
    new_value: Vec<char>,
    changes: bool,
}

/// Reads one parameter: its name, its line in the updated infobox, its old
/// value and whether its value changes; `None` where it cannot be read
/// (`param_ok` fails, which `update_error` reports).
fn read_param(
    text: &str,
    vals: &[(&str, String)],
    lows: &Vec<Vec<char>>,
    p: &WikiParameter,
) -> (r: Option<ParamInfo>)
    requires
        lows@.len() == vals@.len(),
        forall|i: int| 0 <= i < vals@.len() ==> (#[trigger] lows@[i])@ == str_lower(vals@[i].0@),
    ensures
        r is Some <==> param_ok(text@, *p),
        r matches Some(info) ==> {
            &&& info.name@ == param_name(text@, *p)
            &&& info.part@ == updated_part(text@, pairs_view(vals@), *p)
            &&& info.old@ == old_value(text@, *p)
            &&& info.changes == changes_meaning(text@, pairs_view(vals@), *p)
            &&& first_match(pairs_view(vals@), info.name@) matches Some(v) ==> info.new_value@ == v
        },
{
    let ghost pv = pairs_view(vals@);
    let nsp = match &p.2 {
        Some(ns) => if ns.len() == 1 {
            span_of(&ns[0])
        } else {
            None
        },
        None => None,
    };
    let (na, nb) = match nsp {
        Some(sp) => sp,
        None => {
            return None;
        },
    };
    let name_text = match slice_text(text, na, nb) {
        Some(t) => t,
        None => {
            return None;
        },
    };
    let whole = match slice_text(text, p.0, p.1) {
        Some(t) => t,
        None => {
            return None;
        },
    };
    let nv = p.3.len();
    let old: Vec<char> = if nv == 0 {
        Vec::new()
    } else {
        let f = span_of(&p.3[0]);
        let l = span_of(&p.3[nv - 1]);
        match (f, l) {
            (Some(f), Some(l)) => match slice_text(text, f.0, l.1) {
                Some(t) => chars_of(t.as_str()),
                None => {
                    return None;
                },
            },
            _ => {
                return None;
            },
        }
    };
    assert(old@ == old_value(text@, *p));
    let name = chars_of(name_text.as_str());
    let lname_text = lowercase(name_text.as_str());
    let lname = chars_of(lname_text.as_str());
    let n = vals.len();
    let mut j: usize = 0;
    let mut found = false;
    assert(pv.skip(0) =~= pv);
    while j < n && !found
        invariant
            n == vals@.len(),
            n == lows@.len(),
            pv == pairs_view(vals@),
            j <= n,
            lname@ == str_lower(name@),
            forall|i: int| 0 <= i < vals@.len() ==> (#[trigger] lows@[i])@ == str_lower(vals@[i].0@),
            !found ==> first_match(pv, name@) == first_match(pv.skip(j as int), name@),
            found ==> j < n && first_match(pv, name@) == Some(trim(pv[j as int].1)),
        decreases n - j + (if found { 0int } else { 1int }),
    {
        let ghost t = pv.skip(j as int);
        assert(t[0] == pv[j as int]);
        assert(pv[j as int].0 == vals@[j as int].0@);
        assert(lows@[j as int]@ == str_lower(vals@[j as int].0@));
        if same_chars(&lows[j], &lname) {
            found = true;
        } else {
            assert(t.drop_first() =~= pv.skip(j + 1));
            j += 1;
        }
    }
    if !found {
        assert(pv.skip(n as int) =~= Seq::<(Seq<char>, Seq<char>)>::empty());
        assert(first_match(pv, name@) is None);
        let part = chars_of(whole.as_str());
        return Some(ParamInfo { name, part, old, new_value: Vec::new(), changes: false });
    }
    let value = chars_of(vals[j].1.as_str());
    let new_value = trim_chars(&value);
    assert(pv[j as int].1 == vals@[j as int].1@);
    let mut part = chars_of(name_text.as_str());
    let eq = chars_of(" = ");
    append_chars(&mut part, &eq);
    append_chars(&mut part, &new_value);
    let last_update = chars_of("lastUpdate");
    let changes = !same_chars(&old, &new_value) && !same_chars(&name, &last_update);
    Some(ParamInfo { name, part, old, new_value, changes })
}

/// The keys of the fields that are not among `used`, in order.
fn unused_keys(vals: &[(&str, String)], used: &Vec<String>) -> (r: Vec<String>)
    ensures
        string_views(r@) == appended_keys(pairs_view(vals@), Some(string_views(used@))),
{
    let ghost pv = pairs_view(vals@);
    let ghost skip = Some(string_views(used@));
    let mut r: Vec<String> = Vec::new();
    let n = vals.len();
    for i in 0..n
        invariant
            n == vals@.len(),
            pv == pairs_view(vals@),
            skip == Some(string_views(used@)),
            string_views(r@) == appended_keys(pv.take(i as int), skip),
    {
        let ghost before = string_views(r@);
        assert(pv.take(i + 1).drop_last() =~= pv.take(i as int));
        assert(pv.take(i + 1).last() == pv[i as int]);
        let key = chars_of(vals[i].0);
        if !key_listed(used, &key) {
            r.push(string_of(&key));
            assert(string_views(r@) =~= before.push(pv[i as int].0));
        }
    }
    assert(pv.take(n as int) =~= pv);
    r
}

/// Updates the infobox of the page whose text is `page_text` and whose
/// parse is `page`, as `infobox_update` states: each parameter of the one
/// `{{Item}}` template whose name matches a field's key (compared
/// lowercased) takes that field's trimmed value, the other parameters keep
/// their text, and the fields whose key is not exactly a parameter's name
/// are added after them. The error says which check failed first.
fn update_or_error(
    page_text: &str,
    page: &WikiPage,
    new_ibox_values: &[(&str, String)],
) -> (r: Result<UpdateResult, InfoboxError>)
    ensures
        result_view(r) == infobox_update(page_text@, *page, pairs_view(new_ibox_values@)),
{
    let ghost text = page_text@;
    let ghost vals = pairs_view(new_ibox_values@);
    if page.1 > 0 {
        return Err(InfoboxError::ParseWarnings);
    }
    let idx = match find_infoboxes(page) {
        Some(idx) => idx,
        None => {
            return Err(InfoboxError::MalformedTemplateName);
        },
    };
    if idx.len() != 1 {
        return Err(InfoboxError::InfoboxCount(idx.len()));
    }
    let lows = lowered_keys(new_ibox_values);
    if duplicate_keys(new_ibox_values, &lows) {
        return Err(InfoboxError::DuplicateKeys);
    }
    let ghost ibox = infoboxes(page.0@)[0];
    assert(ibox == page.0@[idx@[0] as int]);
    proof {
        lemma_infoboxes_are_templates(page.0@);
    }
    assert(is_infobox(ibox));
    let (start, end, params) = match &page.0[idx[0]] {
        TemplateNode(start, end, _, parameters) => (*start, *end, parameters),
        OtherNode => {
            assert(false);
            return Err(InfoboxError::MalformedTemplateName);
        },
    };
    let ghost ps = params@;
    assert(template_parts(ibox) == (start as int, end as int, ps));
    let np = params.len();
    let mut parts: Vec<String> = Vec::new();
    let mut used: Vec<String> = Vec::new();
    let mut meaningful = false;
    let mut version: Option<String> = None;
    let mut changes: Vec<(String, String, String)> = Vec::new();
    for k in 0..np
        invariant
            np == ps.len(),
            ps == params@,
            text == page_text@,
            page.1 == 0,
            template_names_ok(page.0@),
            infoboxes(page.0@).len() == 1,
            template_parts(infoboxes(page.0@)[0]) == (start as int, end as int, ps),
            !has_duplicate_keys(vals),
            vals == pairs_view(new_ibox_values@),
            lows@.len() == new_ibox_values@.len(),
            forall|i: int|
                0 <= i < new_ibox_values@.len() ==> (#[trigger] lows@[i])@ == str_lower(
                    new_ibox_values@[i].0@,
                ),
            forall|t: int| 0 <= t < k ==> #[trigger] param_ok(text, ps[t]),
            string_views(parts@) == ps.take(k as int).map_values(
                |p: WikiParameter| updated_part(text, vals, p),
            ),
            string_views(used@) == ps.take(k as int).map_values(
                |p: WikiParameter| param_name(text, p),
            ),
            meaningful == exists|t: int| 0 <= t < k && #[trigger] changes_meaning(text, vals, ps[t]),
            opt_view(version) == last_version(text, ps.take(k as int)),
            change_views(changes@) == changed_fields(text, vals, ps.take(k as int)),
    {
        let ghost parts_before = parts@;
        let ghost used_before = used@;
        let ghost m_before = meaningful;
        let info = match read_param(page_text, new_ibox_values, &lows, &params[k]) {
            Some(info) => info,
            None => {
                assert(!params_ok(text, ps));
                return Err(InfoboxError::MalformedParameter);
            },
        };
        assert(ps.take(k + 1).drop_last() =~= ps.take(k as int));
        assert(ps.take(k + 1).last() == ps[k as int]);
        parts.push(string_of(&info.part));
        used.push(string_of(&info.name));
        assert(string_views(parts@) =~= string_views(parts_before).push(info.part@));
        assert(string_views(used@) =~= string_views(used_before).push(info.name@));
        assert(ps.take(k + 1).map_values(|p: WikiParameter| updated_part(text, vals, p))
            =~= ps.take(k as int).map_values(|p: WikiParameter| updated_part(text, vals, p)).push(
            updated_part(text, vals, ps[k as int]),
        ));
        assert(ps.take(k + 1).map_values(|p: WikiParameter| param_name(text, p)) =~= ps.take(
            k as int,
        ).map_values(|p: WikiParameter| param_name(text, p)).push(param_name(text, ps[k as int])));
        let last_update = chars_of("lastUpdate");
        if same_chars(&info.name, &last_update) {
            version = Some(string_of(&info.old));
        }
        let ghost changes_before = change_views(changes@);
        if info.changes {
            meaningful = true;
            let entry = (string_of(&info.name), string_of(&info.old), string_of(&info.new_value));
            changes.push(entry);
            assert(change_views(changes@) =~= changes_before.push((info.name@, info.old@, info.new_value@)));
        } else {
            assert(change_views(changes@) =~= changes_before);
        }
        assert(meaningful == exists|t: int|
            0 <= t < k + 1 && #[trigger] changes_meaning(text, vals, ps[t])) by {
            if m_before {
                let w = choose|t: int| 0 <= t < k && #[trigger] changes_meaning(text, vals, ps[t]);
                assert(0 <= w < k + 1 && changes_meaning(text, vals, ps[w]));
            }
            if info.changes {
                assert(changes_meaning(text, vals, ps[k as int]));
            }
        }
    }
    assert(ps.take(np as int) =~= ps);
    assert(params_ok(text, ps));
    let prefix = match slice_text(page_text, 0, start) {
        Some(t) => t,
        None => {
            return Err(InfoboxError::TemplateOutsideText);
        },
    };
    let rest = match suffix_text(page_text, end) {
        Some(t) => t,
        None => {
            return Err(InfoboxError::TemplateOutsideText);
        },
    };
    let ghost parts_view = string_views(parts@);
    let ghost used_view = string_views(used@);
    let added_keys = unused_keys(new_ibox_values, &used);
    let ibox_text = _make_infobox_skipping_some(new_ibox_values, parts, Some(&used));
    let mut out = chars_of(prefix.as_str());
    let middle = chars_of(ibox_text.as_str());
    append_chars(&mut out, &middle);
    let tail = chars_of(rest.as_str());
    append_chars(&mut out, &tail);
    let result = UpdateResult {
        new_text: string_of(&out),
        meaningful_change: meaningful,
        old_version: version,
        changes,
        added_keys,
    };
    assert(result_view(Ok(result)) == infobox_update(text, *page, vals));
    Ok(result)
}

/// Which check an update of the page whose text is `page_text` and whose
/// parse is `page` fails first, as `update_error` states; `None` when the
/// page can be updated with the fields.
pub fn infobox_update_error(
    page_text: &str,
    page: &WikiPage,
    new_ibox_values: &[(&str, String)],
) -> (r: Option<InfoboxError>)
    ensures
        r == update_error(page_text@, *page, pairs_view(new_ibox_values@)),
{
    match update_or_error(page_text, page, new_ibox_values) {
        Ok(_) => None,
        Err(e) => Some(e),
    }
}

/// Updates the infobox of the page whose text is `page_text` and whose
/// parse is `page`, as `updated_view` states: each parameter of the one
/// `{{Item}}` template whose name matches a field's key (compared
/// lowercased) takes that field's trimmed value, the other parameters keep
/// their text, and the fields whose key is not exactly a parameter's name
/// are added after them. The page must pass every check of `update_error`
/// (`infobox_update_error` tells whether it does).
pub fn update_infobox_in_page(
    page_text: &str,
    page: &WikiPage,
    new_ibox_values: &[(&str, String)],
) -> (r: UpdateResult)
    requires
        update_error(page_text@, *page, pairs_view(new_ibox_values@)) is None,
    ensures
        update_view(r) == updated_view(
            page_text@,
            infoboxes(page.0@)[0],
            pairs_view(new_ibox_values@),
        ),
{
    match update_or_error(page_text, page, new_ibox_values) {
        Ok(u) => u,
        Err(_) => {
            proof {
                assert(false);
            }
            UpdateResult {
                new_text: String::new(),
                meaningful_change: false,
                old_version: None,
                changes: Vec::new(),
                added_keys: Vec::new(),
            }
        },
    }
}

/// Updates the infobox of an item page with the given fields: parses the
/// page text and updates the infobox of the parse, as
/// `update_infobox_in_page` does. The parse must pass every check of
/// `update_error` (`try_update_infobox` tests that first).
pub fn update_infobox(page_text: &str, new_ibox_values: &[(&str, String)]) -> (r: UpdateResult)
    requires
        update_error(page_text@, parsed_page(page_text@), pairs_view(new_ibox_values@)) is None,
    ensures
        update_view(r) == updated_view(
            page_text@,
            infoboxes(parsed_page(page_text@).0@)[0],
            pairs_view(new_ibox_values@),
        ),
{
    let page = parse_wiki_page(page_text);
    update_infobox_in_page(page_text, &page, new_ibox_values)
}

/// Parses the page text and, where the parse passes every check of
/// `update_error`, updates its infobox as `update_infobox` does; otherwise
/// returns the first check that fails.
pub fn try_update_infobox(page_text: &str, new_ibox_values: &[(&str, String)]) -> (r: Result<
    UpdateResult,
    InfoboxError,
>)
    ensures
        result_view(r) == infobox_update(
            page_text@,
            parsed_page(page_text@),
            pairs_view(new_ibox_values@),
        ),
{
    let page = parse_wiki_page(page_text);
    match infobox_update_error(page_text, &page, new_ibox_values) {
        Some(e) => Err(e),
        None => Ok(update_infobox(page_text, new_ibox_values)),
    }
}

// ----------------------------------------------------------------------------
// Laws
// ----------------------------------------------------------------------------
/// Fields whose keys are all skipped add nothing to an infobox.
pub proof fn lemma_skipped_fields_add_nothing(
    vals: Seq<(Seq<char>, Seq<char>)>,
    pre: Seq<Seq<char>>,
    keys: Seq<Seq<char>>,
)
    requires
        forall|k: int| 0 <= k < vals.len() ==> keys.contains(#[trigger] vals[k].0),
    ensures
        infobox_text(vals, pre, Some(keys)) == infobox_text(seq![], pre, None),
{
    lemma_all_skipped_parts_empty(vals, keys);
    assert(appended_parts(vals, Some(keys)) =~= appended_parts(seq![], None));
}

/// With every key skipped, no field is appended.
proof fn lemma_all_skipped_parts_empty(vals: Seq<(Seq<char>, Seq<char>)>, keys: Seq<Seq<char>>)
    requires
        forall|k: int| 0 <= k < vals.len() ==> keys.contains(#[trigger] vals[k].0),
    ensures
        appended_parts(vals, Some(keys)) == Seq::<Seq<char>>::empty(),
    decreases vals.len(),
{
    if vals.len() > 0 {
        let rest = vals.drop_last();
        assert forall|k: int| 0 <= k < rest.len() implies keys.contains(#[trigger] rest[k].0) by {
            assert(rest[k] == vals[k]);
        }
        lemma_all_skipped_parts_empty(rest, keys);
        assert(keys.contains(vals[vals.len() - 1].0));
    }
}

/// With every key skipped, no key is appended.
proof fn lemma_all_skipped_keys_empty(vals: Seq<(Seq<char>, Seq<char>)>, keys: Seq<Seq<char>>)
    requires
        forall|k: int| 0 <= k < vals.len() ==> keys.contains(#[trigger] vals[k].0),
    ensures
        appended_keys(vals, Some(keys)) == Seq::<Seq<char>>::empty(),
    decreases vals.len(),
{
    if vals.len() > 0 {
        let rest = vals.drop_last();
        assert forall|k: int| 0 <= k < rest.len() implies keys.contains(#[trigger] rest[k].0) by {
            assert(rest[k] == vals[k]);
        }
        lemma_all_skipped_keys_empty(rest, keys);
        assert(keys.contains(vals[vals.len() - 1].0));
    }
}

/// An update keeps the page text around the infobox: the new text begins
/// with the text before the infobox and ends with the text after it.
pub proof fn lemma_update_keeps_surroundings(
    text: Seq<char>,
    page: WikiPage,
    vals: Seq<(Seq<char>, Seq<char>)>,
)
    requires
        update_error(text, page, vals) is None,
    ensures
        ({
            let (start, end, ps) = template_parts(infoboxes(page.0@)[0]);
            let new_text = infobox_update(text, page, vals)->Ok_0.new_text;
            &&& new_text.take(slice(text, 0, start).len() as int) == slice(text, 0, start)
            &&& new_text.skip(new_text.len() - suffix(text, end).len()) == suffix(text, end)
        }),
{
    let (start, end, ps) = template_parts(infoboxes(page.0@)[0]);
    let v = updated_view(text, infoboxes(page.0@)[0], vals);
    let pre = slice(text, 0, start);
    let post = suffix(text, end);
    let parts = ps.map_values(|p: WikiParameter| updated_part(text, vals, p));
    let used = ps.map_values(|p: WikiParameter| param_name(text, p));
    let mid = infobox_text(vals, parts, Some(used));
    assert(v.new_text == pre + mid + post);
    assert(v.new_text.take(pre.len() as int) =~= pre);
    assert(v.new_text.skip(v.new_text.len() - post.len()) =~= post);
}

/// Updating with no fields changes no value: every parameter keeps its
/// text, nothing is appended, and the change is not meaningful.
pub proof fn lemma_update_without_fields(text: Seq<char>, ibox: WikiNode)
    ensures
        ({
            let (start, end, ps) = template_parts(ibox);
            let v = updated_view(text, ibox, seq![]);
            &&& !v.meaningful_change
            &&& v.new_text == slice(text, 0, start) + infobox_text(
                seq![],
                ps.map_values(|p: WikiParameter| slice(text, p.0 as int, p.1 as int)),
                None,
            ) + suffix(text, end)
        }),
{
    let (start, end, ps) = template_parts(ibox);
    let none = Seq::<(Seq<char>, Seq<char>)>::empty();
    let parts = ps.map_values(|p: WikiParameter| updated_part(text, none, p));
    let own = ps.map_values(|p: WikiParameter| slice(text, p.0 as int, p.1 as int));
    assert(parts =~= own);
    let used = ps.map_values(|p: WikiParameter| param_name(text, p));
    assert(appended_parts(none, Some(used)) =~= appended_parts(none, None));
    assert forall|k: int| 0 <= k < ps.len() implies !#[trigger] changes_meaning(text, none, ps[k]) by {}
}


/// An update lists a change exactly when it is meaningful: the changes are
/// empty precisely when no parameter changes meaningfully.
pub proof fn lemma_changes_listed_when_meaningful(
    text: Seq<char>,
    vals: Seq<(Seq<char>, Seq<char>)>,
    ps: Seq<WikiParameter>,
)
    ensures
        changed_fields(text, vals, ps).len() > 0 <==> exists|k: int|
            0 <= k < ps.len() && #[trigger] changes_meaning(text, vals, ps[k]),
    decreases ps.len(),
{
    if ps.len() > 0 {
        let init = ps.drop_last();
        lemma_changes_listed_when_meaningful(text, vals, init);
        if exists|k: int| 0 <= k < init.len() && #[trigger] changes_meaning(text, vals, init[k]) {
            let k = choose|k: int| 0 <= k < init.len() && #[trigger] changes_meaning(text, vals, init[k]);
            assert(ps[k] == init[k]);
        }
        if exists|k: int| 0 <= k < ps.len() && #[trigger] changes_meaning(text, vals, ps[k]) {
            let k = choose|k: int| 0 <= k < ps.len() && #[trigger] changes_meaning(text, vals, ps[k]);
            if k < init.len() {
                assert(init[k] == ps[k]);
            }
        }
    }
}


/// The first field whose key matches `name` (lowercased) gives its value.
pub proof fn lemma_first_match_at(vals: Seq<(Seq<char>, Seq<char>)>, name: Seq<char>, k: int)
    requires
        0 <= k < vals.len(),
        str_lower(vals[k].0) == str_lower(name),
        forall|i: int| 0 <= i < k ==> str_lower(#[trigger] vals[i].0) != str_lower(name),
    ensures
        first_match(vals, name) == Some(trim(vals[k].1)),
    decreases k,
{
    if k > 0 {
        let rest = vals.drop_first();
        assert forall|i: int| 0 <= i < k - 1 implies str_lower(#[trigger] rest[i].0) != str_lower(
            name,
        ) by {
            assert(rest[i] == vals[i + 1]);
        }
        assert(str_lower(vals[0].0) != str_lower(name));
        lemma_first_match_at(rest, name, k - 1);
    }
}

/// With nothing skipped, the appended parts are "key = value" for every field, in order.
proof fn lemma_all_parts_appended(vals: Seq<(Seq<char>, Seq<char>)>)
    ensures
        appended_parts(vals, None).len() == vals.len(),
        forall|k: int|
            0 <= k < vals.len() ==> #[trigger] appended_parts(vals, None)[k] == vals[k].0 + " = "@
                + trim(vals[k].1),
    decreases vals.len(),
{
    if vals.len() > 0 {
        lemma_all_parts_appended(vals.drop_last());
        let rest = appended_parts(vals.drop_last(), None);
        assert forall|k: int| 0 <= k < vals.len() implies #[trigger] appended_parts(vals, None)[k]
            == vals[k].0 + " = "@ + trim(vals[k].1) by {
            if k < vals.len() - 1 {
                assert(appended_parts(vals, None)[k] == rest[k]);
                assert(vals.drop_last()[k] == vals[k]);
            }
        }
    }
}

/// Updating an infobox whose parameters already read the fields, in order
/// (each name is the field's key and each value its trimmed value), with
/// keys distinct once lowercased, gives the infobox that a new page with
/// those fields has, around the same surrounding text, and no change is
/// meaningful.
pub proof fn lemma_update_of_current_infobox(
    text: Seq<char>,
    ibox: WikiNode,
    vals: Seq<(Seq<char>, Seq<char>)>,
)
    requires
        !has_duplicate_keys(vals),
        template_parts(ibox).2.len() == vals.len(),
        forall|k: int|
            0 <= k < vals.len() ==> param_name(text, #[trigger] template_parts(ibox).2[k])
                == vals[k].0 && old_value(text, template_parts(ibox).2[k]) == trim(vals[k].1),
    ensures
        ({
            let (start, end, ps) = template_parts(ibox);
            let v = updated_view(text, ibox, vals);
            &&& v.new_text == slice(text, 0, start) + infobox_text(vals, seq![], None) + suffix(
                text,
                end,
            )
            &&& !v.meaningful_change
            &&& v.changes.len() == 0
            &&& v.added_keys.len() == 0
        }),
{
    let (start, end, ps) = template_parts(ibox);
    let parts = ps.map_values(|p: WikiParameter| updated_part(text, vals, p));
    let used = ps.map_values(|p: WikiParameter| param_name(text, p));
    lemma_all_parts_appended(vals);
    assert forall|k: int| 0 <= k < vals.len() implies first_match(vals, #[trigger] vals[k].0) == Some(
        trim(vals[k].1),
    ) by {
        assert forall|i: int| 0 <= i < k implies str_lower(#[trigger] vals[i].0) != str_lower(
            vals[k].0,
        ) by {
            if str_lower(vals[i].0) == str_lower(vals[k].0) {
                assert(has_duplicate_keys(vals));
            }
        }
        lemma_first_match_at(vals, vals[k].0, k);
    }
    assert forall|k: int| 0 <= k < ps.len() implies parts[k] == appended_parts(vals, None)[k] by {
        assert(param_name(text, ps[k]) == vals[k].0);
        assert(first_match(vals, vals[k].0) == Some(trim(vals[k].1)));
    }
    assert(parts =~= appended_parts(vals, None));
    assert forall|k: int| 0 <= k < vals.len() implies used.contains(#[trigger] vals[k].0) by {
        assert(used[k] == vals[k].0);
    }
    lemma_all_skipped_parts_empty(vals, used);
    lemma_all_skipped_keys_empty(vals, used);
    assert(parts + appended_parts(vals, Some(used)) =~= seq![] + appended_parts(vals, None));
    assert forall|k: int| 0 <= k < ps.len() implies !#[trigger] changes_meaning(text, vals, ps[k]) by {
        assert(param_name(text, ps[k]) == vals[k].0);
        assert(first_match(vals, vals[k].0) == Some(trim(vals[k].1)));
    }
    lemma_changes_listed_when_meaningful(text, vals, ps);
}


/// The listed changes are the parameters that change meaningfully, in
/// order, each with its name, old value and new value.
proof fn lemma_changed_fields_filter(
    text: Seq<char>,
    vals: Seq<(Seq<char>, Seq<char>)>,
    ps: Seq<WikiParameter>,
)
    ensures
        changed_fields(text, vals, ps) == ps.filter(
            |p: WikiParameter|
                first_match(vals, param_name(text, p)) is Some && first_match(
                    vals,
                    param_name(text, p),
                )->Some_0 != old_value(text, p) && param_name(text, p) != "lastUpdate"@,
        ).map_values(
            |p: WikiParameter|
                (
                    param_name(text, p),
                    old_value(text, p),
                    first_match(vals, param_name(text, p))->Some_0,
                ),
        ),
    decreases ps.len(),
{
    reveal(Seq::filter);
    let pred = |p: WikiParameter|
        first_match(vals, param_name(text, p)) is Some && first_match(
            vals,
            param_name(text, p),
        )->Some_0 != old_value(text, p) && param_name(text, p) != "lastUpdate"@;
    let f = |p: WikiParameter|
        (param_name(text, p), old_value(text, p), first_match(vals, param_name(text, p))->Some_0);
    if ps.len() > 0 {
        lemma_changed_fields_filter(text, vals, ps.drop_last());
        let fd = ps.drop_last().filter(pred);
        if pred(ps.last()) {
            assert(ps.filter(pred) == fd.push(ps.last()));
            assert(fd.push(ps.last()).map_values(f) =~= fd.map_values(f).push(f(ps.last())));
        } else {
            assert(ps.filter(pred) == fd);
        }
    } else {
        assert(ps.filter(pred).map_values(f) =~= Seq::<(Seq<char>, Seq<char>, Seq<char>)>::empty());
    }
}

/// An update is meaningful exactly when some parameter other than
/// "lastUpdate" gets a new value (the trimmed value of the first field
/// whose key matches its name) that differs from its old value, an empty
/// old value included; the changes list exactly those parameters, in order,
/// each with its name, old value and new value.
pub proof fn lemma_meaningful_changes(text: Seq<char>, ibox: WikiNode, vals: Seq<(Seq<char>, Seq<char>)>)
    ensures
        ({
            let ps = template_parts(ibox).2;
            let v = updated_view(text, ibox, vals);
            &&& v.meaningful_change <==> exists|k: int|
                0 <= k < ps.len() && #[trigger] first_match(vals, param_name(text, ps[k])) is Some
                    && first_match(vals, param_name(text, ps[k]))->Some_0 != old_value(text, ps[k])
                    && param_name(text, ps[k]) != "lastUpdate"@
            &&& v.changes == ps.filter(
                |p: WikiParameter|
                    first_match(vals, param_name(text, p)) is Some && first_match(
                        vals,
                        param_name(text, p),
                    )->Some_0 != old_value(text, p) && param_name(text, p) != "lastUpdate"@,
            ).map_values(
                |p: WikiParameter|
                    (
                        param_name(text, p),
                        old_value(text, p),
                        first_match(vals, param_name(text, p))->Some_0,
                    ),
            )
        }),
{
    let ps = template_parts(ibox).2;
    lemma_changed_fields_filter(text, vals, ps);
    let v = updated_view(text, ibox, vals);
    if v.meaningful_change {
        let k = choose|k: int| 0 <= k < ps.len() && #[trigger] changes_meaning(text, vals, ps[k]);
        assert(first_match(vals, param_name(text, ps[k])) is Some);
    }
    if exists|k: int|
        0 <= k < ps.len() && #[trigger] first_match(vals, param_name(text, ps[k])) is Some
            && first_match(vals, param_name(text, ps[k]))->Some_0 != old_value(text, ps[k])
            && param_name(text, ps[k]) != "lastUpdate"@ {
        let k = choose|k: int|
            0 <= k < ps.len() && #[trigger] first_match(vals, param_name(text, ps[k])) is Some
                && first_match(vals, param_name(text, ps[k]))->Some_0 != old_value(text, ps[k])
                && param_name(text, ps[k]) != "lastUpdate"@;
        assert(changes_meaning(text, vals, ps[k]));
    }
}

/// No field's key matches `name` (lowercased): there is no new value for it.
pub proof fn lemma_first_match_none(vals: Seq<(Seq<char>, Seq<char>)>, name: Seq<char>)
    requires
        forall|i: int| 0 <= i < vals.len() ==> str_lower(#[trigger] vals[i].0) != str_lower(name),
    ensures
        first_match(vals, name) is None,
    decreases vals.len(),
{
    if vals.len() > 0 {
        let rest = vals.drop_first();
        assert forall|i: int| 0 <= i < rest.len() implies str_lower(#[trigger] rest[i].0) != str_lower(
            name,
        ) by {
            assert(rest[i] == vals[i + 1]);
        }
        assert(str_lower(vals[0].0) != str_lower(name));
        lemma_first_match_none(rest, name);
    }
}

} // verus!
