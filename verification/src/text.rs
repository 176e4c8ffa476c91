//! Text over `char` sequences: whitespace trimming, substring search,
//! replacement, joining and decimal numerals, each with its specification,
//! and the few std calls (character iteration, case mapping) that the rest
//! of the library needs.
use vstd::prelude::*;
use vstd::string::StringSliceAdditionalSpecFns;
use vstd::utf8::{decode_utf8, encode_scalar, encode_utf8, is_char_boundary};

verus! {

// ----------------------------------------------------------------------------
// Specifications
// ----------------------------------------------------------------------------
/// The characters with the Unicode `White_Space` property, which `str::trim`
/// removes.
pub open spec fn is_white(c: char) -> bool {
    let u = c as u32;
    ||| 0x9 <= u <= 0xD
    ||| u == 0x20 || u == 0x85 || u == 0xA0 || u == 0x1680
    ||| 0x2000 <= u <= 0x200A
    ||| u == 0x2028 || u == 0x2029 || u == 0x202F || u == 0x205F || u == 0x3000
}

/// `s` without its leading whitespace.
pub open spec fn trim_start(s: Seq<char>) -> Seq<char>
    decreases s.len(),
{
    if s.len() > 0 && is_white(s[0]) {
        trim_start(s.drop_first())
    } else {
        s
    }
}

/// `s` without its trailing whitespace.
pub open spec fn trim_end(s: Seq<char>) -> Seq<char>
    decreases s.len(),
{
    if s.len() > 0 && is_white(s.last()) {
        trim_end(s.drop_last())
    } else {
        s
    }
}

/// `s` without leading and trailing whitespace.
pub open spec fn trim(s: Seq<char>) -> Seq<char> {
    trim_end(trim_start(s))
}

/// `p` occurs in `s` starting at index `i`.
pub open spec fn occurs_at(s: Seq<char>, p: Seq<char>, i: int) -> bool {
    0 <= i && i + p.len() <= s.len() && s.subrange(i, i + p.len()) == p
}

/// `p` is a substring of `s` (the empty sequence is a substring of every sequence).
pub open spec fn contains(s: Seq<char>, p: Seq<char>) -> bool {
    exists|i: int| occurs_at(s, p, i)
}

/// `s` begins with `p`.
pub open spec fn starts_with(s: Seq<char>, p: Seq<char>) -> bool {
    occurs_at(s, p, 0)
}

/// Replacement of an empty pattern: `rep` before every character and at the end.
pub open spec fn replace_empty(s: Seq<char>, rep: Seq<char>) -> Seq<char>
    decreases s.len(),
{
    if s.len() == 0 {
        rep
    } else {
        rep + seq![s[0]] + replace_empty(s.drop_first(), rep)
    }
}

/// Replacement of a non-empty pattern: scanning from the left, each
/// occurrence of `pat` that does not overlap an earlier replaced one becomes `rep`.
pub open spec fn replace_nonempty(s: Seq<char>, pat: Seq<char>, rep: Seq<char>) -> Seq<char>
    decreases s.len(),
{
    if pat.len() == 0 || s.len() < pat.len() {
        s
    } else if s.take(pat.len() as int) == pat {
        rep + replace_nonempty(s.skip(pat.len() as int), pat, rep)
    } else {
        seq![s[0]] + replace_nonempty(s.drop_first(), pat, rep)
    }
}

/// The result of `str::replace(s, pat, rep)`.
pub open spec fn replace_all(s: Seq<char>, pat: Seq<char>, rep: Seq<char>) -> Seq<char> {
    if pat.len() == 0 {
        replace_empty(s, rep)
    } else {
        replace_nonempty(s, pat, rep)
    }
}

/// The parts, in order, with `sep` between each two neighbours.
pub open spec fn join(parts: Seq<Seq<char>>, sep: Seq<char>) -> Seq<char>
    decreases parts.len(),
{
    if parts.len() == 0 {
        seq![]
    } else if parts.len() == 1 {
        parts[0]
    } else {
        join(parts.drop_last(), sep) + sep + parts.last()
    }
}

/// The decimal digit character of `d < 10`.
pub open spec fn digit_char(d: nat) -> char {
    if d == 0 { '0' }
    else if d == 1 { '1' }
    else if d == 2 { '2' }
    else if d == 3 { '3' }
    else if d == 4 { '4' }
    else if d == 5 { '5' }
    else if d == 6 { '6' }
    else if d == 7 { '7' }
    else if d == 8 { '8' }
    else { '9' }
}

/// The decimal digits of `n`, without leading zeros.
pub open spec fn digits(n: nat) -> Seq<char>
    decreases n,
{
    if n < 10 {
        seq![digit_char(n)]
    } else {
        digits(n / 10).push(digit_char(n % 10))
    }
}

/// The decimal numeral of `x` as `Display` writes an integer: a minus sign
/// for a negative number, then its digits.
pub open spec fn decimal(x: int) -> Seq<char> {
    if x < 0 {
        seq!['-'] + digits((-x) as nat)
    } else {
        digits(x as nat)
    }
}

/// The length of `s` in UTF-8 bytes, which `str::len` returns.
pub open spec fn utf8_len(s: Seq<char>) -> nat {
    encode_utf8(s).len()
}

/// `text[a..b]` is defined: `a <= b` and both are character boundaries of
/// the UTF-8 encoding of `text` (a boundary lies within the encoding).
pub open spec fn slice_ok(text: Seq<char>, a: int, b: int) -> bool {
    a <= b && is_char_boundary(encode_utf8(text), a) && is_char_boundary(encode_utf8(text), b)
}

/// The characters of `text[a..b]`, for byte offsets `a` and `b`.
pub open spec fn slice(text: Seq<char>, a: int, b: int) -> Seq<char> {
    decode_utf8(encode_utf8(text).subrange(a, b))
}

/// The character sequences of a vector of character vectors.
pub open spec fn views_of(v: Seq<Vec<char>>) -> Seq<Seq<char>> {
    v.map_values(|x: Vec<char>| x@)
}

// ----------------------------------------------------------------------------
// std calls
// ----------------------------------------------------------------------------
/// `c` is an ASCII character.
pub open spec fn ascii_char(c: char) -> bool {
    (c as int) < 128
}

/// Every character of `s` is ASCII.
pub open spec fn ascii_text(s: Seq<char>) -> bool {
    forall|k: int| 0 <= k < s.len() ==> ascii_char(#[trigger] s[k])
}

/// The code of an ASCII character lowercased: 'A'..'Z' become 'a'..'z'.
pub open spec fn ascii_lower_code(x: int) -> int {
    if 65 <= x <= 90 {
        x + 32
    } else {
        x
    }
}

/// The code of an ASCII character uppercased: 'a'..'z' become 'A'..'Z'.
pub open spec fn ascii_upper_code(x: int) -> int {
    if 97 <= x <= 122 {
        x - 32
    } else {
        x
    }
}

/// What `char::to_uppercase` yields for `c` (Unicode case mapping).
pub uninterp spec fn upper_of(c: char) -> Seq<char>;

/// What `char::to_lowercase` yields for `c` (Unicode case mapping).
pub uninterp spec fn lower_of(c: char) -> Seq<char>;

/// What `str::to_lowercase` returns for a string with the characters `s`.
pub uninterp spec fn str_lower(s: Seq<char>) -> Seq<char>;

/// The characters of `s`, in order.
pub(crate) fn chars_of(s: &str) -> (r: Vec<char>)
    ensures
        r@ == s@,
{
    broadcast use vstd::string::axiom_spec_iter;

    let mut r: Vec<char> = Vec::new();
    for c in it: s.chars()
        invariant
            it.seq() == s@,
            r@ == it.seq().take(it.index() as int),
    {
        r.push(c);
    }
    r
}

/// Calls `String::push`, which appends one character.
#[verifier::external_body]
pub(crate) fn push_char(s: &mut String, c: char)
    ensures
        final(s)@ == old(s)@.push(c),
{
    s.push(c)
}

/// Calls `char::to_uppercase`; the result is named by `upper_of`. The
/// Unicode mapping it follows maps an ASCII letter to its ASCII capital and
/// leaves every other ASCII character as it is.
#[verifier::external_body]
pub(crate) fn char_upper(c: char) -> (r: Vec<char>)
    ensures
        r@ == upper_of(c),
        ascii_char(c) ==> r@.len() == 1 && r@[0] as int == ascii_upper_code(c as int),
{
    c.to_uppercase().collect()
}

/// Calls `char::to_lowercase`; the result is named by `lower_of`. The
/// Unicode mapping it follows maps an ASCII capital to its small letter and
/// leaves every other ASCII character as it is.
#[verifier::external_body]
pub(crate) fn char_lower(c: char) -> (r: Vec<char>)
    ensures
        r@ == lower_of(c),
        ascii_char(c) ==> r@.len() == 1 && r@[0] as int == ascii_lower_code(c as int),
{
    c.to_lowercase().collect()
}

/// Calls `str::to_lowercase`; the result is named by `str_lower`. On ASCII
/// text it lowercases each character by itself, as `char::to_lowercase`
/// does: capitals become small letters and nothing else changes.
#[verifier::external_body]
pub(crate) fn lowercase(s: &str) -> (r: String)
    ensures
        r@ == str_lower(s@),
        ascii_text(s@) ==> r@.len() == s@.len() && forall|j: int|
            0 <= j < s@.len() ==> (#[trigger] r@[j]) as int == ascii_lower_code(s@[j] as int),
{
    s.to_lowercase()
}

// ----------------------------------------------------------------------------
// Implementations
// ----------------------------------------------------------------------------
/// The string with the characters of `v`.
pub fn string_of(v: &Vec<char>) -> (s: String)
    ensures
        s@ == v@,
{
    let mut s = String::new();
    let n = v.len();
    for i in 0..n
        invariant
            n == v@.len(),
            s@ == v@.take(i as int),
    {
        push_char(&mut s, v[i]);
        assert(v@.take(i + 1) =~= v@.take(i as int).push(v@[i as int]));
    }
    assert(v@.take(n as int) =~= v@);
    s
}

/// Appends the characters of `src` to `dst`.
pub fn append_chars(dst: &mut Vec<char>, src: &Vec<char>)
    ensures
        final(dst)@ == old(dst)@ + src@,
{
    let n = src.len();
    let ghost start = dst@;
    for i in 0..n
        invariant
            n == src@.len(),
            dst@ == start + src@.take(i as int),
    {
        dst.push(src[i]);
        assert(src@.take(i + 1) =~= src@.take(i as int).push(src@[i as int]));
    }
    assert(src@.take(n as int) =~= src@);
}

/// The characters of `v` from index `lo` up to, not including, `hi`.
pub fn sub_chars(v: &Vec<char>, lo: usize, hi: usize) -> (r: Vec<char>)
    requires
        lo <= hi <= v@.len(),
    ensures
        r@ == v@.subrange(lo as int, hi as int),
{
    let mut r: Vec<char> = Vec::new();
    for i in lo..hi
        invariant
            hi <= v@.len(),
            r@ == v@.subrange(lo as int, i as int),
    {
        r.push(v[i]);
        assert(v@.subrange(lo as int, i + 1) =~= v@.subrange(lo as int, i as int).push(
            v@[i as int],
        ));
    }
    r
}

/// Whether `c` has the Unicode `White_Space` property.
pub fn is_white_char(c: char) -> (b: bool)
    ensures
        b == is_white(c),
{
    let u: u32 = c as u32;
    (0x9 <= u && u <= 0xD) || u == 0x20 || u == 0x85 || u == 0xA0 || u == 0x1680 || (0x2000 <= u
        && u <= 0x200A) || u == 0x2028 || u == 0x2029 || u == 0x202F || u == 0x205F || u == 0x3000
}

/// `s` without leading and trailing whitespace.
pub fn trim_chars(s: &Vec<char>) -> (r: Vec<char>)
    ensures
        r@ == trim(s@),
{
    let n = s.len();
    let mut i: usize = 0;
    assert(s@.skip(0) =~= s@);
    while i < n && is_white_char(s[i])
        invariant
            i <= n,
            n == s@.len(),
            trim_start(s@) == trim_start(s@.skip(i as int)),
        decreases n - i,
    {
        assert(s@.skip(i as int).drop_first() =~= s@.skip(i + 1));
        i += 1;
    }
    assert(trim_start(s@) == s@.skip(i as int)) by {
        if i == n {
            assert(s@.skip(i as int) =~= Seq::<char>::empty());
        }
    }
    let mut j: usize = n;
    assert(s@.subrange(i as int, n as int) =~= s@.skip(i as int));
    while j > i && is_white_char(s[j - 1])
        invariant
            i <= j <= n,
            n == s@.len(),
            trim(s@) == trim_end(s@.subrange(i as int, j as int)),
        decreases j,
    {
        assert(s@.subrange(i as int, j as int).drop_last() =~= s@.subrange(i as int, j - 1));
        j -= 1;
    }
    sub_chars(s, i, j)
}

/// Whether `a` and `b` hold the same characters.
pub fn same_chars(a: &Vec<char>, b: &Vec<char>) -> (r: bool)
    ensures
        r == (a@ == b@),
{
    if a.len() != b.len() {
        return false;
    }
    let n = a.len();
    for k in 0..n
        invariant
            n == a@.len(),
            n == b@.len(),
            forall|t: int| 0 <= t < k ==> a@[t] == b@[t],
    {
        if a[k] != b[k] {
            return false;
        }
    }
    assert(a@ =~= b@);
    true
}

/// Whether `p` occurs in `s` at index `i`.
pub fn occurs_at_chars(s: &Vec<char>, p: &Vec<char>, i: usize) -> (b: bool)
    ensures
        b == occurs_at(s@, p@, i as int),
{
    if i > s.len() || p.len() > s.len() - i {
        return false;
    }
    let m = p.len();
    let sl = s.len();
    for k in 0..m
        invariant
            m == p@.len(),
            sl == s@.len(),
            i + m <= s@.len(),
            forall|t: int| 0 <= t < k ==> s@[i + t] == p@[t],
    {
        if s[i + k] != p[k] {
            assert(s@.subrange(i as int, i + m)[k as int] != p@[k as int]);
            return false;
        }
    }
    assert(s@.subrange(i as int, i + m) =~= p@);
    true
}

/// Whether `p` is a substring of `s`.
pub fn contains_chars(s: &Vec<char>, p: &Vec<char>) -> (b: bool)
    ensures
        b == contains(s@, p@),
{
    if p.len() > s.len() {
        assert forall|i: int| !occurs_at(s@, p@, i) by {}
        return false;
    }
    if p.len() == 0 {
        assert(s@.subrange(0, 0) =~= p@);
        assert(occurs_at(s@, p@, 0));
        return true;
    }
    let last = s.len() - p.len();
    for i in 0..last + 1
        invariant
            last + p@.len() == s@.len(),
            forall|t: int| 0 <= t < i ==> !occurs_at(s@, p@, t),
    {
        if occurs_at_chars(s, p, i) {
            return true;
        }
    }
    assert forall|i: int| !occurs_at(s@, p@, i) by {
        if 0 <= i <= last {
        }
    }
    false
}

/// `s` with every occurrence of `pat` replaced by `rep`, as `str::replace` does.
pub fn replace_chars(s: &Vec<char>, pat: &Vec<char>, rep: &Vec<char>) -> (r: Vec<char>)
    ensures
        r@ == replace_all(s@, pat@, rep@),
{
    let n = s.len();
    let m = pat.len();
    let mut out: Vec<char> = Vec::new();
    if m == 0 {
        assert(s@.skip(0) =~= s@);
        for i in 0..n
            invariant
                n == s@.len(),
                pat@.len() == 0,
                replace_all(s@, pat@, rep@) == out@ + replace_empty(s@.skip(i as int), rep@),
        {
            let ghost t = s@.skip(i as int);
            let ghost before = out@;
            assert(t.drop_first() =~= s@.skip(i + 1));
            append_chars(&mut out, rep);
            out.push(s[i]);
            assert(out@ + replace_empty(s@.skip(i + 1), rep@) =~= before + (rep@ + seq![t[0]]
                + replace_empty(t.drop_first(), rep@)));
        }
        assert(s@.skip(n as int) =~= Seq::<char>::empty());
        append_chars(&mut out, rep);
        return out;
    }
    let mut i: usize = 0;
    assert(s@.skip(0) =~= s@);
    while i < n && m <= n - i
        invariant
            i <= n,
            n == s@.len(),
            m == pat@.len(),
            m > 0,
            replace_all(s@, pat@, rep@) == out@ + replace_nonempty(s@.skip(i as int), pat@, rep@),
        decreases n - i,
    {
        let ghost t = s@.skip(i as int);
        if occurs_at_chars(s, pat, i) {
            assert(t.take(m as int) =~= s@.subrange(i as int, i + m));
            assert(t.skip(m as int) =~= s@.skip(i + m));
            append_chars(&mut out, rep);
            i += m;
        } else {
            assert(t.take(m as int) =~= s@.subrange(i as int, i + m));
            assert(t.drop_first() =~= s@.skip(i + 1));
            out.push(s[i]);
            i += 1;
        }
    }
    let rest = sub_chars(s, i, n);
    assert(rest@ =~= s@.skip(i as int));
    assert(replace_nonempty(s@.skip(i as int), pat@, rep@) == s@.skip(i as int));
    append_chars(&mut out, &rest);
    out
}

/// The parts with `sep` between each two neighbours.
pub fn join_chars(parts: &Vec<Vec<char>>, sep: &Vec<char>) -> (r: Vec<char>)
    ensures
        r@ == join(views_of(parts@), sep@),
{
    let mut out: Vec<char> = Vec::new();
    let n = parts.len();
    for i in 0..n
        invariant
            n == parts@.len(),
            out@ == join(views_of(parts@).take(i as int), sep@),
    {
        let ghost before = views_of(parts@).take(i as int);
        if i > 0 {
            append_chars(&mut out, sep);
        }
        append_chars(&mut out, &parts[i]);
        assert(views_of(parts@).take(i + 1).drop_last() =~= before);
    }
    assert(views_of(parts@).take(n as int) =~= views_of(parts@));
    out
}

/// The decimal digits of `n`.
pub fn digits_of(n: u64) -> (r: Vec<char>)
    ensures
        r@ == digits(n as nat),
    decreases n,
{
    let d: u64 = n % 10;
    let c = if d == 0 { '0' }
        else if d == 1 { '1' }
        else if d == 2 { '2' }
        else if d == 3 { '3' }
        else if d == 4 { '4' }
        else if d == 5 { '5' }
        else if d == 6 { '6' }
        else if d == 7 { '7' }
        else if d == 8 { '8' }
        else { '9' };
    if n < 10 {
        let mut r: Vec<char> = Vec::new();
        r.push(c);
        r
    } else {
        let mut r = digits_of(n / 10);
        r.push(c);
        r
    }
}

/// The decimal numeral of `x`, as `format!("{}", x)` writes it.
pub fn decimal_of(x: i32) -> (r: Vec<char>)
    ensures
        r@ == decimal(x as int),
{
    let wide: i64 = x as i64;
    if wide < 0 {
        let mut r: Vec<char> = Vec::new();
        r.push('-');
        let d = digits_of((-wide) as u64);
        append_chars(&mut r, &d);
        r
    } else {
        digits_of(wide as u64)
    }
}

/// Encoding one more character appends its encoding.
pub proof fn lemma_encode_utf8_push(s: Seq<char>, c: char)
    ensures
        encode_utf8(s.push(c)) == encode_utf8(s) + encode_scalar(c as u32),
    decreases s.len(),
{
    if s.len() == 0 {
        assert(s.push(c) =~= seq![c]);
        assert(seq![c].drop_first() =~= Seq::<char>::empty());
        assert(encode_utf8(Seq::<char>::empty()) =~= Seq::<u8>::empty());
        assert(seq![c][0] == c);
        assert(encode_utf8(seq![c]) =~= encode_scalar(c as u32));
    } else {
        lemma_encode_utf8_push(s.drop_first(), c);
        assert(s.push(c).drop_first() =~= s.drop_first().push(c));
        assert(encode_utf8(s.push(c)) =~= encode_utf8(s) + encode_scalar(c as u32));
    }
}

/// The number of bytes in the UTF-8 encoding of `c`.
pub fn utf8_width(c: char) -> (w: u128)
    ensures
        w == encode_scalar(c as u32).len(),
        1 <= w <= 4,
{
    broadcast use vstd::utf8::char_is_scalar;

    let u: u32 = c as u32;
    if u <= 0x7F {
        1
    } else if u <= 0x7FF {
        2
    } else if u <= 0xFFFF {
        3
    } else {
        4
    }
}

/// The length of `s` in UTF-8 bytes.
pub fn utf8_len_of(s: &Vec<char>) -> (n: u128)
    ensures
        n == utf8_len(s@),
{
    let mut n: u128 = 0;
    let len = s.len();
    for i in 0..len
        invariant
            len == s@.len(),
            n == utf8_len(s@.take(i as int)),
            n <= 4 * i,
    {
        let w = utf8_width(s[i]);
        proof {
            lemma_encode_utf8_push(s@.take(i as int), s@[i as int]);
            assert(s@.take(i + 1) =~= s@.take(i as int).push(s@[i as int]));
        }
        n = n + w;
    }
    assert(s@.take(len as int) =~= s@);
    n
}

/// `text[a..b]` for byte offsets `a` and `b`, or `None` where that slice
/// is not defined (and indexing a `str` would panic).
pub fn slice_text(text: &str, a: usize, b: usize) -> (r: Option<String>)
    ensures
        r is Some <==> slice_ok(text@, a as int, b as int),
        r matches Some(s) ==> s@ == slice(text@, a as int, b as int),
{
    broadcast use vstd::utf8::group_utf8_lib;

    if !(a <= b && text.is_char_boundary(a) && text.is_char_boundary(b)) {
        return None;
    }
    let ghost bytes = encode_utf8(text@);
    let (left, _) = text.split_at(b);
    assert(left.spec_bytes() =~= bytes.subrange(0, b as int));
    assert(is_char_boundary(left.spec_bytes(), a as int)) by {
        let lb = left.spec_bytes();
        vstd::utf8::encode_utf8_valid_utf8(text@);
        vstd::utf8::encode_utf8_valid_utf8(left@);
        assert(b as int <= bytes.len());
        if a == b {
            vstd::utf8::is_char_boundary_start_end_of_seq(lb);
        } else if a > 0 {
            assert(lb[a as int] == bytes[a as int]);
            vstd::utf8::is_char_boundary_iff_not_is_continuation_byte(bytes, a as int);
            vstd::utf8::is_char_boundary_iff_not_is_continuation_byte(lb, a as int);
        }
    }
    let (_, mid) = left.split_at(a);
    assert(mid.spec_bytes() =~= bytes.subrange(a as int, b as int));
    assert(mid@ == decode_utf8(encode_utf8(mid@)));
    Some(mid.to_owned())
}


// ----------------------------------------------------------------------------
// Laws
// ----------------------------------------------------------------------------
/// Replacing a non-empty pattern that does not occur leaves the text as it is.
pub proof fn lemma_replace_absent(s: Seq<char>, pat: Seq<char>, rep: Seq<char>)
    requires
        pat.len() > 0,
        forall|i: int| !#[trigger] occurs_at(s, pat, i),
    ensures
        replace_all(s, pat, rep) == s,
    decreases s.len(),
{
    if s.len() >= pat.len() {
        assert(!occurs_at(s, pat, 0));
        assert(s.take(pat.len() as int) =~= s.subrange(0, pat.len() as int));
        let t = s.drop_first();
        assert forall|i: int| !#[trigger] occurs_at(t, pat, i) by {
            if occurs_at(t, pat, i) {
                assert(t.subrange(i, i + pat.len()) =~= s.subrange(i + 1, i + 1 + pat.len()));
                assert(occurs_at(s, pat, i + 1));
            }
        }
        lemma_replace_absent(t, pat, rep);
        assert(seq![s[0]] + t =~= s);
    }
}

/// Replacing a non-empty pattern by itself leaves the text as it is.
pub proof fn lemma_replace_by_itself(s: Seq<char>, pat: Seq<char>)
    requires
        pat.len() > 0,
    ensures
        replace_all(s, pat, pat) == s,
    decreases s.len(),
{
    if s.len() >= pat.len() {
        if s.take(pat.len() as int) == pat {
            lemma_replace_by_itself(s.skip(pat.len() as int), pat);
            assert(pat + s.skip(pat.len() as int) =~= s);
        } else {
            lemma_replace_by_itself(s.drop_first(), pat);
            assert(seq![s[0]] + s.drop_first() =~= s);
        }
    }
}

/// Trimming keeps a contiguous part of the text: everything cut off before
/// and after it is whitespace, and the part neither begins nor ends with
/// whitespace.
pub proof fn lemma_trim_cuts_only_whitespace(s: Seq<char>)
    ensures
        exists|i: int, j: int|
            {
                &&& 0 <= i <= j <= s.len()
                &&& trim(s) == s.subrange(i, j)
                &&& forall|k: int| 0 <= k < i ==> is_white(#[trigger] s[k])
                &&& forall|k: int| j <= k < s.len() ==> is_white(#[trigger] s[k])
                &&& i < j ==> !is_white(s[i]) && !is_white(s[j - 1])
            },
{
    let i = lemma_trim_start_cut(s);
    let u = s.skip(i);
    let j = lemma_trim_end_cut(u);
    assert(trim(s) == u.subrange(0, j));
    assert(u.subrange(0, j) =~= s.subrange(i, i + j));
    assert forall|k: int| i + j <= k < s.len() implies is_white(#[trigger] s[k]) by {
        assert(s[k] == u[k - i]);
    }
    if 0 < j {
        assert(s[i] == u[0]);
        assert(s[i + j - 1] == u[j - 1]);
    }
    assert(0 <= i <= i + j <= s.len() && trim(s) == s.subrange(i, i + j));
}

/// Trimming the start drops whitespace up to the first other character.
proof fn lemma_trim_start_cut(s: Seq<char>) -> (i: int)
    ensures
        0 <= i <= s.len(),
        trim_start(s) == s.skip(i),
        forall|k: int| 0 <= k < i ==> is_white(#[trigger] s[k]),
        i < s.len() ==> !is_white(s[i]),
    decreases s.len(),
{
    if s.len() > 0 && is_white(s[0]) {
        let i0 = lemma_trim_start_cut(s.drop_first());
        assert(s.drop_first().skip(i0) =~= s.skip(i0 + 1));
        assert forall|k: int| 0 <= k < i0 + 1 implies is_white(#[trigger] s[k]) by {
            if k > 0 {
                assert(s[k] == s.drop_first()[k - 1]);
            }
        }
        if i0 + 1 < s.len() {
            assert(s[i0 + 1] == s.drop_first()[i0]);
        }
        i0 + 1
    } else {
        assert(s.skip(0) =~= s);
        0
    }
}

/// Trimming the end drops whitespace back to the last other character.
proof fn lemma_trim_end_cut(s: Seq<char>) -> (j: int)
    ensures
        0 <= j <= s.len(),
        trim_end(s) == s.subrange(0, j),
        forall|k: int| j <= k < s.len() ==> is_white(#[trigger] s[k]),
        0 < j ==> !is_white(s[j - 1]),
    decreases s.len(),
{
    if s.len() > 0 && is_white(s.last()) {
        let j0 = lemma_trim_end_cut(s.drop_last());
        assert(s.drop_last().subrange(0, j0) =~= s.subrange(0, j0));
        assert forall|k: int| j0 <= k < s.len() implies is_white(#[trigger] s[k]) by {
            if k < s.len() - 1 {
                assert(s[k] == s.drop_last()[k]);
            }
        }
        if 0 < j0 {
            assert(s[j0 - 1] == s.drop_last()[j0 - 1]);
        }
        j0
    } else {
        assert(s.subrange(0, s.len() as int) =~= s);
        s.len() as int
    }
}

} // verus!
