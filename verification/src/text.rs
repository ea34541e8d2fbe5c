//! Text: concatenation, comparison, search and numerals.

use vstd::prelude::*;

verus! {

/// `parent` and `leaf` joined by the delimiter of column paths.
pub open spec fn dotted(parent: Seq<char>, leaf: Seq<char>) -> Seq<char> {
    parent + "."@ + leaf
}

/// Appends one character to a string.
///
/// Specifies `String::push`: the string holds what it held before, then `c`.
pub assume_specification[ std::string::String::push ](s: &mut std::string::String, c: char)
    ensures
        final(s)@ == old(s)@.push(c),
;

/// What `str::to_lowercase` makes of a text.
pub uninterp spec fn lower(text: Seq<char>) -> Seq<char>;

/// Calls `str::to_lowercase`, the Unicode lower-casing of std, whose result depends on the text
/// alone.
#[verifier::external_body]
pub(crate) fn to_lower(text: &str) -> (result: String)
    ensures
        result@ == lower(text@),
{
    text.to_lowercase()
}

/// Whether two texts are the same.
pub(crate) fn text_eq(a: &str, b: &str) -> (equal: bool)
    ensures
        equal == (a@ == b@),
{
    a.to_owned() == b.to_owned()
}

/// Whether two optional texts are the same.
pub(crate) fn opt_text_eq(a: &Option<String>, b: &Option<String>) -> (equal: bool)
    ensures
        equal == (opt_text(*a) == opt_text(*b)),
{
    match (a, b) {
        (Some(x), Some(y)) => *x == *y,
        (None, None) => true,
        _ => false,
    }
}

/// An optional text by its view.
pub open spec fn opt_text(text: Option<String>) -> Option<Seq<char>> {
    match text {
        Some(t) => Some(t@),
        None => None,
    }
}

/// The texts of a list of strings.
pub open spec fn texts(list: Seq<String>) -> Seq<Seq<char>> {
    list.map_values(|s: String| s@)
}

/// Two texts, one after the other.
pub(crate) fn cat2(a: &str, b: &str) -> (result: String)
    ensures
        result@ == a@ + b@,
{
    a.to_owned().concat(b)
}

/// Three texts, one after the other.
pub(crate) fn cat3(a: &str, b: &str, c: &str) -> (result: String)
    ensures
        result@ == a@ + b@ + c@,
{
    a.to_owned().concat(b).concat(c)
}

/// Four texts, one after the other.
pub(crate) fn cat4(a: &str, b: &str, c: &str, d: &str) -> (result: String)
    ensures
        result@ == a@ + b@ + c@ + d@,
{
    a.to_owned().concat(b).concat(c).concat(d)
}

/// Six texts, one after the other.
pub(crate) fn cat6(a: &str, b: &str, c: &str, d: &str, e: &str, f: &str) -> (result: String)
    ensures
        result@ == a@ + b@ + c@ + d@ + e@ + f@,
{
    a.to_owned().concat(b).concat(c).concat(d).concat(e).concat(f)
}

/// A column path from its parent's path and its own name.
pub(crate) fn join_path(parent: &str, leaf: &str) -> (result: String)
    ensures
        result@ == dotted(parent@, leaf@),
{
    cat3(parent, ".", leaf)
}

/// The characters of a text.
pub(crate) fn chars_of(text: &str) -> (result: Vec<char>)
    ensures
        result@ == text@,
{
    let mut result: Vec<char> = Vec::new();
    for c in it: text.chars()
        invariant
            it.seq() == text@,
            result@ == text@.take(it.index() as int),
    {
        assert(text@.take(it.index() + 1) =~= text@.take(it.index() as int).push(c));
        result.push(c);
    }
    assert(text@.take(text@.len() as int) =~= text@);
    result
}

/// The text that `chars` spell from `from` up to `to`.
pub(crate) fn text_of(chars: &Vec<char>, from: usize, to: usize) -> (result: String)
    requires
        from <= to <= chars@.len(),
    ensures
        result@ == chars@.subrange(from as int, to as int),
{
    let mut result = String::new();
    let mut i: usize = from;
    while i < to
        invariant
            from <= i <= to <= chars@.len(),
            result@ == chars@.subrange(from as int, i as int),
        decreases to - i,
    {
        result.push(chars[i]);
        i += 1;
        assert(chars@.subrange(from as int, i as int) =~= chars@.subrange(
            from as int,
            i - 1,
        ).push(chars@[i - 1]));
    }
    result
}

/// Whether `c` occurs in `text`.
pub(crate) fn contains_char(text: &str, c: char) -> (found: bool)
    ensures
        found == text@.contains(c),
{
    let chars = chars_of(text);
    let mut i: usize = 0;
    while i < chars.len()
        invariant
            chars@ == text@,
            i <= chars@.len(),
            forall|j: int| 0 <= j < i ==> chars@[j] != c,
        decreases chars@.len() - i,
    {
        if chars[i] == c {
            return true;
        }
        i += 1;
    }
    false
}

/// Whether `name` is one of `list`.
pub(crate) fn contains_text(list: &Vec<String>, name: &str) -> (found: bool)
    ensures
        found == texts(list@).contains(name@),
{
    let mut i: usize = 0;
    while i < list.len()
        invariant
            i <= list@.len(),
            forall|j: int| 0 <= j < i ==> texts(list@)[j] != name@,
        decreases list@.len() - i,
    {
        if text_eq(list[i].as_str(), name) {
            assert(texts(list@)[i as int] == name@);
            return true;
        }
        i += 1;
    }
    false
}

/// The decimal digit that stands for `d`.
pub open spec fn digit_char(d: int) -> char {
    (48 + d) as char
}

/// The decimal numeral of a natural number.
pub open spec fn numeral(n: nat) -> Seq<char>
    decreases n,
{
    if n < 10 {
        seq![digit_char(n as int)]
    } else {
        numeral(n / 10).push(digit_char((n % 10) as int))
    }
}

/// The decimal numeral of an integer, with a minus sign where it is negative.
pub open spec fn int_numeral(n: int) -> Seq<char> {
    if n < 0 {
        "-"@ + numeral((-n) as nat)
    } else {
        numeral(n as nat)
    }
}

/// The character of one decimal digit.
fn digit(d: u8) -> (c: char)
    requires
        d < 10,
    ensures
        c == digit_char(d as int),
{
    (48 + d) as char
}

/// The decimal numeral of an unsigned number.
pub fn nat_to_text(n: u128) -> (text: String)
    ensures
        text@ == numeral(n as nat),
    decreases n,
{
    let mut text = if n < 10 {
        String::new()
    } else {
        nat_to_text(n / 10)
    };
    text.push(digit((n % 10) as u8));
    assert(numeral(n as nat) =~= text@);
    text
}

/// The decimal numeral of a signed number.
pub fn int_to_text(n: i64) -> (text: String)
    ensures
        text@ == int_numeral(n as int),
{
    if n < 0 {
        let magnitude: u128 = (-(n as i128)) as u128;
        cat2("-", nat_to_text(magnitude).as_str())
    } else {
        nat_to_text(n as u128)
    }
}

} // verus!
