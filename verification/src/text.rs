//! Text over characters: the few string operations that the rest of the library builds on,
//! each with the sequence of characters that it yields.

use vstd::prelude::*;

verus! {

/// `std::string::String::push` appends one character at the end.
pub assume_specification[ String::push ](s: &mut String, c: char)
    ensures
        final(s)@ == old(s)@.push(c),
;

/// A text between quotation marks, with the escapes that `{:?}` writes.
pub uninterp spec fn debug_text(s: Seq<char>) -> Seq<char>;

/// `<str as std::fmt::Debug>::fmt`, written out by `std::format`: the same text always
/// comes out the same.
#[verifier::external_body]
pub(crate) fn debug_str(s: &str) -> (r: String)
    ensures
        r@ == debug_text(s@),
{
    format!("{:?}", s)
}

/// The characters of a string, in order.
pub fn chars_of(s: &str) -> (r: Vec<char>)
    ensures
        r@ == s@,
{
    let mut out: Vec<char> = Vec::new();
    for c in it: s.chars()
        invariant
            it.seq() == s@,
            out@ == s@.take(it.index() as int),
    {
        out.push(c);
    }
    out
}

/// The string made of the characters from `from` up to, not including, `to`.
pub fn string_of(chars: &Vec<char>, from: usize, to: usize) -> (r: String)
    requires
        from <= to <= chars.len(),
    ensures
        r@ == chars@.subrange(from as int, to as int),
{
    let mut out = String::new();
    let mut i: usize = from;
    while i < to
        invariant
            from <= i <= to <= chars.len(),
            out@ == chars@.subrange(from as int, i as int),
        decreases to - i,
    {
        out.push(chars[i]);
        i = i + 1;
    }
    out
}

/// Whether two strings hold the same characters.
pub fn same(a: &str, b: &str) -> (r: bool)
    ensures
        r == (a@ == b@),
{
    a.to_string() == b.to_string()
}

/// Lower case for the ASCII letters, anything else unchanged.
pub open spec fn lower_char(c: char) -> char {
    if 'A' <= c && c <= 'Z' {
        ((c as u32) + 32) as char
    } else {
        c
    }
}

pub open spec fn lowered(s: Seq<char>) -> Seq<char> {
    s.map_values(|c: char| lower_char(c))
}

/// Lower case of one character.
fn to_lower_char(c: char) -> (r: char)
    ensures
        r == lower_char(c),
{
    if 'A' <= c && c <= 'Z' {
        ((c as u8) + 32) as char
    } else {
        c
    }
}

/// A copy with the ASCII letters in lower case.
pub fn to_lower(s: &str) -> (r: String)
    ensures
        r@ == lowered(s@),
{
    let chars = chars_of(s);
    let mut out = String::new();
    let mut i: usize = 0;
    while i < chars.len()
        invariant
            chars@ == s@,
            i <= chars.len(),
            out@ == lowered(s@.take(i as int)),
        decreases chars.len() - i,
    {
        out.push(to_lower_char(chars[i]));
        i = i + 1;
        assert(out@ =~= lowered(s@.take(i as int)));
    }
    assert(s@.take(i as int) =~= s@);
    out
}

/// Whether two strings are the same apart from the case of ASCII letters.
pub fn same_ignoring_case(a: &str, b: &str) -> (r: bool)
    ensures
        r == (lowered(a@) == lowered(b@)),
{
    to_lower(a) == to_lower(b)
}

/// The Unicode `White_Space` property.
pub open spec fn white_space(c: char) -> bool {
    let u = c as u32;
    ||| 0x09 <= u <= 0x0d
    ||| u == 0x20
    ||| u == 0x85
    ||| u == 0xa0
    ||| u == 0x1680
    ||| 0x2000 <= u <= 0x200a
    ||| u == 0x2028
    ||| u == 0x2029
    ||| u == 0x202f
    ||| u == 0x205f
    ||| u == 0x3000
}

fn is_white_space(c: char) -> (r: bool)
    ensures
        r == white_space(c),
{
    let u = c as u32;
    (0x09 <= u && u <= 0x0d) || u == 0x20 || u == 0x85 || u == 0xa0 || u == 0x1680 || (0x2000 <= u
        && u <= 0x200a) || u == 0x2028 || u == 0x2029 || u == 0x202f || u == 0x205f || u == 0x3000
}

pub open spec fn trimmed_start(s: Seq<char>) -> Seq<char>
    decreases s.len(),
{
    if s.len() > 0 && white_space(s[0]) {
        trimmed_start(s.drop_first())
    } else {
        s
    }
}

pub open spec fn trimmed_end(s: Seq<char>) -> Seq<char>
    decreases s.len(),
{
    if s.len() > 0 && white_space(s.last()) {
        trimmed_end(s.drop_last())
    } else {
        s
    }
}

/// `s` without the white space at both of its ends.
pub open spec fn trimmed(s: Seq<char>) -> Seq<char> {
    trimmed_end(trimmed_start(s))
}

/// Removes the white space at both ends.
pub fn trim(s: &str) -> (r: String)
    ensures
        r@ == trimmed(s@),
{
    let chars = chars_of(s);
    let mut from: usize = 0;
    assert(s@.skip(0) =~= s@);
    while from < chars.len() && is_white_space(chars[from])
        invariant
            chars@ == s@,
            from <= chars.len(),
            trimmed_start(s@.skip(from as int)) == trimmed_start(s@),
        decreases chars.len() - from,
    {
        assert(s@.skip(from as int).drop_first() =~= s@.skip(from + 1));
        from = from + 1;
    }
    assert(trimmed_start(s@) == s@.skip(from as int));
    let mut to: usize = chars.len();
    assert(s@.subrange(from as int, to as int) =~= s@.skip(from as int));
    while from < to && is_white_space(chars[to - 1])
        invariant
            chars@ == s@,
            from <= to <= chars.len(),
            trimmed_end(s@.subrange(from as int, to as int)) == trimmed(s@),
        decreases to - from,
    {
        assert(s@.subrange(from as int, to as int).drop_last() =~= s@.subrange(
            from as int,
            to - 1,
        ));
        to = to - 1;
    }
    string_of(&chars, from, to)
}

/// Text whose first and last characters are no white space is left as it is.
pub proof fn lemma_trimmed(s: Seq<char>)
    requires
        s.len() > 0 ==> !white_space(s[0]) && !white_space(s.last()),
    ensures
        trimmed(s) == s,
{
}

proof fn lemma_trimmed_start(s: Seq<char>)
    ensures
        trimmed_start(s).len() > 0 ==> !white_space(trimmed_start(s)[0]),
    decreases s.len(),
{
    if s.len() > 0 && white_space(s[0]) {
        lemma_trimmed_start(s.drop_first());
    }
}

proof fn lemma_trimmed_end(s: Seq<char>)
    ensures
        trimmed_end(s).len() > 0 ==> !white_space(trimmed_end(s).last()) && trimmed_end(s)[0]
            == s[0],
    decreases s.len(),
{
    if s.len() > 0 && white_space(s.last()) {
        lemma_trimmed_end(s.drop_last());
    }
}

/// Trimming what has been trimmed changes nothing.
pub proof fn lemma_trimmed_twice(s: Seq<char>)
    ensures
        trimmed(trimmed(s)) == trimmed(s),
{
    lemma_trimmed_start(s);
    lemma_trimmed_end(trimmed_start(s));
    lemma_trimmed(trimmed(s));
}

/// Whether `needle` stands in `hay` at `at`.
pub open spec fn occurs_at(hay: Seq<char>, needle: Seq<char>, at: int) -> bool {
    0 <= at && at + needle.len() <= hay.len() && hay.subrange(at, at + needle.len()) == needle
}

/// Whether `needle` stands somewhere in `hay`.
pub open spec fn holds(hay: Seq<char>, needle: Seq<char>) -> bool {
    exists|at: int| occurs_at(hay, needle, at)
}

pub fn stands_at(hay: &Vec<char>, needle: &Vec<char>, at: usize) -> (r: bool)
    requires
        at + needle.len() <= hay.len(),
    ensures
        r == occurs_at(hay@, needle@, at as int),
{
    let mut i: usize = 0;
    while i < needle.len()
        invariant
            at + needle.len() <= hay.len(),
            i <= needle.len(),
            forall|j: int| 0 <= j < i ==> hay@[at + j] == needle@[j],
        decreases needle.len() - i,
    {
        if hay[at + i] != needle[i] {
            assert(hay@.subrange(at as int, at + needle.len())[i as int] != needle@[i as int]);
            return false;
        }
        i = i + 1;
    }
    assert(hay@.subrange(at as int, at + needle.len()) =~= needle@);
    true
}

/// Whether `needle` is a part of `hay`.
pub fn contains(hay: &str, needle: &str) -> (r: bool)
    ensures
        r == holds(hay@, needle@),
{
    let h = chars_of(hay);
    let n = chars_of(needle);
    if n.len() > h.len() {
        assert forall|at: int| !occurs_at(hay@, needle@, at) by {}
        return false;
    }
    let last: usize = h.len() - n.len();
    let mut at: usize = 0;
    while at <= last
        invariant
            h@ == hay@,
            n@ == needle@,
            last == h.len() - n.len(),
            at <= last + 1,
            h.len() <= usize::MAX,
            forall|k: int| 0 <= k < at ==> !occurs_at(hay@, needle@, k),
        decreases last + 1 - at,
    {
        if stands_at(&h, &n, at) {
            return true;
        }
        if at == last {
            assert forall|k: int| !occurs_at(hay@, needle@, k) by {}
            return false;
        }
        at = at + 1;
    }
    false
}

/// Whether `s` begins with `prefix`.
pub fn starts_with(s: &str, prefix: &str) -> (r: bool)
    ensures
        r == occurs_at(s@, prefix@, 0),
{
    let h = chars_of(s);
    let n = chars_of(prefix);
    if n.len() > h.len() {
        false
    } else {
        stands_at(&h, &n, 0)
    }
}

/// The position of the first `c`, or the length where there is none.
pub open spec fn find_char(s: Seq<char>, c: char) -> int
    decreases s.len(),
{
    if s.len() == 0 || s[0] == c {
        0
    } else {
        1 + find_char(s.drop_first(), c)
    }
}

pub proof fn lemma_find_char(s: Seq<char>, c: char)
    ensures
        0 <= find_char(s, c) <= s.len(),
        find_char(s, c) < s.len() ==> s[find_char(s, c)] == c,
        forall|j: int| 0 <= j < find_char(s, c) ==> s[j] != c,
    decreases s.len(),
{
    if s.len() > 0 && s[0] != c {
        lemma_find_char(s.drop_first(), c);
        assert forall|j: int| 0 <= j < find_char(s, c) implies s[j] != c by {
            if j > 0 {
                assert(s[j] == s.drop_first()[j - 1]);
            }
        }
    }
}

/// A position before which no `c` stands, and at which one does or the text ends, is the
/// first one.
pub proof fn lemma_find_char_unique(s: Seq<char>, c: char, at: int)
    requires
        0 <= at <= s.len(),
        at < s.len() ==> s[at] == c,
        forall|j: int| 0 <= j < at ==> s[j] != c,
    ensures
        find_char(s, c) == at,
{
    lemma_find_char(s, c);
    let f = find_char(s, c);
    if f < at {
        assert(s[f] != c);
    }
    if at < f {
        assert(s[at] != c);
    }
}

/// What stands before and behind the first `c`.
pub open spec fn split_at_char(s: Seq<char>, c: char) -> Option<(Seq<char>, Seq<char>)> {
    let at = find_char(s, c);
    if at < s.len() {
        Some((s.take(at), s.skip(at + 1)))
    } else {
        None
    }
}

/// The position of the first `c`.
pub fn find(chars: &Vec<char>, c: char) -> (r: usize)
    ensures
        r == find_char(chars@, c),
        r <= chars.len(),
{
    let mut i: usize = 0;
    while i < chars.len() && chars[i] != c
        invariant
            i <= chars.len(),
            forall|j: int| 0 <= j < i ==> chars@[j] != c,
        decreases chars.len() - i,
    {
        i = i + 1;
    }
    proof {
        lemma_find_char_unique(chars@, c, i as int);
    }
    i
}

/// Splits at the first `c`, which belongs to neither part.
pub fn split_once(s: &str, c: char) -> (r: Option<(String, String)>)
    ensures
        match (r, split_at_char(s@, c)) {
            (Some(got), Some(want)) => got.0@ == want.0 && got.1@ == want.1,
            (None, None) => true,
            _ => false,
        },
{
    let chars = chars_of(s);
    let at = find(&chars, c);
    if at < chars.len() {
        let before = string_of(&chars, 0, at);
        let behind = string_of(&chars, at + 1, chars.len());
        assert(s@.subrange(0, at as int) =~= s@.take(at as int));
        assert(s@.subrange(at + 1, s@.len() as int) =~= s@.skip(at + 1));
        Some((before, behind))
    } else {
        None
    }
}

/// The parts one behind the other, with `sep` between each two.
pub open spec fn joined(parts: Seq<Seq<char>>, sep: Seq<char>) -> Seq<char>
    decreases parts.len(),
{
    if parts.len() == 0 {
        Seq::empty()
    } else if parts.len() == 1 {
        parts[0]
    } else {
        joined(parts.drop_last(), sep) + sep + parts.last()
    }
}

/// Puts `sep` between each two of the parts.
pub fn join(parts: &Vec<String>, sep: &str) -> (r: String)
    ensures
        r@ == joined(parts.deep_view(), sep@),
{
    let mut out = String::new();
    let mut i: usize = 0;
    let ghost all = parts.deep_view();
    while i < parts.len()
        invariant
            i <= parts.len(),
            all == parts.deep_view(),
            out@ == joined(all.take(i as int), sep@),
        decreases parts.len() - i,
    {
        proof {
            assert(all.take(i + 1).drop_last() =~= all.take(i as int));
            assert(all.take(i + 1).last() == parts@[i as int]@);
            if i == 0 {
                assert(out@ =~= Seq::<char>::empty());
                assert(out@ + parts@[0]@ =~= parts@[0]@);
            }
        }
        if i > 0 {
            out.append(sep);
        }
        out.append(parts[i].as_str());
        i = i + 1;
    }
    assert(all.take(i as int) =~= all);
    out
}

/// Whether the list holds a string with these characters.
pub fn listed(list: &Vec<String>, s: &str) -> (r: bool)
    ensures
        r == list.deep_view().contains(s@),
{
    let mut i: usize = 0;
    while i < list.len()
        invariant
            i <= list.len(),
            forall|j: int| 0 <= j < i ==> list@[j]@ != s@,
        decreases list.len() - i,
    {
        if same(list[i].as_str(), s) {
            assert(list.deep_view()[i as int] == s@);
            return true;
        }
        i = i + 1;
    }
    assert forall|j: int| 0 <= j < list.deep_view().len() implies list.deep_view()[j] != s@ by {
        assert(list.deep_view()[j] == list@[j]@);
    }
    false
}

/// Lower case keeps every character but the capitals A to Z, which become a to z.
pub proof fn law_lower_case_changes_only_capitals(s: Seq<char>, i: int)
    requires
        0 <= i < s.len(),
    ensures
        lowered(s).len() == s.len(),
        'A' <= s[i] <= 'Z' ==> lowered(s)[i] as int == s[i] as int + ('a' as int - 'A' as int),
        !('A' <= s[i] <= 'Z') ==> lowered(s)[i] == s[i],
{
}

/// What counts as white space, character by character.
pub proof fn law_white_space_is_that_of_unicode(c: char)
    ensures
        white_space(c) <==> c == ' ' || c == '\t' || c == '\n' || c == '\u{b}' || c == '\u{c}'
            || c == '\r' || c == '\u{85}' || c == '\u{a0}' || c == '\u{1680}' || ('\u{2000}' <= c
            <= '\u{200a}') || c == '\u{2028}' || c == '\u{2029}' || c == '\u{202f}' || c
            == '\u{205f}' || c == '\u{3000}',
{
}

/// Trimming takes white space away from both ends, all of it and nothing else.
pub proof fn law_trimming_takes_white_space_from_both_ends(s: Seq<char>)
    ensures
        trimmed(s).len() > 0 ==> !white_space(trimmed(s)[0]) && !white_space(trimmed(s).last()),
        exists|front: Seq<char>, back: Seq<char>|
            s == #[trigger] (front + trimmed(s) + back) && (forall|i: int|
                0 <= i < front.len() ==> white_space(#[trigger] front[i])) && (forall|i: int|
                0 <= i < back.len() ==> white_space(#[trigger] back[i])),
{
    lemma_trimmed_start(s);
    lemma_trimmed_end(trimmed_start(s));
    let front = lemma_taken_from_start(s);
    let back = lemma_taken_from_end(trimmed_start(s));
    assert(s =~= front + trimmed(s) + back);
}

proof fn lemma_taken_from_start(s: Seq<char>) -> (front: Seq<char>)
    ensures
        s == front + trimmed_start(s),
        forall|i: int| 0 <= i < front.len() ==> white_space(#[trigger] front[i]),
    decreases s.len(),
{
    if s.len() > 0 && white_space(s[0]) {
        let rest = lemma_taken_from_start(s.drop_first());
        let front = seq![s[0]] + rest;
        let t = trimmed_start(s.drop_first());
        assert(trimmed_start(s) == t);
        assert(front + t =~= seq![s[0]] + (rest + t));
        assert(s =~= seq![s[0]] + s.drop_first());
        front
    } else {
        assert(s =~= Seq::<char>::empty() + trimmed_start(s));
        Seq::empty()
    }
}

proof fn lemma_taken_from_end(s: Seq<char>) -> (back: Seq<char>)
    ensures
        s == trimmed_end(s) + back,
        forall|i: int| 0 <= i < back.len() ==> white_space(#[trigger] back[i]),
    decreases s.len(),
{
    if s.len() > 0 && white_space(s.last()) {
        let rest = lemma_taken_from_end(s.drop_last());
        let back = rest.push(s.last());
        let t = trimmed_end(s.drop_last());
        assert(trimmed_end(s) == t);
        assert(t + back =~= (t + rest).push(s.last()));
        assert(s =~= s.drop_last().push(s.last()));
        back
    } else {
        assert(s =~= trimmed_end(s) + Seq::<char>::empty());
        Seq::empty()
    }
}

/// A text is split at the first place where the character stands; put together again around
/// that character, the parts are the text.
pub proof fn law_a_text_is_split_at_the_first(s: Seq<char>, c: char)
    ensures
        match split_at_char(s, c) {
            Some((a, b)) => s == a + seq![c] + b && !a.contains(c),
            None => !s.contains(c),
        },
{
    lemma_find_char(s, c);
    if let Some((a, b)) = split_at_char(s, c) {
        assert(s =~= a + seq![c] + b);
    }
}

/// A text stands in another exactly where that one is made of something, the text, and
/// something else.
pub proof fn law_a_part_has_a_front_and_a_back(
    hay: Seq<char>,
    needle: Seq<char>,
    front: Seq<char>,
    back: Seq<char>,
    at: int,
)
    ensures
        hay == front + needle + back ==> occurs_at(hay, needle, front.len() as int) && holds(
            hay,
            needle,
        ),
        occurs_at(hay, needle, at) ==> at >= 0 && hay == hay.take(at) + needle + hay.skip(
            at + needle.len(),
        ),
        holds(hay, needle) ==> exists|k: int|
            0 <= k <= hay.len() - needle.len() && #[trigger] hay.subrange(k, k + needle.len())
                == needle,
{
    if hay == front + needle + back {
        assert(hay.subrange(front.len() as int, (front.len() + needle.len()) as int) =~= needle);
        assert(occurs_at(hay, needle, front.len() as int));
    }
    if occurs_at(hay, needle, at) {
        assert(hay =~= hay.take(at) + hay.subrange(at, at + needle.len()) + hay.skip(
            at + needle.len(),
        ));
    }
    if holds(hay, needle) {
        let k = choose|k: int| occurs_at(hay, needle, k);
        assert(hay.subrange(k, k + needle.len()) == needle);
    }
}

/// Nothing joined is nothing, one part is itself, and two lists of parts have the separator
/// between them.
pub proof fn law_parts_are_joined_with_the_separator_between(
    a: Seq<Seq<char>>,
    b: Seq<Seq<char>>,
    sep: Seq<char>,
)
    ensures
        a.len() == 0 ==> joined(a, sep).len() == 0,
        a.len() == 1 ==> joined(a, sep) == a[0],
        a.len() > 0 && b.len() > 0 ==> joined(a + b, sep) == joined(a, sep) + sep + joined(b, sep),
    decreases b.len(),
{
    if a.len() > 0 && b.len() > 0 {
        let both = a + b;
        assert(both.drop_last() =~= a + b.drop_last());
        assert(both.last() == b.last());
        if b.len() == 1 {
            assert(a + b.drop_last() =~= a);
        } else {
            law_parts_are_joined_with_the_separator_between(a, b.drop_last(), sep);
            assert(joined(both, sep) =~= joined(a, sep) + sep + joined(b, sep));
        }
    }
}

} // verus!
