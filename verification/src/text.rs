//! Text as sequences of characters: searching, ordering, trimming, splitting, and letter case.
use vstd::prelude::*;
use vstd::string::StrSliceExecFns;
use vstd::utf8::is_ascii_chars;

verus! {

// ---------------------------------------------------------------------------
// Characters of a string
// ---------------------------------------------------------------------------

/// The characters of `text`, in order.
pub fn chars_of(text: &str) -> (chars: Vec<char>)
    ensures
        chars@ == text@,
{
    let mut chars: Vec<char> = Vec::new();
    for c in it: text.chars()
        invariant
            chars@ == text@.take(it.index()),
            it.seq() == text@,
    {
        chars.push(c);
    }
    chars
}

/// The code point of `c`.
pub fn code_point(c: char) -> (n: u32)
    ensures
        n == c as int,
{
    c as u32
}

/// Whether two strings hold the same characters.
pub fn same_text(a: &str, b: &str) -> (same: bool)
    ensures
        same == (a@ == b@),
{
    let a_chars = chars_of(a);
    let b_chars = chars_of(b);
    if a_chars.len() != b_chars.len() {
        return false;
    }
    for i in 0..a_chars.len()
        invariant
            a_chars@ == a@,
            b_chars@ == b@,
            a_chars.len() == b_chars.len(),
            forall|j: int| 0 <= j < i ==> a_chars@[j] == b_chars@[j],
    {
        if a_chars[i] != b_chars[i] {
            assert(a@[i as int] != b@[i as int]);
            return false;
        }
    }
    assert(a@ =~= b@);
    true
}

// ---------------------------------------------------------------------------
// Substrings
// ---------------------------------------------------------------------------

/// `needle` stands in `text` from position `at` on.
pub open spec fn occurs_at(text: Seq<char>, needle: Seq<char>, at: int) -> bool {
    &&& 0 <= at
    &&& at + needle.len() <= text.len()
    &&& text.subrange(at, at + needle.len()) == needle
}

/// `needle` stands somewhere in `text`; the empty needle stands in every text.
pub open spec fn contains_text(text: Seq<char>, needle: Seq<char>) -> bool {
    exists|at: int| occurs_at(text, needle, at)
}

/// Whether `needle` stands in `text` from position `at` on.
fn matches_at(text: &Vec<char>, needle: &Vec<char>, at: usize) -> (found: bool)
    requires
        at + needle@.len() <= text@.len(),
    ensures
        found == occurs_at(text@, needle@, at as int),
{
    let length: usize = text.len();
    for j in 0..needle.len()
        invariant
            at + needle@.len() <= text@.len(),
            text@.len() == length,
            forall|k: int| 0 <= k < j ==> text@[at + k] == needle@[k],
    {
        if text[at + j] != needle[j] {
            assert(text@.subrange(at as int, at + needle@.len())[j as int] != needle@[j as int]);
            return false;
        }
    }
    assert(text@.subrange(at as int, at + needle@.len()) =~= needle@);
    true
}

/// Whether `needle` stands somewhere in `text`.
pub fn has_chars(text: &Vec<char>, needle: &Vec<char>) -> (found: bool)
    ensures
        found == contains_text(text@, needle@),
{
    if needle.len() > text.len() {
        return false;
    }
    let last: usize = text.len() - needle.len();
    let mut at: usize = 0;
    while at <= last
        invariant
            last + needle@.len() == text@.len(),
            at <= last + 1,
            forall|k: int| 0 <= k < at ==> !occurs_at(text@, needle@, k),
        decreases last + 1 - at,
    {
        if matches_at(text, needle, at) {
            return true;
        }
        if at == last {
            return false;
        }
        at = at + 1;
    }
    false
}

/// Whether `needle` stands somewhere in `text`.
pub fn has_text(text: &str, needle: &str) -> (found: bool)
    ensures
        found == contains_text(text@, needle@),
{
    has_chars(&chars_of(text), &chars_of(needle))
}

// ---------------------------------------------------------------------------
// Order
// ---------------------------------------------------------------------------

/// `a` comes before `b` in dictionary order by code point.
pub open spec fn text_before(a: Seq<char>, b: Seq<char>) -> bool
    decreases a.len(),
{
    if b.len() == 0 {
        false
    } else if a.len() == 0 {
        true
    } else if a[0] != b[0] {
        (a[0] as int) < (b[0] as int)
    } else {
        text_before(a.drop_first(), b.drop_first())
    }
}

/// No text comes before itself.
pub proof fn lemma_text_before_irreflexive(a: Seq<char>)
    ensures
        !text_before(a, a),
    decreases a.len(),
{
    if a.len() > 0 {
        lemma_text_before_irreflexive(a.drop_first());
    }
}

/// Of two different texts one comes before the other.
pub proof fn lemma_text_before_total(a: Seq<char>, b: Seq<char>)
    ensures
        a == b || text_before(a, b) || text_before(b, a),
    decreases a.len(),
{
    if a.len() == 0 {
        if b.len() == 0 {
            assert(a =~= b);
        }
    } else if b.len() > 0 && a[0] == b[0] {
        lemma_text_before_total(a.drop_first(), b.drop_first());
        if a.drop_first() == b.drop_first() {
            assert(a =~= seq![a[0]] + a.drop_first());
            assert(b =~= seq![b[0]] + b.drop_first());
        }
    }
}

/// Dictionary order is transitive.
pub proof fn lemma_text_before_transitive(a: Seq<char>, b: Seq<char>, c: Seq<char>)
    requires
        text_before(a, b),
        text_before(b, c),
    ensures
        text_before(a, c),
    decreases a.len(),
{
    if a.len() > 0 && a[0] == b[0] && b[0] == c[0] {
        lemma_text_before_transitive(a.drop_first(), b.drop_first(), c.drop_first());
    }
}

/// Whether `a` comes before `b` in dictionary order by code point.
pub fn is_before(a: &str, b: &str) -> (before: bool)
    ensures
        before == text_before(a@, b@),
{
    let a_chars = chars_of(a);
    let b_chars = chars_of(b);
    let mut i: usize = 0;
    assert(a@.skip(0) =~= a@);
    assert(b@.skip(0) =~= b@);
    while i < a_chars.len() && i < b_chars.len()
        invariant
            a_chars@ == a@,
            b_chars@ == b@,
            i <= a@.len(),
            i <= b@.len(),
            text_before(a@, b@) == text_before(a@.skip(i as int), b@.skip(i as int)),
        decreases a_chars.len() - i,
    {
        if a_chars[i] != b_chars[i] {
            return code_point(a_chars[i]) < code_point(b_chars[i]);
        }
        assert(a@.skip(i as int).drop_first() =~= a@.skip(i + 1));
        assert(b@.skip(i as int).drop_first() =~= b@.skip(i + 1));
        i = i + 1;
    }
    i < b_chars.len()
}

// ---------------------------------------------------------------------------
// White space
// ---------------------------------------------------------------------------

/// The characters with the Unicode property `White_Space`.
pub open spec fn is_white_space(c: char) -> bool {
    let n = c as int;
    ||| 0x09 <= n <= 0x0d
    ||| n == 0x20
    ||| n == 0x85
    ||| n == 0xa0
    ||| n == 0x1680
    ||| 0x2000 <= n <= 0x200a
    ||| n == 0x2028
    ||| n == 0x2029
    ||| n == 0x202f
    ||| n == 0x205f
    ||| n == 0x3000
}

/// Whether `c` has the Unicode property `White_Space`.
pub fn white_space(c: char) -> (white: bool)
    ensures
        white == is_white_space(c),
{
    let n: u32 = code_point(c);
    (0x09 <= n && n <= 0x0d) || n == 0x20 || n == 0x85 || n == 0xa0 || n == 0x1680 || (0x2000 <= n
        && n <= 0x200a) || n == 0x2028 || n == 0x2029 || n == 0x202f || n == 0x205f || n == 0x3000
}

/// `text` without the white space that it begins with.
pub open spec fn trim_start(text: Seq<char>) -> Seq<char>
    decreases text.len(),
{
    if text.len() > 0 && is_white_space(text[0]) {
        trim_start(text.drop_first())
    } else {
        text
    }
}

/// `text` without the white space that it ends with.
pub open spec fn trim_end(text: Seq<char>) -> Seq<char>
    decreases text.len(),
{
    if text.len() > 0 && is_white_space(text.last()) {
        trim_end(text.drop_last())
    } else {
        text
    }
}

/// `text` without the white space at either end.
pub open spec fn trim(text: Seq<char>) -> Seq<char> {
    trim_end(trim_start(text))
}

/// The part of `text` that is left without the white space at either end.
pub fn trim_text<'a>(text: &'a str) -> (trimmed: &'a str)
    ensures
        trimmed@ == trim(text@),
{
    let chars = chars_of(text);
    let mut from: usize = 0;
    let mut to: usize = chars.len();
    assert(text@.skip(0) =~= text@);
    while from < to && white_space(chars[from])
        invariant
            chars@ == text@,
            from <= to == text@.len(),
            trim_start(text@) == trim_start(text@.skip(from as int)),
        decreases to - from,
    {
        assert(text@.skip(from as int).drop_first() =~= text@.skip(from + 1));
        from = from + 1;
    }
    assert(trim_start(text@) == text@.skip(from as int));
    assert(text@.subrange(from as int, to as int) =~= text@.skip(from as int));
    while from < to && white_space(chars[to - 1])
        invariant
            chars@ == text@,
            from <= to <= text@.len(),
            trim(text@) == trim_end(text@.subrange(from as int, to as int)),
        decreases to - from,
    {
        assert(text@.subrange(from as int, to as int).drop_last() =~= text@.subrange(
            from as int,
            to - 1,
        ));
        to = to - 1;
    }
    text.substring_char(from, to)
}

/// Only white space, or nothing at all.
pub open spec fn is_blank(text: Seq<char>) -> bool {
    forall|i: int| 0 <= i < text.len() ==> is_white_space(#[trigger] text[i])
}

proof fn lemma_trim_start_blank(blank: Seq<char>, text: Seq<char>)
    requires
        is_blank(blank),
    ensures
        trim_start(blank + text) == trim_start(text),
    decreases blank.len(),
{
    if blank.len() == 0 {
        assert(blank + text =~= text);
    } else {
        assert(is_white_space(blank[0]));
        assert((blank + text).drop_first() =~= blank.drop_first() + text);
        lemma_trim_start_blank(blank.drop_first(), text);
    }
}

proof fn lemma_trim_end_blank(text: Seq<char>, blank: Seq<char>)
    requires
        is_blank(blank),
    ensures
        trim_end(text + blank) == trim_end(text),
    decreases blank.len(),
{
    if blank.len() == 0 {
        assert(text + blank =~= text);
    } else {
        assert(is_white_space(blank.last()));
        assert((text + blank).drop_last() =~= text + blank.drop_last());
        lemma_trim_end_blank(text, blank.drop_last());
    }
}

/// A text is the white space that it begins with, followed by the rest.
proof fn lemma_trim_start_splits(text: Seq<char>) -> (blank: Seq<char>)
    ensures
        is_blank(blank),
        text == blank + trim_start(text),
        trim_start(text).len() == 0 || !is_white_space(trim_start(text)[0]),
    decreases text.len(),
{
    if text.len() > 0 && is_white_space(text[0]) {
        let rest = lemma_trim_start_splits(text.drop_first());
        let blank = seq![text[0]] + rest;
        let kept = trim_start(text);
        assert(text =~= seq![text[0]] + text.drop_first());
        assert(text.drop_first() == rest + kept);
        assert(seq![text[0]] + (rest + kept) =~= blank + kept);
        assert forall|i: int| 0 <= i < blank.len() implies is_white_space(#[trigger] blank[i]) by {
            if i > 0 {
                assert(blank[i] == rest[i - 1]);
            }
        }
        blank
    } else {
        assert(text =~= Seq::<char>::empty() + text);
        Seq::empty()
    }
}

/// A text is what is left without the white space that it ends with, followed by that.
proof fn lemma_trim_end_splits(text: Seq<char>) -> (blank: Seq<char>)
    ensures
        is_blank(blank),
        text == trim_end(text) + blank,
    decreases text.len(),
{
    if text.len() > 0 && is_white_space(text.last()) {
        let rest = lemma_trim_end_splits(text.drop_last());
        let blank = rest.push(text.last());
        let kept = trim_end(text);
        assert(text =~= text.drop_last().push(text.last()));
        assert(text.drop_last() == kept + rest);
        assert((kept + rest).push(text.last()) =~= kept + blank);
        blank
    } else {
        assert(text =~= text + Seq::<char>::empty());
        Seq::empty()
    }
}

/// Behind a character that is no white space, only the end of what follows is trimmed.
pub proof fn lemma_trim_end_behind(front: Seq<char>, text: Seq<char>)
    requires
        front.len() > 0,
        !is_white_space(front.last()),
    ensures
        trim_end(front + text) == front + trim_end(text),
    decreases text.len(),
{
    if text.len() == 0 {
        assert(front + text =~= front);
        assert(front + trim_end(text) =~= front);
    } else {
        assert((front + text).last() == text.last());
        assert((front + text).drop_last() =~= front + text.drop_last());
        lemma_trim_end_behind(front, text.drop_last());
    }
}

/// In front of a character that is no white space, only the start of what is there is trimmed.
pub proof fn lemma_trim_start_before(text: Seq<char>, back: Seq<char>)
    requires
        back.len() > 0,
        !is_white_space(back[0]),
    ensures
        trim_start(text + back) == trim_start(text) + back,
    decreases text.len(),
{
    if text.len() == 0 {
        assert(text + back =~= back);
        assert(trim_start(text) + back =~= back);
    } else {
        assert((text + back)[0] == text[0]);
        assert((text + back).drop_first() =~= text.drop_first() + back);
        lemma_trim_start_before(text.drop_first(), back);
    }
}

/// White space around a text does not change what is left of it.
pub proof fn law_trim_ignores_blanks(before: Seq<char>, text: Seq<char>, after: Seq<char>)
    requires
        is_blank(before),
        is_blank(after),
    ensures
        trim(before + text + after) == trim(text),
{
    assert(before + text + after =~= before + (text + after));
    lemma_trim_start_blank(before, text + after);
    let lead = lemma_trim_start_splits(text);
    let kept = trim_start(text);
    assert(text + after =~= lead + (kept + after));
    lemma_trim_start_blank(lead, kept + after);
    if kept.len() == 0 {
        assert(kept + after =~= after);
        assert(after + Seq::<char>::empty() =~= after);
        lemma_trim_start_blank(after, Seq::empty());
        assert(trim_start(Seq::<char>::empty()) =~= kept);
    } else {
        assert(trim_start(kept + after) == kept + after);
        lemma_trim_end_blank(kept, after);
    }
}

/// Trimming what is trimmed at the start only, or at the end only, gives the same.
pub proof fn law_trim_in_steps(text: Seq<char>)
    ensures
        trim(trim_start(text)) == trim(text),
        trim(trim_end(text)) == trim(text),
        trim(trim(text)) == trim(text),
{
    let none = Seq::<char>::empty();
    let lead = lemma_trim_start_splits(text);
    law_trim_ignores_blanks(lead, trim_start(text), none);
    assert(lead + trim_start(text) + none =~= text);
    let tail = lemma_trim_end_splits(text);
    law_trim_ignores_blanks(none, trim_end(text), tail);
    assert(none + trim_end(text) + tail =~= text);
    let kept = trim_start(text);
    let rest = lemma_trim_end_splits(kept);
    law_trim_ignores_blanks(none, trim(text), rest);
    assert(none + trim(text) + rest =~= kept);
}

// ---------------------------------------------------------------------------
// Letter case
// ---------------------------------------------------------------------------

/// The code point of `c`, with the ASCII letters `A` to `Z` taken as `a` to `z`.
pub open spec fn ascii_fold(c: char) -> int {
    if 'A' as int <= c as int <= 'Z' as int {
        c as int + 32
    } else {
        c as int
    }
}

/// The code point of `c`, with the ASCII letters `A` to `Z` taken as `a` to `z`.
pub fn folded(c: char) -> (n: u32)
    ensures
        n == ascii_fold(c),
{
    let n: u32 = code_point(c);
    if 65 <= n && n <= 90 {
        n + 32
    } else {
        n
    }
}

/// `a` and `b` differ at most in the case of ASCII letters.
pub open spec fn same_ignoring_case(a: Seq<char>, b: Seq<char>) -> bool {
    &&& a.len() == b.len()
    &&& forall|i: int| 0 <= i < a.len() ==> ascii_fold(#[trigger] a[i]) == ascii_fold(b[i])
}

/// `text` with the ASCII letters `A` to `Z` as `a` to `z`.
pub open spec fn ascii_lowercase(text: Seq<char>) -> Seq<char> {
    text.map_values(|c: char| ascii_fold(c) as char)
}

/// The lower-case form of `text`, by the Unicode case mapping.
pub uninterp spec fn lowercase(text: Seq<char>) -> Seq<char>;

/// Calls `str::to_lowercase`. Its result depends on `text` alone and is named `lowercase`; of an
/// ASCII text it is the text with `A` to `Z` as `a` to `z` and every other character unchanged.
/// The mapping of characters outside ASCII is left unsaid.
#[verifier::external_body]
pub(crate) fn to_lowercase(text: &str) -> (lower: String)
    ensures
        lower@ == lowercase(text@),
        is_ascii_chars(text@) ==> lower@ == ascii_lowercase(text@),
{
    text.to_lowercase()
}

// ---------------------------------------------------------------------------
// Splitting
// ---------------------------------------------------------------------------

/// The parts of `text` between the separators; a text without a separator is its one part.
pub open spec fn split_on(text: Seq<char>, separator: char) -> Seq<Seq<char>>
    decreases text.len(),
{
    if text.len() == 0 {
        seq![text]
    } else {
        let parts = split_on(text.drop_last(), separator);
        if text.last() == separator {
            parts.push(Seq::empty())
        } else {
            parts.drop_last().push(parts.last().push(text.last()))
        }
    }
}

/// The parts of `text` between the separators.
pub fn split_text<'a>(text: &'a str, separator: char) -> (parts: Vec<&'a str>)
    ensures
        parts@.map_values(|part: &'a str| part@) == split_on(text@, separator),
{
    let chars = chars_of(text);
    let mut parts: Vec<&'a str> = Vec::new();
    let mut from: usize = 0;
    let ghost view = |part: &'a str| part@;
    assert(text@.take(0) =~= Seq::<char>::empty());
    assert(text@.subrange(0, 0) =~= Seq::<char>::empty());
    for i in 0..chars.len()
        invariant
            chars@ == text@,
            from <= i,
            view == (|part: &'a str| part@),
            split_on(text@.take(i as int), separator) =~= parts@.map_values(view).push(
                text@.subrange(from as int, i as int),
            ),
    {
        assert(text@.take(i + 1).drop_last() =~= text@.take(i as int));
        if chars[i] == separator {
            let ghost before = parts@.map_values(view);
            parts.push(text.substring_char(from, i));
            assert(parts@.map_values(view) =~= before.push(text@.subrange(from as int, i as int)));
            from = i + 1;
            assert(text@.subrange(from as int, i + 1) =~= Seq::<char>::empty());
        } else {
            assert(text@.subrange(from as int, i + 1) =~= text@.subrange(
                from as int,
                i as int,
            ).push(text@[i as int]));
            assert(parts@.map_values(view).push(text@.subrange(from as int, i as int)).drop_last()
                =~= parts@.map_values(view));
        }
    }
    assert(text@.take(text@.len() as int) =~= text@);
    let ghost before = parts@.map_values(view);
    parts.push(text.substring_char(from, chars.len()));
    assert(parts@.map_values(view) =~= before.push(text@.subrange(from as int, text@.len() as int)));
    parts
}

/// `text` cut at its first `separator`, which belongs to neither half.
pub open spec fn cut_at_first(text: Seq<char>, separator: char) -> Option<(Seq<char>, Seq<char>)>
    decreases text.len(),
{
    if text.len() == 0 {
        None
    } else if text[0] == separator {
        Some((Seq::empty(), text.drop_first()))
    } else {
        match cut_at_first(text.drop_first(), separator) {
            Some((head, tail)) => Some((seq![text[0]] + head, tail)),
            None => None,
        }
    }
}

/// The first separator stands at `at`, or there is none and `at` is the end.
pub proof fn lemma_cut_at(text: Seq<char>, separator: char, at: int)
    requires
        0 <= at <= text.len(),
        forall|j: int| 0 <= j < at ==> text[j] != separator,
        at < text.len() ==> text[at] == separator,
    ensures
        cut_at_first(text, separator) == (if at < text.len() {
            Some((text.take(at), text.skip(at + 1)))
        } else {
            None
        }),
    decreases text.len(),
{
    if text.len() == 0 {
    } else if at == 0 {
        assert(text.take(0) =~= Seq::<char>::empty());
        assert(text.skip(1) =~= text.drop_first());
    } else {
        lemma_cut_at(text.drop_first(), separator, at - 1);
        if at < text.len() {
            assert(seq![text[0]] + text.drop_first().take(at - 1) =~= text.take(at));
            assert(text.drop_first().skip(at) =~= text.skip(at + 1));
        }
    }
}

/// `text` cut at its first `separator`, if it has one.
pub fn cut_text<'a>(text: &'a str, separator: char) -> (halves: Option<(&'a str, &'a str)>)
    ensures
        match halves {
            Some((head, tail)) => cut_at_first(text@, separator) == Some((head@, tail@)),
            None => cut_at_first(text@, separator) is None,
        },
{
    let chars = chars_of(text);
    let mut at: usize = 0;
    while at < chars.len() && chars[at] != separator
        invariant
            chars@ == text@,
            at <= text@.len(),
            forall|j: int| 0 <= j < at ==> text@[j] != separator,
        decreases chars.len() - at,
    {
        at = at + 1;
    }
    proof {
        lemma_cut_at(text@, separator, at as int);
    }
    if at < chars.len() {
        assert(text@.subrange(0, at as int) =~= text@.take(at as int));
        assert(text@.subrange(at + 1, text@.len() as int) =~= text@.skip(at + 1));
        Some((text.substring_char(0, at), text.substring_char(at + 1, chars.len())))
    } else {
        None
    }
}

// ---------------------------------------------------------------------------
// Laws
// ---------------------------------------------------------------------------

/// Whatever stands before and behind it, a text stands in what it is put into.
pub proof fn law_text_is_found(before: Seq<char>, needle: Seq<char>, after: Seq<char>)
    ensures
        contains_text(before + needle + after, needle),
{
    let text = before + needle + after;
    let at = before.len() as int;
    assert(text.subrange(at, at + needle.len()) =~= needle);
    assert(occurs_at(text, needle, at));
}

/// A text that is said to stand in another can be cut out of it.
pub proof fn law_found_text_is_there(text: Seq<char>, needle: Seq<char>)
    requires
        contains_text(text, needle),
    ensures
        exists|before: Seq<char>, after: Seq<char>| #[trigger] (before + needle + after) == text,
{
    let at = choose|at: int| occurs_at(text, needle, at);
    let before = text.take(at);
    let after = text.skip(at + needle.len());
    assert(before + needle + after =~= text);
}

/// Two texts that agree on their first `common` characters are ordered by the next one; a text
/// comes before those that begin with it.
pub proof fn law_dictionary_order(a: Seq<char>, b: Seq<char>, common: int)
    requires
        0 <= common <= a.len(),
        common <= b.len(),
        a.take(common) == b.take(common),
    ensures
        common < a.len() && common < b.len() && a[common] != b[common] ==> (text_before(a, b)
            <==> (a[common] as int) < (b[common] as int)),
        common == a.len() ==> (text_before(a, b) <==> a.len() < b.len()),
        common == b.len() ==> !text_before(a, b),
    decreases common,
{
    if common > 0 {
        assert(a[0] == a.take(common)[0]);
        assert(b[0] == b.take(common)[0]);
        assert(a.drop_first().take(common - 1) =~= a.take(common).drop_first());
        assert(b.drop_first().take(common - 1) =~= b.take(common).drop_first());
        law_dictionary_order(a.drop_first(), b.drop_first(), common - 1);
    }
}

/// Trimming cuts white space off both ends, all of it and nothing else.
pub proof fn law_trim_cuts_white_space(text: Seq<char>)
    ensures
        exists|before: Seq<char>, after: Seq<char>|
            is_blank(before) && is_blank(after) && #[trigger] (before + trim(text) + after) == text,
        trim(text).len() > 0 ==> !is_white_space(trim(text)[0]) && !is_white_space(
            trim(text).last(),
        ),
{
    let before = lemma_trim_start_splits(text);
    let kept = trim_start(text);
    let after = lemma_trim_end_splits(kept);
    assert(before + trim(text) + after =~= text);
    lemma_trim_end_ends(kept);
    if trim(text).len() > 0 {
        assert(trim(text)[0] == kept[0]);
    }
}

proof fn lemma_trim_end_ends(text: Seq<char>)
    ensures
        trim_end(text).len() == 0 || !is_white_space(trim_end(text).last()),
    decreases text.len(),
{
    if text.len() > 0 && is_white_space(text.last()) {
        lemma_trim_end_ends(text.drop_last());
    }
}

/// The characters that trimming cuts off, by their code points: blanks and line breaks, no
/// printable character of ASCII, and outside ASCII the spaces and separators of Unicode.
pub proof fn law_white_space_by_code(c: char)
    ensures
        c as int <= 0x7f ==> (is_white_space(c) <==> (c as int == 32 || 9 <= c as int <= 13)),
        c as int > 0x7f ==> (is_white_space(c) <==> (c as int == 0x85 || c as int == 0xa0 || c as int
            == 0x1680 || 0x2000 <= c as int <= 0x200a || c as int == 0x2028 || c as int == 0x2029
            || c as int == 0x202f || c as int == 0x205f || c as int == 0x3000)),
{
}

/// Put together again with the separator, the parts of a text are that text, and the separator
/// stands in none of them.
pub proof fn law_parts_make_up_the_text(text: Seq<char>, separator: char)
    ensures
        split_on(text, separator).len() > 0,
        split_on(text, separator).map_values(|part: Seq<char>| part.push(separator)).flatten()
            == text.push(separator),
        forall|i: int|
            0 <= i < split_on(text, separator).len() ==> !(#[trigger] split_on(
                text,
                separator,
            )[i]).contains(separator),
    decreases text.len(),
{
    let close = |part: Seq<char>| part.push(separator);
    let parts = split_on(text, separator);
    if text.len() == 0 {
        let closed = parts.map_values(close);
        assert(closed.len() == 1 && closed[0] == text.push(separator));
        closed.lemma_flatten_one_element();
    } else {
        let front = text.drop_last();
        let before = split_on(front, separator);
        law_parts_make_up_the_text(front, separator);
        assert(front.push(text.last()) =~= text);
        if text.last() == separator {
            assert(parts.map_values(close) =~= before.map_values(close).push(
                Seq::<char>::empty().push(separator),
            ));
            before.map_values(close).lemma_flatten_push(Seq::<char>::empty().push(separator));
            assert(front.push(separator) + Seq::<char>::empty().push(separator) =~= text.push(
                separator,
            ));
        } else {
            let head = before.drop_last();
            let tail = before.last();
            let longer = tail.push(text.last());
            assert(before =~= head.push(tail));
            assert(before.map_values(close) =~= head.map_values(close).push(tail.push(separator)));
            assert(parts.map_values(close) =~= head.map_values(close).push(longer.push(separator)));
            head.map_values(close).lemma_flatten_push(tail.push(separator));
            head.map_values(close).lemma_flatten_push(longer.push(separator));
            let start = head.map_values(close).flatten();
            assert(start + tail.push(separator) == front.push(separator));
            assert((start + tail.push(separator)).drop_last() =~= start + tail);
            assert(front.push(separator).drop_last() =~= front);
            assert(start + longer.push(separator) =~= (start + tail).push(text.last()).push(
                separator,
            ));
            assert forall|i: int| 0 <= i < parts.len() implies !(#[trigger] parts[i]).contains(
                separator,
            ) by {
                if i < head.len() {
                    assert(parts[i] == before[i]);
                } else {
                    assert(!before[head.len() as int].contains(separator));
                    assert(parts[i] == longer);
                    if longer.contains(separator) {
                        let j = choose|j: int| 0 <= j < longer.len() && longer[j] == separator;
                        assert(tail[j] == separator);
                    }
                }
            }
        }
    }
}

/// A text with separators is split where they are: the parts of two texts with one between them
/// are the parts of the first, then those of the second.
pub proof fn law_parts_of_joined_texts(a: Seq<char>, b: Seq<char>, separator: char)
    ensures
        split_on(a.push(separator) + b, separator) == split_on(a, separator) + split_on(
            b,
            separator,
        ),
    decreases b.len(),
{
    let text = a.push(separator) + b;
    if b.len() == 0 {
        assert(text =~= a.push(separator));
        assert(text.drop_last() =~= a);
        assert(b =~= Seq::<char>::empty());
    } else {
        law_parts_of_joined_texts(a, b.drop_last(), separator);
        assert(text.drop_last() =~= a.push(separator) + b.drop_last());
        let before = split_on(b.drop_last(), separator);
        law_parts_make_up_the_text(b.drop_last(), separator);
        let first = split_on(a, separator);
        assert((first + before).drop_last() =~= first + before.drop_last());
        assert((first + before).last() == before.last());
    }
}

/// A text without the separator is its only part.
pub proof fn law_one_part_without_separator(text: Seq<char>, separator: char)
    requires
        !text.contains(separator),
    ensures
        split_on(text, separator) == seq![text],
    decreases text.len(),
{
    if text.len() > 0 {
        assert forall|i: int| 0 <= i < text.drop_last().len() implies text.drop_last()[i]
            != separator by {
            assert(text.contains(text[i]));
        }
        assert(text.contains(text[text.len() - 1]));
        law_one_part_without_separator(text.drop_last(), separator);
        assert(text.drop_last().push(text.last()) =~= text);
    } else {
        assert(text =~= Seq::<char>::empty());
    }
}

/// A cut text is its first half, the separator and its second half; the separator does not stand
/// in the first half. A text is not cut exactly if the separator does not stand in it.
pub proof fn law_cut_at_the_first(text: Seq<char>, separator: char)
    ensures
        match cut_at_first(text, separator) {
            Some((head, tail)) => text == head.push(separator) + tail && !head.contains(separator),
            None => !text.contains(separator),
        },
    decreases text.len(),
{
    if text.len() > 0 && text[0] != separator {
        let rest = text.drop_first();
        law_cut_at_the_first(rest, separator);
        match cut_at_first(rest, separator) {
            Some((head, tail)) => {
                let longer = seq![text[0]] + head;
                assert(longer.push(separator) + tail =~= seq![text[0]] + (head.push(separator)
                    + tail));
                assert(seq![text[0]] + rest =~= text);
                if longer.contains(separator) {
                    let j = choose|j: int| 0 <= j < longer.len() && longer[j] == separator;
                    assert(head[j - 1] == separator);
                }
            },
            None => {
                if text.contains(separator) {
                    let j = choose|j: int| 0 <= j < text.len() && text[j] == separator;
                    assert(rest[j - 1] == separator);
                }
            },
        }
    } else if text.len() > 0 {
        assert(Seq::<char>::empty().push(separator) + text.drop_first() =~= text);
    }
}

/// Whether two texts are the same but for the case of ASCII letters, character by character: each
/// pair is equal, or a letter in both cases.
pub proof fn law_case_of_letters(a: Seq<char>, b: Seq<char>)
    ensures
        same_ignoring_case(a, b) <==> a.len() == b.len() && forall|i: int|
            0 <= i < a.len() ==> ({
                let (x, y) = (#[trigger] a[i] as int, b[i] as int);
                x == y || (65 <= x <= 90 && y == x + 32) || (65 <= y <= 90 && x == y + 32)
            }),
{
    if same_ignoring_case(a, b) {
        assert forall|i: int| 0 <= i < a.len() implies ({
            let (x, y) = (#[trigger] a[i] as int, b[i] as int);
            x == y || (65 <= x <= 90 && y == x + 32) || (65 <= y <= 90 && x == y + 32)
        }) by {
            assert(ascii_fold(a[i]) == ascii_fold(b[i]));
        }
    }
}

/// The small-letter form of an ASCII text has a small letter for each capital, 32 code points
/// further, and every other character as it is.
pub proof fn law_small_letters(text: Seq<char>, i: int)
    requires
        is_ascii_chars(text),
        0 <= i < text.len(),
    ensures
        ascii_lowercase(text).len() == text.len(),
        ascii_lowercase(text)[i] as int == (if 65 <= text[i] as int <= 90 {
            text[i] as int + 32
        } else {
            text[i] as int
        }),
{
    assert('\0' <= text[i] <= '\u{7f}');
}

} // verus!
