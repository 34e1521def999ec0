//! Which region a node stands in, told from its name.
use crate::number::is_digit;
use crate::text::ascii_fold;
use crate::text::ascii_lowercase;
use crate::text::chars_of;
use crate::text::contains_text;
use crate::text::folded;
use crate::text::has_chars;
use crate::text::law_found_text_is_there;
use crate::text::law_text_is_found;
use crate::text::lowercase;
use crate::text::same_ignoring_case;
use crate::text::to_lowercase;
use vstd::prelude::*;
use vstd::utf8::is_ascii_chars;

verus! {

/// Phrases that name a region, in the order in which they are tried: the phrase and its region.
pub const PHRASE_RULES: [(&'static str, &'static str); 113] = [
    ("香港", "香港"),
    ("hong kong", "香港"),
    ("hongkong", "香港"),
    ("澳门", "澳门"),
    ("澳門", "澳门"),
    ("macau", "澳门"),
    ("macao", "澳门"),
    ("台湾", "台湾"),
    ("台灣", "台湾"),
    ("臺灣", "台湾"),
    ("taipei", "台湾"),
    ("taiwan", "台湾"),
    ("新加坡", "新加坡"),
    ("singapore", "新加坡"),
    ("狮城", "新加坡"),
    ("獅城", "新加坡"),
    ("日本", "日本"),
    ("东京", "日本"),
    ("東京", "日本"),
    ("大阪", "日本"),
    ("名古屋", "日本"),
    ("japan", "日本"),
    ("tokyo", "日本"),
    ("osaka", "日本"),
    ("韩国", "韩国"),
    ("韓國", "韩国"),
    ("首尔", "韩国"),
    ("首爾", "韩国"),
    ("korea", "韩国"),
    ("seoul", "韩国"),
    ("美国", "美国"),
    ("美國", "美国"),
    ("usa", "美国"),
    ("united states", "美国"),
    ("los angeles", "美国"),
    ("san jose", "美国"),
    ("san francisco", "美国"),
    ("seattle", "美国"),
    ("chicago", "美国"),
    ("dallas", "美国"),
    ("miami", "美国"),
    ("ashburn", "美国"),
    ("buffalo", "美国"),
    ("new york", "美国"),
    ("las vegas", "美国"),
    ("英国", "英国"),
    ("英國", "英国"),
    ("london", "英国"),
    ("united kingdom", "英国"),
    ("britain", "英国"),
    ("德国", "德国"),
    ("德國", "德国"),
    ("frankfurt", "德国"),
    ("germany", "德国"),
    ("berlin", "德国"),
    ("法国", "法国"),
    ("法國", "法国"),
    ("paris", "法国"),
    ("france", "法国"),
    ("荷兰", "荷兰"),
    ("荷蘭", "荷兰"),
    ("amsterdam", "荷兰"),
    ("netherlands", "荷兰"),
    ("加拿大", "加拿大"),
    ("canada", "加拿大"),
    ("toronto", "加拿大"),
    ("vancouver", "加拿大"),
    ("montreal", "加拿大"),
    ("澳大利亚", "澳大利亚"),
    ("澳洲", "澳大利亚"),
    ("australia", "澳大利亚"),
    ("sydney", "澳大利亚"),
    ("melbourne", "澳大利亚"),
    ("俄罗斯", "俄罗斯"),
    ("俄羅斯", "俄罗斯"),
    ("russia", "俄罗斯"),
    ("moscow", "俄罗斯"),
    ("印度", "印度"),
    ("india", "印度"),
    ("mumbai", "印度"),
    ("土耳其", "土耳其"),
    ("turkey", "土耳其"),
    ("istanbul", "土耳其"),
    ("阿根廷", "阿根廷"),
    ("argentina", "阿根廷"),
    ("buenos", "阿根廷"),
    ("巴西", "巴西"),
    ("brazil", "巴西"),
    ("sao paulo", "巴西"),
    ("菲律宾", "菲律宾"),
    ("philippines", "菲律宾"),
    ("manila", "菲律宾"),
    ("泰国", "泰国"),
    ("泰國", "泰国"),
    ("thailand", "泰国"),
    ("bangkok", "泰国"),
    ("马来西亚", "马来西亚"),
    ("馬來西亞", "马来西亚"),
    ("malaysia", "马来西亚"),
    ("kuala", "马来西亚"),
    ("越南", "越南"),
    ("vietnam", "越南"),
    ("hanoi", "越南"),
    ("saigon", "越南"),
    ("印尼", "印尼"),
    ("indonesia", "印尼"),
    ("jakarta", "印尼"),
    ("尼日利亚", "尼日利亚"),
    ("nigeria", "尼日利亚"),
    ("lagos", "尼日利亚"),
    ("迪拜", "阿联酋"),
    ("dubai", "阿联酋"),
    ("uae", "阿联酋"),
];

/// Short region codes, in the order in which they are tried: the code and its region.
pub const CODE_RULES: [(&'static str, &'static str); 45] = [
    ("HK", "香港"),
    ("MO", "澳门"),
    ("TW", "台湾"),
    ("SG", "新加坡"),
    ("JP", "日本"),
    ("TYO", "日本"),
    ("OSA", "日本"),
    ("KR", "韩国"),
    ("ICN", "韩国"),
    ("US", "美国"),
    ("USA", "美国"),
    ("LAX", "美国"),
    ("SJC", "美国"),
    ("SFO", "美国"),
    ("SEA", "美国"),
    ("ORD", "美国"),
    ("DFW", "美国"),
    ("MIA", "美国"),
    ("IAD", "美国"),
    ("NYC", "美国"),
    ("GB", "英国"),
    ("UK", "英国"),
    ("LON", "英国"),
    ("DE", "德国"),
    ("FRA", "德国"),
    ("FR", "法国"),
    ("PAR", "法国"),
    ("NL", "荷兰"),
    ("AMS", "荷兰"),
    ("CA", "加拿大"),
    ("YVR", "加拿大"),
    ("YYZ", "加拿大"),
    ("AU", "澳大利亚"),
    ("SYD", "澳大利亚"),
    ("MEL", "澳大利亚"),
    ("RU", "俄罗斯"),
    ("IN", "印度"),
    ("TR", "土耳其"),
    ("AR", "阿根廷"),
    ("BR", "巴西"),
    ("PH", "菲律宾"),
    ("TH", "泰国"),
    ("MY", "马来西亚"),
    ("VN", "越南"),
    ("ID", "印尼"),
];

/// The region of a name that no rule knows.
pub const OTHER_REGION: &'static str = "其他";

// ---------------------------------------------------------------------------
// Region codes
// ---------------------------------------------------------------------------

/// An ASCII letter or digit.
pub open spec fn is_ascii_alphanumeric(c: char) -> bool {
    ||| '0' as int <= c as int <= '9' as int
    ||| 'A' as int <= c as int <= 'Z' as int
    ||| 'a' as int <= c as int <= 'z' as int
}

fn ascii_alphanumeric(c: char) -> (is: bool)
    ensures
        is == is_ascii_alphanumeric(c),
{
    let n: u32 = folded(c);
    (48 <= n && n <= 57) || (97 <= n && n <= 122)
}

/// The characters of `name` from `from` up to `to` are a token: a longest run of ASCII letters
/// and digits.
pub open spec fn is_token(name: Seq<char>, from: int, to: int) -> bool {
    &&& 0 <= from < to <= name.len()
    &&& forall|i: int| from <= i < to ==> is_ascii_alphanumeric(#[trigger] name[i])
    &&& from > 0 ==> !is_ascii_alphanumeric(name[from - 1])
    &&& to < name.len() ==> !is_ascii_alphanumeric(name[to])
}

/// One of the tokens of `name` is `code`, whatever the case of its letters.
pub open spec fn has_region_code(name: Seq<char>, code: Seq<char>) -> bool {
    exists|from: int, to: int| #[trigger]
        is_token(name, from, to) && same_ignoring_case(name.subrange(from, to), code)
}

/// Whether the token of the length of `code` that starts at `from` is `code`.
fn code_at(name: &Vec<char>, code: &Vec<char>, from: usize) -> (found: bool)
    requires
        0 < code@.len(),
        from + code@.len() <= name@.len(),
    ensures
        found == (is_token(name@, from as int, from + code@.len()) && same_ignoring_case(
            name@.subrange(from as int, from + code@.len()),
            code@,
        )),
{
    let size: usize = name.len();
    let to: usize = from + code.len();
    if from > 0 && ascii_alphanumeric(name[from - 1]) {
        return false;
    }
    if to < size && ascii_alphanumeric(name[to]) {
        return false;
    }
    let ghost token = name@.subrange(from as int, to as int);
    for i in 0..code.len()
        invariant
            to == from + code@.len(),
            to <= size == name@.len(),
            token == name@.subrange(from as int, to as int),
            forall|k: int| 0 <= k < i ==> is_ascii_alphanumeric(#[trigger] token[k]),
            forall|k: int| 0 <= k < i ==> ascii_fold(#[trigger] token[k]) == ascii_fold(code@[k]),
    {
        let c: char = name[from + i];
        assert(token[i as int] == c);
        if !ascii_alphanumeric(c) || folded(c) != folded(code[i]) {
            return false;
        }
    }
    assert forall|i: int| from <= i < to implies is_ascii_alphanumeric(#[trigger] name@[i]) by {
        assert(token[i - from] == name@[i]);
    }
    true
}

/// Whether one of the tokens of `name` is `code`, whatever the case of its letters.
pub fn name_has_region_code(name: &str, code: &str) -> (found: bool)
    ensures
        found == has_region_code(name@, code@),
{
    let name_chars = chars_of(name);
    let code_chars = chars_of(code);
    if code_chars.len() == 0 || code_chars.len() > name_chars.len() {
        assert forall|from: int, to: int| #[trigger]
            is_token(name@, from, to) implies !same_ignoring_case(
            name@.subrange(from, to),
            code@,
        ) by {
            assert(name@.subrange(from, to).len() == to - from);
        }
        return false;
    }
    let last: usize = name_chars.len() - code_chars.len();
    let mut from: usize = 0;
    loop
        invariant
            name_chars@ == name@,
            code_chars@ == code@,
            0 < code@.len(),
            last + code@.len() == name@.len(),
            from <= last,
            forall|k: int|
                0 <= k < from && #[trigger] is_token(name@, k, k + code@.len())
                    ==> !same_ignoring_case(name@.subrange(k, k + code@.len()), code@),
        decreases last - from,
    {
        if code_at(&name_chars, &code_chars, from) {
            return true;
        }
        if from == last {
            assert forall|a: int, b: int| #[trigger]
                is_token(name@, a, b) implies !same_ignoring_case(name@.subrange(a, b), code@) by {
                if same_ignoring_case(name@.subrange(a, b), code@) {
                    assert(name@.subrange(a, b).len() == b - a);
                    assert(b == a + code@.len());
                    assert(is_token(name@, a, a + code@.len()));
                }
            }
            return false;
        }
        from = from + 1;
    }
}

// ---------------------------------------------------------------------------
// Regions
// ---------------------------------------------------------------------------

/// `phrase` stands in a name: an ASCII phrase in its lower-case form, any other in the name as
/// it is written.
pub open spec fn has_phrase(name: Seq<char>, lower: Seq<char>, phrase: Seq<char>) -> bool {
    if is_ascii_chars(phrase) {
        contains_text(lower, phrase)
    } else {
        contains_text(name, phrase)
    }
}

/// The region of the first phrase, from rule `from` on, that stands in the name.
pub open spec fn phrase_region(name: Seq<char>, lower: Seq<char>, from: int) -> Option<Seq<char>>
    decreases PHRASE_RULES.len() - from,
{
    if 0 <= from < PHRASE_RULES.len() {
        if has_phrase(name, lower, PHRASE_RULES[from].0@) {
            Some(PHRASE_RULES[from].1@)
        } else {
            phrase_region(name, lower, from + 1)
        }
    } else {
        None
    }
}

/// The region of the first code, from rule `from` on, that is a token of the name.
pub open spec fn code_region(name: Seq<char>, from: int) -> Option<Seq<char>>
    decreases CODE_RULES.len() - from,
{
    if 0 <= from < CODE_RULES.len() {
        if has_region_code(name, CODE_RULES[from].0@) {
            Some(CODE_RULES[from].1@)
        } else {
            code_region(name, from + 1)
        }
    } else {
        None
    }
}

/// The region of a name whose lower-case form is `lower`: phrases come before codes.
pub open spec fn region_in(name: Seq<char>, lower: Seq<char>) -> Seq<char> {
    match phrase_region(name, lower, 0) {
        Some(region) => region,
        None => match code_region(name, 0) {
            Some(region) => region,
            None => OTHER_REGION@,
        },
    }
}

/// The region of a name.
pub open spec fn region_of(name: Seq<char>) -> Seq<char> {
    region_in(name, lowercase(name))
}

/// The region of a name, given the name and its lower-case form.
pub fn region_in_text(name: &str, lower: &str) -> (region: &'static str)
    ensures
        region@ == region_in(name@, lower@),
{
    let name_chars = chars_of(name);
    let lower_chars = chars_of(lower);
    for i in 0..PHRASE_RULES.len()
        invariant
            name_chars@ == name@,
            lower_chars@ == lower@,
            phrase_region(name@, lower@, 0) == phrase_region(name@, lower@, i as int),
    {
        let phrase: &'static str = PHRASE_RULES[i].0;
        let phrase_chars = chars_of(phrase);
        let found: bool = if phrase.is_ascii() {
            has_chars(&lower_chars, &phrase_chars)
        } else {
            has_chars(&name_chars, &phrase_chars)
        };
        if found {
            return PHRASE_RULES[i].1;
        }
    }
    for i in 0..CODE_RULES.len()
        invariant
            phrase_region(name@, lower@, 0) is None,
            code_region(name@, 0) == code_region(name@, i as int),
    {
        if name_has_region_code(name, CODE_RULES[i].0) {
            return CODE_RULES[i].1;
        }
    }
    OTHER_REGION
}

/// The region of a name.
pub fn detect_region(name: &str) -> (region: &'static str)
    ensures
        region@ == region_of(name@),
        is_ascii_chars(name@) ==> region@ == region_in(name@, ascii_lowercase(name@)),
{
    let lower = to_lowercase(name);
    region_in_text(name, lower.as_str())
}

/// The text has characters, and the last is no digit.
spec fn ends_without_digit(text: Seq<char>) -> bool {
    text.len() > 0 && !is_digit(text.last())
}

/// Whatever the name, its region is not empty and does not end with a digit.
pub proof fn lemma_region_ends_without_digit(name: Seq<char>)
    ensures
        region_of(name).len() > 0,
        !is_digit(region_of(name).last()),
{
    reveal_strlit("香港");
    reveal_strlit("澳门");
    reveal_strlit("台湾");
    reveal_strlit("新加坡");
    reveal_strlit("日本");
    reveal_strlit("韩国");
    reveal_strlit("美国");
    reveal_strlit("英国");
    reveal_strlit("德国");
    reveal_strlit("法国");
    reveal_strlit("荷兰");
    reveal_strlit("加拿大");
    reveal_strlit("澳大利亚");
    reveal_strlit("俄罗斯");
    reveal_strlit("印度");
    reveal_strlit("土耳其");
    reveal_strlit("阿根廷");
    reveal_strlit("巴西");
    reveal_strlit("菲律宾");
    reveal_strlit("泰国");
    reveal_strlit("马来西亚");
    reveal_strlit("越南");
    reveal_strlit("印尼");
    reveal_strlit("尼日利亚");
    reveal_strlit("阿联酋");
    reveal_strlit("其他");
    assert(forall|i: int|
        0 <= i < PHRASE_RULES.len() ==> ends_without_digit((#[trigger] PHRASE_RULES[i]).1@));
    assert(forall|i: int|
        0 <= i < CODE_RULES.len() ==> ends_without_digit((#[trigger] CODE_RULES[i]).1@));
    lemma_phrase_region_is_known(name, lowercase(name), 0);
    lemma_code_region_is_known(name, 0);
}

/// A region that a phrase tells is that of a rule.
proof fn lemma_phrase_region_is_known(name: Seq<char>, lower: Seq<char>, from: int)
    ensures
        phrase_region(name, lower, from) matches Some(region) ==> exists|i: int|
            0 <= i < PHRASE_RULES.len() && (#[trigger] PHRASE_RULES[i]).1@ == region,
    decreases PHRASE_RULES.len() - from,
{
    if 0 <= from < PHRASE_RULES.len() {
        if has_phrase(name, lower, PHRASE_RULES[from].0@) {
            assert(PHRASE_RULES[from].1@ == phrase_region(name, lower, from)->0);
        } else {
            lemma_phrase_region_is_known(name, lower, from + 1);
        }
    }
}

/// A region that a code tells is that of a rule.
proof fn lemma_code_region_is_known(name: Seq<char>, from: int)
    ensures
        code_region(name, from) matches Some(region) ==> exists|i: int|
            0 <= i < CODE_RULES.len() && (#[trigger] CODE_RULES[i]).1@ == region,
    decreases CODE_RULES.len() - from,
{
    if 0 <= from < CODE_RULES.len() {
        if has_region_code(name, CODE_RULES[from].0@) {
            assert(CODE_RULES[from].1@ == code_region(name, from)->0);
        } else {
            lemma_code_region_is_known(name, from + 1);
        }
    }
}

// ---------------------------------------------------------------------------
// Laws
// ---------------------------------------------------------------------------

/// An ASCII letter or digit, by its code point.
pub open spec fn is_word_char(c: char) -> bool {
    48 <= c as int <= 57 || 65 <= c as int <= 90 || 97 <= c as int <= 122
}

/// Between `before` and `after`, `word` is a word: it is made of ASCII letters and digits, and
/// neither of its neighbours is one.
pub open spec fn is_word(before: Seq<char>, word: Seq<char>, after: Seq<char>) -> bool {
    &&& word.len() > 0
    &&& forall|i: int| 0 <= i < word.len() ==> is_word_char(#[trigger] word[i])
    &&& before.len() > 0 ==> !is_word_char(before.last())
    &&& after.len() > 0 ==> !is_word_char(after[0])
}

/// A code stands in every name that has it as a word, in whatever case and between whatever other
/// characters, ASCII or not.
pub proof fn law_code_is_found(
    before: Seq<char>,
    word: Seq<char>,
    after: Seq<char>,
    code: Seq<char>,
)
    requires
        is_word(before, word, after),
        same_ignoring_case(word, code),
    ensures
        has_region_code(before + word + after, code),
{
    let name = before + word + after;
    let from = before.len() as int;
    let to = from + word.len();
    assert(name.subrange(from, to) =~= word);
    assert forall|i: int| from <= i < to implies is_ascii_alphanumeric(#[trigger] name[i]) by {
        assert(name[i] == word[i - from]);
    }
    if from > 0 {
        assert(name[from - 1] == before.last());
    }
    if to < name.len() {
        assert(name[to] == after[0]);
    }
    assert(is_token(name, from, to));
}

/// A code that stands in a name is a word of it.
pub proof fn law_found_code_is_a_word(name: Seq<char>, code: Seq<char>)
    requires
        has_region_code(name, code),
    ensures
        exists|before: Seq<char>, word: Seq<char>, after: Seq<char>|
            #[trigger] is_word(before, word, after) && before + word + after == name
                && same_ignoring_case(word, code),
{
    let (from, to) = choose|from: int, to: int| #[trigger]
        is_token(name, from, to) && same_ignoring_case(name.subrange(from, to), code);
    let before = name.take(from);
    let word = name.subrange(from, to);
    let after = name.skip(to);
    assert(before + word + after =~= name);
    assert forall|i: int| 0 <= i < word.len() implies is_word_char(#[trigger] word[i]) by {
        assert(is_ascii_alphanumeric(name[from + i]));
    }
    assert(is_word(before, word, after));
}

/// A phrase stands in a name: in the name itself, or, where the phrase is ASCII, in its lower-case
/// form.
pub open spec fn phrase_stands(name: Seq<char>, lower: Seq<char>, phrase: Seq<char>) -> bool {
    exists|before: Seq<char>, after: Seq<char>| #[trigger]
        (before + phrase + after) == (if is_ascii_chars(phrase) {
            lower
        } else {
            name
        })
}

proof fn lemma_phrase_stands(name: Seq<char>, lower: Seq<char>, phrase: Seq<char>)
    ensures
        has_phrase(name, lower, phrase) == phrase_stands(name, lower, phrase),
{
    let text = if is_ascii_chars(phrase) {
        lower
    } else {
        name
    };
    if contains_text(text, phrase) {
        law_found_text_is_there(text, phrase);
    }
    if phrase_stands(name, lower, phrase) {
        let (before, after) = choose|before: Seq<char>, after: Seq<char>| #[trigger]
            (before + phrase + after) == text;
        law_text_is_found(before, phrase, after);
    }
}

proof fn lemma_first_phrase(name: Seq<char>, lower: Seq<char>, from: int, p: int)
    requires
        0 <= from <= p < PHRASE_RULES.len(),
        has_phrase(name, lower, PHRASE_RULES[p].0@),
        forall|i: int|
            from <= i < p ==> !has_phrase(name, lower, (#[trigger] PHRASE_RULES[i]).0@),
    ensures
        phrase_region(name, lower, from) == Some(PHRASE_RULES[p].1@),
    decreases p - from,
{
    if from < p {
        assert(!has_phrase(name, lower, PHRASE_RULES[from].0@));
        lemma_first_phrase(name, lower, from + 1, p);
    }
}

proof fn lemma_no_phrase(name: Seq<char>, lower: Seq<char>, from: int)
    requires
        0 <= from <= PHRASE_RULES.len(),
        forall|i: int|
            from <= i < PHRASE_RULES.len() ==> !has_phrase(
                name,
                lower,
                (#[trigger] PHRASE_RULES[i]).0@,
            ),
    ensures
        phrase_region(name, lower, from) is None,
    decreases PHRASE_RULES.len() - from,
{
    if from < PHRASE_RULES.len() {
        assert(!has_phrase(name, lower, PHRASE_RULES[from].0@));
        lemma_no_phrase(name, lower, from + 1);
    }
}

proof fn lemma_first_code(name: Seq<char>, from: int, c: int)
    requires
        0 <= from <= c < CODE_RULES.len(),
        has_region_code(name, CODE_RULES[c].0@),
        forall|i: int| from <= i < c ==> !has_region_code(name, (#[trigger] CODE_RULES[i]).0@),
    ensures
        code_region(name, from) == Some(CODE_RULES[c].1@),
    decreases c - from,
{
    if from < c {
        assert(!has_region_code(name, CODE_RULES[from].0@));
        lemma_first_code(name, from + 1, c);
    }
}

proof fn lemma_no_code(name: Seq<char>, from: int)
    requires
        0 <= from <= CODE_RULES.len(),
        forall|i: int|
            from <= i < CODE_RULES.len() ==> !has_region_code(name, (#[trigger] CODE_RULES[i]).0@),
    ensures
        code_region(name, from) is None,
    decreases CODE_RULES.len() - from,
{
    if from < CODE_RULES.len() {
        assert(!has_region_code(name, CODE_RULES[from].0@));
        lemma_no_code(name, from + 1);
    }
}

/// The region of every name in which a phrase stands is that of the first such phrase.
pub proof fn law_region_of_the_first_phrase(name: Seq<char>, lower: Seq<char>, p: int)
    requires
        0 <= p < PHRASE_RULES.len(),
        phrase_stands(name, lower, PHRASE_RULES[p].0@),
        forall|i: int|
            0 <= i < p ==> !phrase_stands(name, lower, (#[trigger] PHRASE_RULES[i]).0@),
    ensures
        region_in(name, lower) == PHRASE_RULES[p].1@,
        lower == lowercase(name) ==> region_of(name) == PHRASE_RULES[p].1@,
{
    lemma_phrase_stands(name, lower, PHRASE_RULES[p].0@);
    assert forall|i: int| 0 <= i < p implies !has_phrase(
        name,
        lower,
        (#[trigger] PHRASE_RULES[i]).0@,
    ) by {
        lemma_phrase_stands(name, lower, PHRASE_RULES[i].0@);
    }
    lemma_first_phrase(name, lower, 0, p);
}

/// The region of every name in which no phrase stands and a code does, whatever else is in it, is
/// that of the first such code.
pub proof fn law_region_of_the_first_code(name: Seq<char>, lower: Seq<char>, c: int)
    requires
        forall|i: int|
            0 <= i < PHRASE_RULES.len() ==> !phrase_stands(
                name,
                lower,
                (#[trigger] PHRASE_RULES[i]).0@,
            ),
        0 <= c < CODE_RULES.len(),
        has_region_code(name, CODE_RULES[c].0@),
        forall|i: int| 0 <= i < c ==> !has_region_code(name, (#[trigger] CODE_RULES[i]).0@),
    ensures
        region_in(name, lower) == CODE_RULES[c].1@,
        lower == lowercase(name) ==> region_of(name) == CODE_RULES[c].1@,
{
    assert forall|i: int| 0 <= i < PHRASE_RULES.len() implies !has_phrase(
        name,
        lower,
        (#[trigger] PHRASE_RULES[i]).0@,
    ) by {
        lemma_phrase_stands(name, lower, PHRASE_RULES[i].0@);
    }
    lemma_no_phrase(name, lower, 0);
    lemma_first_code(name, 0, c);
}

/// A name is without a known region exactly if no phrase and no code stands in it.
pub proof fn law_other_region(name: Seq<char>, lower: Seq<char>)
    ensures
        region_in(name, lower) == OTHER_REGION@ <==> (forall|i: int|
            0 <= i < PHRASE_RULES.len() ==> !phrase_stands(
                name,
                lower,
                (#[trigger] PHRASE_RULES[i]).0@,
            )) && (forall|i: int|
            0 <= i < CODE_RULES.len() ==> !has_region_code(name, (#[trigger] CODE_RULES[i]).0@)),
        lower == lowercase(name) ==> region_of(name) == region_in(name, lower),
{
    let no_phrase = forall|i: int|
        0 <= i < PHRASE_RULES.len() ==> !phrase_stands(
            name,
            lower,
            (#[trigger] PHRASE_RULES[i]).0@,
        );
    let no_code = forall|i: int|
        0 <= i < CODE_RULES.len() ==> !has_region_code(name, (#[trigger] CODE_RULES[i]).0@);
    assert forall|i: int| 0 <= i < PHRASE_RULES.len() implies has_phrase(
        name,
        lower,
        (#[trigger] PHRASE_RULES[i]).0@,
    ) == phrase_stands(name, lower, PHRASE_RULES[i].0@) by {
        lemma_phrase_stands(name, lower, PHRASE_RULES[i].0@);
    }
    lemma_rules_name_known_regions();
    lemma_phrase_region_is_known(name, lower, 0);
    lemma_code_region_is_known(name, 0);
    if no_phrase {
        lemma_no_phrase(name, lower, 0);
        if no_code {
            lemma_no_code(name, 0);
        } else {
            lemma_some_code(name, 0);
        }
    } else {
        lemma_some_phrase(name, lower, 0);
    }
}

/// No rule names the region of those without one.
proof fn lemma_rules_name_known_regions()
    ensures
        forall|i: int|
            0 <= i < PHRASE_RULES.len() ==> (#[trigger] PHRASE_RULES[i]).1@ != OTHER_REGION@,
        forall|i: int| 0 <= i < CODE_RULES.len() ==> (#[trigger] CODE_RULES[i]).1@ != OTHER_REGION@,
{
    reveal_strlit("香港");
    reveal_strlit("澳门");
    reveal_strlit("台湾");
    reveal_strlit("新加坡");
    reveal_strlit("日本");
    reveal_strlit("韩国");
    reveal_strlit("美国");
    reveal_strlit("英国");
    reveal_strlit("德国");
    reveal_strlit("法国");
    reveal_strlit("荷兰");
    reveal_strlit("加拿大");
    reveal_strlit("澳大利亚");
    reveal_strlit("俄罗斯");
    reveal_strlit("印度");
    reveal_strlit("土耳其");
    reveal_strlit("阿根廷");
    reveal_strlit("巴西");
    reveal_strlit("菲律宾");
    reveal_strlit("泰国");
    reveal_strlit("马来西亚");
    reveal_strlit("越南");
    reveal_strlit("印尼");
    reveal_strlit("尼日利亚");
    reveal_strlit("阿联酋");
    reveal_strlit("其他");
    assert(OTHER_REGION@[0] == '其');
    assert(forall|i: int|
        0 <= i < PHRASE_RULES.len() ==> starts_otherwise((#[trigger] PHRASE_RULES[i]).1@));
    assert(forall|i: int|
        0 <= i < CODE_RULES.len() ==> starts_otherwise((#[trigger] CODE_RULES[i]).1@));
}

spec fn starts_otherwise(region: Seq<char>) -> bool {
    region[0] != '其'
}

proof fn lemma_some_phrase(name: Seq<char>, lower: Seq<char>, from: int)
    requires
        0 <= from,
        exists|i: int|
            from <= i < PHRASE_RULES.len() && has_phrase(
                name,
                lower,
                (#[trigger] PHRASE_RULES[i]).0@,
            ),
    ensures
        phrase_region(name, lower, from) is Some,
    decreases PHRASE_RULES.len() - from,
{
    let i = choose|i: int|
        from <= i < PHRASE_RULES.len() && has_phrase(name, lower, (#[trigger] PHRASE_RULES[i]).0@);
    if !has_phrase(name, lower, PHRASE_RULES[from].0@) {
        assert(i != from);
        lemma_some_phrase(name, lower, from + 1);
    }
}

proof fn lemma_some_code(name: Seq<char>, from: int)
    requires
        0 <= from,
        exists|i: int|
            from <= i < CODE_RULES.len() && has_region_code(name, (#[trigger] CODE_RULES[i]).0@),
    ensures
        code_region(name, from) is Some,
    decreases CODE_RULES.len() - from,
{
    let i = choose|i: int|
        from <= i < CODE_RULES.len() && has_region_code(name, (#[trigger] CODE_RULES[i]).0@);
    if !has_region_code(name, CODE_RULES[from].0@) {
        assert(i != from);
        lemma_some_code(name, from + 1);
    }
}

} // verus!
