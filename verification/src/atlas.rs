//! Which phrases and which codes tell which region, spelled out region by region.
use crate::region::code_region;
use crate::region::has_phrase;
use crate::region::has_region_code;
use crate::region::phrase_region;
use crate::region::region_in;
use crate::region::region_of;
use crate::text::contains_text;
use crate::text::lowercase;
use vstd::prelude::*;
use vstd::utf8::is_ascii_chars;

verus! {

/// A phrase for 香港 stands in the name, or in its lower-case form.
pub open spec fn says_hong_kong(name: Seq<char>, lower: Seq<char>) -> bool {
    ||| contains_text(name, "香港"@)
    ||| contains_text(lower, "hong kong"@)
    ||| contains_text(lower, "hongkong"@)
}

/// A phrase for 澳门 stands in the name, or in its lower-case form.
pub open spec fn says_macau(name: Seq<char>, lower: Seq<char>) -> bool {
    ||| contains_text(name, "澳门"@)
    ||| contains_text(name, "澳門"@)
    ||| contains_text(lower, "macau"@)
    ||| contains_text(lower, "macao"@)
}

/// A phrase for 台湾 stands in the name, or in its lower-case form.
pub open spec fn says_taiwan(name: Seq<char>, lower: Seq<char>) -> bool {
    ||| contains_text(name, "台湾"@)
    ||| contains_text(name, "台灣"@)
    ||| contains_text(name, "臺灣"@)
    ||| contains_text(lower, "taipei"@)
    ||| contains_text(lower, "taiwan"@)
}

/// A phrase for 新加坡 stands in the name, or in its lower-case form.
pub open spec fn says_singapore(name: Seq<char>, lower: Seq<char>) -> bool {
    ||| contains_text(name, "新加坡"@)
    ||| contains_text(lower, "singapore"@)
    ||| contains_text(name, "狮城"@)
    ||| contains_text(name, "獅城"@)
}

/// A phrase for 日本 stands in the name, or in its lower-case form.
pub open spec fn says_japan(name: Seq<char>, lower: Seq<char>) -> bool {
    ||| contains_text(name, "日本"@)
    ||| contains_text(name, "东京"@)
    ||| contains_text(name, "東京"@)
    ||| contains_text(name, "大阪"@)
    ||| contains_text(name, "名古屋"@)
    ||| contains_text(lower, "japan"@)
    ||| contains_text(lower, "tokyo"@)
    ||| contains_text(lower, "osaka"@)
}

/// A phrase for 韩国 stands in the name, or in its lower-case form.
pub open spec fn says_korea(name: Seq<char>, lower: Seq<char>) -> bool {
    ||| contains_text(name, "韩国"@)
    ||| contains_text(name, "韓國"@)
    ||| contains_text(name, "首尔"@)
    ||| contains_text(name, "首爾"@)
    ||| contains_text(lower, "korea"@)
    ||| contains_text(lower, "seoul"@)
}

/// A phrase for 美国 stands in the name, or in its lower-case form.
pub open spec fn says_america(name: Seq<char>, lower: Seq<char>) -> bool {
    ||| contains_text(name, "美国"@)
    ||| contains_text(name, "美國"@)
    ||| contains_text(lower, "usa"@)
    ||| contains_text(lower, "united states"@)
    ||| contains_text(lower, "los angeles"@)
    ||| contains_text(lower, "san jose"@)
    ||| contains_text(lower, "san francisco"@)
    ||| contains_text(lower, "seattle"@)
    ||| contains_text(lower, "chicago"@)
    ||| contains_text(lower, "dallas"@)
    ||| contains_text(lower, "miami"@)
    ||| contains_text(lower, "ashburn"@)
    ||| contains_text(lower, "buffalo"@)
    ||| contains_text(lower, "new york"@)
    ||| contains_text(lower, "las vegas"@)
}

/// A phrase for 英国 stands in the name, or in its lower-case form.
pub open spec fn says_britain(name: Seq<char>, lower: Seq<char>) -> bool {
    ||| contains_text(name, "英国"@)
    ||| contains_text(name, "英國"@)
    ||| contains_text(lower, "london"@)
    ||| contains_text(lower, "united kingdom"@)
    ||| contains_text(lower, "britain"@)
}

/// A phrase for 德国 stands in the name, or in its lower-case form.
pub open spec fn says_germany(name: Seq<char>, lower: Seq<char>) -> bool {
    ||| contains_text(name, "德国"@)
    ||| contains_text(name, "德國"@)
    ||| contains_text(lower, "frankfurt"@)
    ||| contains_text(lower, "germany"@)
    ||| contains_text(lower, "berlin"@)
}

/// A phrase for 法国 stands in the name, or in its lower-case form.
pub open spec fn says_france(name: Seq<char>, lower: Seq<char>) -> bool {
    ||| contains_text(name, "法国"@)
    ||| contains_text(name, "法國"@)
    ||| contains_text(lower, "paris"@)
    ||| contains_text(lower, "france"@)
}

/// A phrase for 荷兰 stands in the name, or in its lower-case form.
pub open spec fn says_netherlands(name: Seq<char>, lower: Seq<char>) -> bool {
    ||| contains_text(name, "荷兰"@)
    ||| contains_text(name, "荷蘭"@)
    ||| contains_text(lower, "amsterdam"@)
    ||| contains_text(lower, "netherlands"@)
}

/// A phrase for 加拿大 stands in the name, or in its lower-case form.
pub open spec fn says_canada(name: Seq<char>, lower: Seq<char>) -> bool {
    ||| contains_text(name, "加拿大"@)
    ||| contains_text(lower, "canada"@)
    ||| contains_text(lower, "toronto"@)
    ||| contains_text(lower, "vancouver"@)
    ||| contains_text(lower, "montreal"@)
}

/// A phrase for 澳大利亚 stands in the name, or in its lower-case form.
pub open spec fn says_australia(name: Seq<char>, lower: Seq<char>) -> bool {
    ||| contains_text(name, "澳大利亚"@)
    ||| contains_text(name, "澳洲"@)
    ||| contains_text(lower, "australia"@)
    ||| contains_text(lower, "sydney"@)
    ||| contains_text(lower, "melbourne"@)
}

/// A phrase for 俄罗斯 stands in the name, or in its lower-case form.
pub open spec fn says_russia(name: Seq<char>, lower: Seq<char>) -> bool {
    ||| contains_text(name, "俄罗斯"@)
    ||| contains_text(name, "俄羅斯"@)
    ||| contains_text(lower, "russia"@)
    ||| contains_text(lower, "moscow"@)
}

/// A phrase for 印度 stands in the name, or in its lower-case form.
pub open spec fn says_india(name: Seq<char>, lower: Seq<char>) -> bool {
    ||| contains_text(name, "印度"@)
    ||| contains_text(lower, "india"@)
    ||| contains_text(lower, "mumbai"@)
}

/// A phrase for 土耳其 stands in the name, or in its lower-case form.
pub open spec fn says_turkey(name: Seq<char>, lower: Seq<char>) -> bool {
    ||| contains_text(name, "土耳其"@)
    ||| contains_text(lower, "turkey"@)
    ||| contains_text(lower, "istanbul"@)
}

/// A phrase for 阿根廷 stands in the name, or in its lower-case form.
pub open spec fn says_argentina(name: Seq<char>, lower: Seq<char>) -> bool {
    ||| contains_text(name, "阿根廷"@)
    ||| contains_text(lower, "argentina"@)
    ||| contains_text(lower, "buenos"@)
}

/// A phrase for 巴西 stands in the name, or in its lower-case form.
pub open spec fn says_brazil(name: Seq<char>, lower: Seq<char>) -> bool {
    ||| contains_text(name, "巴西"@)
    ||| contains_text(lower, "brazil"@)
    ||| contains_text(lower, "sao paulo"@)
}

/// A phrase for 菲律宾 stands in the name, or in its lower-case form.
pub open spec fn says_philippines(name: Seq<char>, lower: Seq<char>) -> bool {
    ||| contains_text(name, "菲律宾"@)
    ||| contains_text(lower, "philippines"@)
    ||| contains_text(lower, "manila"@)
}

/// A phrase for 泰国 stands in the name, or in its lower-case form.
pub open spec fn says_thailand(name: Seq<char>, lower: Seq<char>) -> bool {
    ||| contains_text(name, "泰国"@)
    ||| contains_text(name, "泰國"@)
    ||| contains_text(lower, "thailand"@)
    ||| contains_text(lower, "bangkok"@)
}

/// A phrase for 马来西亚 stands in the name, or in its lower-case form.
pub open spec fn says_malaysia(name: Seq<char>, lower: Seq<char>) -> bool {
    ||| contains_text(name, "马来西亚"@)
    ||| contains_text(name, "馬來西亞"@)
    ||| contains_text(lower, "malaysia"@)
    ||| contains_text(lower, "kuala"@)
}

/// A phrase for 越南 stands in the name, or in its lower-case form.
pub open spec fn says_vietnam(name: Seq<char>, lower: Seq<char>) -> bool {
    ||| contains_text(name, "越南"@)
    ||| contains_text(lower, "vietnam"@)
    ||| contains_text(lower, "hanoi"@)
    ||| contains_text(lower, "saigon"@)
}

/// A phrase for 印尼 stands in the name, or in its lower-case form.
pub open spec fn says_indonesia(name: Seq<char>, lower: Seq<char>) -> bool {
    ||| contains_text(name, "印尼"@)
    ||| contains_text(lower, "indonesia"@)
    ||| contains_text(lower, "jakarta"@)
}

/// A phrase for 尼日利亚 stands in the name, or in its lower-case form.
pub open spec fn says_nigeria(name: Seq<char>, lower: Seq<char>) -> bool {
    ||| contains_text(name, "尼日利亚"@)
    ||| contains_text(lower, "nigeria"@)
    ||| contains_text(lower, "lagos"@)
}

/// A phrase for 阿联酋 stands in the name, or in its lower-case form.
pub open spec fn says_emirates(name: Seq<char>, lower: Seq<char>) -> bool {
    ||| contains_text(name, "迪拜"@)
    ||| contains_text(lower, "dubai"@)
    ||| contains_text(lower, "uae"@)
}

/// A code for 香港 is a word of the name.
pub open spec fn codes_hong_kong(name: Seq<char>) -> bool {
    ||| has_region_code(name, "HK"@)
}

/// A code for 澳门 is a word of the name.
pub open spec fn codes_macau(name: Seq<char>) -> bool {
    ||| has_region_code(name, "MO"@)
}

/// A code for 台湾 is a word of the name.
pub open spec fn codes_taiwan(name: Seq<char>) -> bool {
    ||| has_region_code(name, "TW"@)
}

/// A code for 新加坡 is a word of the name.
pub open spec fn codes_singapore(name: Seq<char>) -> bool {
    ||| has_region_code(name, "SG"@)
}

/// A code for 日本 is a word of the name.
pub open spec fn codes_japan(name: Seq<char>) -> bool {
    ||| has_region_code(name, "JP"@)
    ||| has_region_code(name, "TYO"@)
    ||| has_region_code(name, "OSA"@)
}

/// A code for 韩国 is a word of the name.
pub open spec fn codes_korea(name: Seq<char>) -> bool {
    ||| has_region_code(name, "KR"@)
    ||| has_region_code(name, "ICN"@)
}

/// A code for 美国 is a word of the name.
pub open spec fn codes_america(name: Seq<char>) -> bool {
    ||| has_region_code(name, "US"@)
    ||| has_region_code(name, "USA"@)
    ||| has_region_code(name, "LAX"@)
    ||| has_region_code(name, "SJC"@)
    ||| has_region_code(name, "SFO"@)
    ||| has_region_code(name, "SEA"@)
    ||| has_region_code(name, "ORD"@)
    ||| has_region_code(name, "DFW"@)
    ||| has_region_code(name, "MIA"@)
    ||| has_region_code(name, "IAD"@)
    ||| has_region_code(name, "NYC"@)
}

/// A code for 英国 is a word of the name.
pub open spec fn codes_britain(name: Seq<char>) -> bool {
    ||| has_region_code(name, "GB"@)
    ||| has_region_code(name, "UK"@)
    ||| has_region_code(name, "LON"@)
}

/// A code for 德国 is a word of the name.
pub open spec fn codes_germany(name: Seq<char>) -> bool {
    ||| has_region_code(name, "DE"@)
    ||| has_region_code(name, "FRA"@)
}

/// A code for 法国 is a word of the name.
pub open spec fn codes_france(name: Seq<char>) -> bool {
    ||| has_region_code(name, "FR"@)
    ||| has_region_code(name, "PAR"@)
}

/// A code for 荷兰 is a word of the name.
pub open spec fn codes_netherlands(name: Seq<char>) -> bool {
    ||| has_region_code(name, "NL"@)
    ||| has_region_code(name, "AMS"@)
}

/// A code for 加拿大 is a word of the name.
pub open spec fn codes_canada(name: Seq<char>) -> bool {
    ||| has_region_code(name, "CA"@)
    ||| has_region_code(name, "YVR"@)
    ||| has_region_code(name, "YYZ"@)
}

/// A code for 澳大利亚 is a word of the name.
pub open spec fn codes_australia(name: Seq<char>) -> bool {
    ||| has_region_code(name, "AU"@)
    ||| has_region_code(name, "SYD"@)
    ||| has_region_code(name, "MEL"@)
}

/// A code for 俄罗斯 is a word of the name.
pub open spec fn codes_russia(name: Seq<char>) -> bool {
    ||| has_region_code(name, "RU"@)
}

/// A code for 印度 is a word of the name.
pub open spec fn codes_india(name: Seq<char>) -> bool {
    ||| has_region_code(name, "IN"@)
}

/// A code for 土耳其 is a word of the name.
pub open spec fn codes_turkey(name: Seq<char>) -> bool {
    ||| has_region_code(name, "TR"@)
}

/// A code for 阿根廷 is a word of the name.
pub open spec fn codes_argentina(name: Seq<char>) -> bool {
    ||| has_region_code(name, "AR"@)
}

/// A code for 巴西 is a word of the name.
pub open spec fn codes_brazil(name: Seq<char>) -> bool {
    ||| has_region_code(name, "BR"@)
}

/// A code for 菲律宾 is a word of the name.
pub open spec fn codes_philippines(name: Seq<char>) -> bool {
    ||| has_region_code(name, "PH"@)
}

/// A code for 泰国 is a word of the name.
pub open spec fn codes_thailand(name: Seq<char>) -> bool {
    ||| has_region_code(name, "TH"@)
}

/// A code for 马来西亚 is a word of the name.
pub open spec fn codes_malaysia(name: Seq<char>) -> bool {
    ||| has_region_code(name, "MY"@)
}

/// A code for 越南 is a word of the name.
pub open spec fn codes_vietnam(name: Seq<char>) -> bool {
    ||| has_region_code(name, "VN"@)
}

/// A code for 印尼 is a word of the name.
pub open spec fn codes_indonesia(name: Seq<char>) -> bool {
    ||| has_region_code(name, "ID"@)
}

/// The region that the phrases in a name tell, if any does: of several, the one that is listed
/// first here.
pub open spec fn said_region(name: Seq<char>, lower: Seq<char>) -> Option<Seq<char>> {
    if says_hong_kong(name, lower) {
        Some("香港"@)
    } else if says_macau(name, lower) {
        Some("澳门"@)
    } else if says_taiwan(name, lower) {
        Some("台湾"@)
    } else if says_singapore(name, lower) {
        Some("新加坡"@)
    } else if says_japan(name, lower) {
        Some("日本"@)
    } else if says_korea(name, lower) {
        Some("韩国"@)
    } else if says_america(name, lower) {
        Some("美国"@)
    } else if says_britain(name, lower) {
        Some("英国"@)
    } else if says_germany(name, lower) {
        Some("德国"@)
    } else if says_france(name, lower) {
        Some("法国"@)
    } else if says_netherlands(name, lower) {
        Some("荷兰"@)
    } else if says_canada(name, lower) {
        Some("加拿大"@)
    } else if says_australia(name, lower) {
        Some("澳大利亚"@)
    } else if says_russia(name, lower) {
        Some("俄罗斯"@)
    } else if says_india(name, lower) {
        Some("印度"@)
    } else if says_turkey(name, lower) {
        Some("土耳其"@)
    } else if says_argentina(name, lower) {
        Some("阿根廷"@)
    } else if says_brazil(name, lower) {
        Some("巴西"@)
    } else if says_philippines(name, lower) {
        Some("菲律宾"@)
    } else if says_thailand(name, lower) {
        Some("泰国"@)
    } else if says_malaysia(name, lower) {
        Some("马来西亚"@)
    } else if says_vietnam(name, lower) {
        Some("越南"@)
    } else if says_indonesia(name, lower) {
        Some("印尼"@)
    } else if says_nigeria(name, lower) {
        Some("尼日利亚"@)
    } else if says_emirates(name, lower) {
        Some("阿联酋"@)
    } else {
        None
    }
}

/// The region that the codes in a name tell, if any does: of several, the one that is listed
/// first here.
pub open spec fn coded_region(name: Seq<char>) -> Option<Seq<char>> {
    if codes_hong_kong(name) {
        Some("香港"@)
    } else if codes_macau(name) {
        Some("澳门"@)
    } else if codes_taiwan(name) {
        Some("台湾"@)
    } else if codes_singapore(name) {
        Some("新加坡"@)
    } else if codes_japan(name) {
        Some("日本"@)
    } else if codes_korea(name) {
        Some("韩国"@)
    } else if codes_america(name) {
        Some("美国"@)
    } else if codes_britain(name) {
        Some("英国"@)
    } else if codes_germany(name) {
        Some("德国"@)
    } else if codes_france(name) {
        Some("法国"@)
    } else if codes_netherlands(name) {
        Some("荷兰"@)
    } else if codes_canada(name) {
        Some("加拿大"@)
    } else if codes_australia(name) {
        Some("澳大利亚"@)
    } else if codes_russia(name) {
        Some("俄罗斯"@)
    } else if codes_india(name) {
        Some("印度"@)
    } else if codes_turkey(name) {
        Some("土耳其"@)
    } else if codes_argentina(name) {
        Some("阿根廷"@)
    } else if codes_brazil(name) {
        Some("巴西"@)
    } else if codes_philippines(name) {
        Some("菲律宾"@)
    } else if codes_thailand(name) {
        Some("泰国"@)
    } else if codes_malaysia(name) {
        Some("马来西亚"@)
    } else if codes_vietnam(name) {
        Some("越南"@)
    } else if codes_indonesia(name) {
        Some("印尼"@)
    } else {
        None
    }
}

/// The region of any name: what its phrases tell, or else what its codes tell, or else that there
/// is none.
pub proof fn law_regions_by_phrase_and_code(name: Seq<char>, lower: Seq<char>)
    ensures
        region_in(name, lower) == (match said_region(name, lower) {
            Some(region) => region,
            None => match coded_region(name) {
                Some(region) => region,
                None => "其他"@,
            },
        }),
        lower == lowercase(name) ==> region_of(name) == region_in(name, lower),
{
    lemma_says_hong_kong(name, lower);
    lemma_says_macau(name, lower);
    lemma_says_taiwan(name, lower);
    lemma_says_singapore(name, lower);
    lemma_says_japan(name, lower);
    lemma_says_korea(name, lower);
    lemma_says_america(name, lower);
    lemma_says_britain(name, lower);
    lemma_says_germany(name, lower);
    lemma_says_france(name, lower);
    lemma_says_netherlands(name, lower);
    lemma_says_canada(name, lower);
    lemma_says_australia(name, lower);
    lemma_says_russia(name, lower);
    lemma_says_india(name, lower);
    lemma_says_turkey(name, lower);
    lemma_says_argentina(name, lower);
    lemma_says_brazil(name, lower);
    lemma_says_philippines(name, lower);
    lemma_says_thailand(name, lower);
    lemma_says_malaysia(name, lower);
    lemma_says_vietnam(name, lower);
    lemma_says_indonesia(name, lower);
    lemma_says_nigeria(name, lower);
    lemma_says_emirates(name, lower);
    assert(phrase_region(name, lower, 113) is None);
    lemma_codes_hong_kong(name);
    lemma_codes_macau(name);
    lemma_codes_taiwan(name);
    lemma_codes_singapore(name);
    lemma_codes_japan(name);
    lemma_codes_korea(name);
    lemma_codes_america(name);
    lemma_codes_britain(name);
    lemma_codes_germany(name);
    lemma_codes_france(name);
    lemma_codes_netherlands(name);
    lemma_codes_canada(name);
    lemma_codes_australia(name);
    lemma_codes_russia(name);
    lemma_codes_india(name);
    lemma_codes_turkey(name);
    lemma_codes_argentina(name);
    lemma_codes_brazil(name);
    lemma_codes_philippines(name);
    lemma_codes_thailand(name);
    lemma_codes_malaysia(name);
    lemma_codes_vietnam(name);
    lemma_codes_indonesia(name);
    assert(code_region(name, 45) is None);
}

proof fn lemma_says_hong_kong(name: Seq<char>, lower: Seq<char>)
    ensures
        phrase_region(name, lower, 0) == (if says_hong_kong(name, lower) {
            Some("香港"@)
        } else {
            phrase_region(name, lower, 3)
        }),
{
    reveal_strlit("香港");
    reveal_strlit("hong kong");
    reveal_strlit("hongkong");
    assert("香港"@[0] == '香');
    assert(!is_ascii_chars("香港"@));
    assert(is_ascii_chars("hong kong"@));
    assert(is_ascii_chars("hongkong"@));
    assert(phrase_region(name, lower, 0) == (if has_phrase(name, lower, "香港"@) {
        Some("香港"@)
    } else {
        phrase_region(name, lower, 1)
    }));
    assert(phrase_region(name, lower, 1) == (if has_phrase(name, lower, "hong kong"@) {
        Some("香港"@)
    } else {
        phrase_region(name, lower, 2)
    }));
    assert(phrase_region(name, lower, 2) == (if has_phrase(name, lower, "hongkong"@) {
        Some("香港"@)
    } else {
        phrase_region(name, lower, 3)
    }));
}

proof fn lemma_says_macau(name: Seq<char>, lower: Seq<char>)
    ensures
        phrase_region(name, lower, 3) == (if says_macau(name, lower) {
            Some("澳门"@)
        } else {
            phrase_region(name, lower, 7)
        }),
{
    reveal_strlit("澳门");
    reveal_strlit("澳門");
    reveal_strlit("macau");
    reveal_strlit("macao");
    assert("澳门"@[0] == '澳');
    assert(!is_ascii_chars("澳门"@));
    assert("澳門"@[0] == '澳');
    assert(!is_ascii_chars("澳門"@));
    assert(is_ascii_chars("macau"@));
    assert(is_ascii_chars("macao"@));
    assert(phrase_region(name, lower, 3) == (if has_phrase(name, lower, "澳门"@) {
        Some("澳门"@)
    } else {
        phrase_region(name, lower, 4)
    }));
    assert(phrase_region(name, lower, 4) == (if has_phrase(name, lower, "澳門"@) {
        Some("澳门"@)
    } else {
        phrase_region(name, lower, 5)
    }));
    assert(phrase_region(name, lower, 5) == (if has_phrase(name, lower, "macau"@) {
        Some("澳门"@)
    } else {
        phrase_region(name, lower, 6)
    }));
    assert(phrase_region(name, lower, 6) == (if has_phrase(name, lower, "macao"@) {
        Some("澳门"@)
    } else {
        phrase_region(name, lower, 7)
    }));
}

proof fn lemma_says_taiwan(name: Seq<char>, lower: Seq<char>)
    ensures
        phrase_region(name, lower, 7) == (if says_taiwan(name, lower) {
            Some("台湾"@)
        } else {
            phrase_region(name, lower, 12)
        }),
{
    reveal_strlit("台湾");
    reveal_strlit("台灣");
    reveal_strlit("臺灣");
    reveal_strlit("taipei");
    reveal_strlit("taiwan");
    assert("台湾"@[0] == '台');
    assert(!is_ascii_chars("台湾"@));
    assert("台灣"@[0] == '台');
    assert(!is_ascii_chars("台灣"@));
    assert("臺灣"@[0] == '臺');
    assert(!is_ascii_chars("臺灣"@));
    assert(is_ascii_chars("taipei"@));
    assert(is_ascii_chars("taiwan"@));
    assert(phrase_region(name, lower, 7) == (if has_phrase(name, lower, "台湾"@) {
        Some("台湾"@)
    } else {
        phrase_region(name, lower, 8)
    }));
    assert(phrase_region(name, lower, 8) == (if has_phrase(name, lower, "台灣"@) {
        Some("台湾"@)
    } else {
        phrase_region(name, lower, 9)
    }));
    assert(phrase_region(name, lower, 9) == (if has_phrase(name, lower, "臺灣"@) {
        Some("台湾"@)
    } else {
        phrase_region(name, lower, 10)
    }));
    assert(phrase_region(name, lower, 10) == (if has_phrase(name, lower, "taipei"@) {
        Some("台湾"@)
    } else {
        phrase_region(name, lower, 11)
    }));
    assert(phrase_region(name, lower, 11) == (if has_phrase(name, lower, "taiwan"@) {
        Some("台湾"@)
    } else {
        phrase_region(name, lower, 12)
    }));
}

proof fn lemma_says_singapore(name: Seq<char>, lower: Seq<char>)
    ensures
        phrase_region(name, lower, 12) == (if says_singapore(name, lower) {
            Some("新加坡"@)
        } else {
            phrase_region(name, lower, 16)
        }),
{
    reveal_strlit("新加坡");
    reveal_strlit("singapore");
    reveal_strlit("狮城");
    reveal_strlit("獅城");
    assert("新加坡"@[0] == '新');
    assert(!is_ascii_chars("新加坡"@));
    assert(is_ascii_chars("singapore"@));
    assert("狮城"@[0] == '狮');
    assert(!is_ascii_chars("狮城"@));
    assert("獅城"@[0] == '獅');
    assert(!is_ascii_chars("獅城"@));
    assert(phrase_region(name, lower, 12) == (if has_phrase(name, lower, "新加坡"@) {
        Some("新加坡"@)
    } else {
        phrase_region(name, lower, 13)
    }));
    assert(phrase_region(name, lower, 13) == (if has_phrase(name, lower, "singapore"@) {
        Some("新加坡"@)
    } else {
        phrase_region(name, lower, 14)
    }));
    assert(phrase_region(name, lower, 14) == (if has_phrase(name, lower, "狮城"@) {
        Some("新加坡"@)
    } else {
        phrase_region(name, lower, 15)
    }));
    assert(phrase_region(name, lower, 15) == (if has_phrase(name, lower, "獅城"@) {
        Some("新加坡"@)
    } else {
        phrase_region(name, lower, 16)
    }));
}

proof fn lemma_says_japan(name: Seq<char>, lower: Seq<char>)
    ensures
        phrase_region(name, lower, 16) == (if says_japan(name, lower) {
            Some("日本"@)
        } else {
            phrase_region(name, lower, 24)
        }),
{
    reveal_strlit("日本");
    reveal_strlit("东京");
    reveal_strlit("東京");
    reveal_strlit("大阪");
    reveal_strlit("名古屋");
    reveal_strlit("japan");
    reveal_strlit("tokyo");
    reveal_strlit("osaka");
    assert("日本"@[0] == '日');
    assert(!is_ascii_chars("日本"@));
    assert("东京"@[0] == '东');
    assert(!is_ascii_chars("东京"@));
    assert("東京"@[0] == '東');
    assert(!is_ascii_chars("東京"@));
    assert("大阪"@[0] == '大');
    assert(!is_ascii_chars("大阪"@));
    assert("名古屋"@[0] == '名');
    assert(!is_ascii_chars("名古屋"@));
    assert(is_ascii_chars("japan"@));
    assert(is_ascii_chars("tokyo"@));
    assert(is_ascii_chars("osaka"@));
    assert(phrase_region(name, lower, 16) == (if has_phrase(name, lower, "日本"@) {
        Some("日本"@)
    } else {
        phrase_region(name, lower, 17)
    }));
    assert(phrase_region(name, lower, 17) == (if has_phrase(name, lower, "东京"@) {
        Some("日本"@)
    } else {
        phrase_region(name, lower, 18)
    }));
    assert(phrase_region(name, lower, 18) == (if has_phrase(name, lower, "東京"@) {
        Some("日本"@)
    } else {
        phrase_region(name, lower, 19)
    }));
    assert(phrase_region(name, lower, 19) == (if has_phrase(name, lower, "大阪"@) {
        Some("日本"@)
    } else {
        phrase_region(name, lower, 20)
    }));
    assert(phrase_region(name, lower, 20) == (if has_phrase(name, lower, "名古屋"@) {
        Some("日本"@)
    } else {
        phrase_region(name, lower, 21)
    }));
    assert(phrase_region(name, lower, 21) == (if has_phrase(name, lower, "japan"@) {
        Some("日本"@)
    } else {
        phrase_region(name, lower, 22)
    }));
    assert(phrase_region(name, lower, 22) == (if has_phrase(name, lower, "tokyo"@) {
        Some("日本"@)
    } else {
        phrase_region(name, lower, 23)
    }));
    assert(phrase_region(name, lower, 23) == (if has_phrase(name, lower, "osaka"@) {
        Some("日本"@)
    } else {
        phrase_region(name, lower, 24)
    }));
}

proof fn lemma_says_korea(name: Seq<char>, lower: Seq<char>)
    ensures
        phrase_region(name, lower, 24) == (if says_korea(name, lower) {
            Some("韩国"@)
        } else {
            phrase_region(name, lower, 30)
        }),
{
    reveal_strlit("韩国");
    reveal_strlit("韓國");
    reveal_strlit("首尔");
    reveal_strlit("首爾");
    reveal_strlit("korea");
    reveal_strlit("seoul");
    assert("韩国"@[0] == '韩');
    assert(!is_ascii_chars("韩国"@));
    assert("韓國"@[0] == '韓');
    assert(!is_ascii_chars("韓國"@));
    assert("首尔"@[0] == '首');
    assert(!is_ascii_chars("首尔"@));
    assert("首爾"@[0] == '首');
    assert(!is_ascii_chars("首爾"@));
    assert(is_ascii_chars("korea"@));
    assert(is_ascii_chars("seoul"@));
    assert(phrase_region(name, lower, 24) == (if has_phrase(name, lower, "韩国"@) {
        Some("韩国"@)
    } else {
        phrase_region(name, lower, 25)
    }));
    assert(phrase_region(name, lower, 25) == (if has_phrase(name, lower, "韓國"@) {
        Some("韩国"@)
    } else {
        phrase_region(name, lower, 26)
    }));
    assert(phrase_region(name, lower, 26) == (if has_phrase(name, lower, "首尔"@) {
        Some("韩国"@)
    } else {
        phrase_region(name, lower, 27)
    }));
    assert(phrase_region(name, lower, 27) == (if has_phrase(name, lower, "首爾"@) {
        Some("韩国"@)
    } else {
        phrase_region(name, lower, 28)
    }));
    assert(phrase_region(name, lower, 28) == (if has_phrase(name, lower, "korea"@) {
        Some("韩国"@)
    } else {
        phrase_region(name, lower, 29)
    }));
    assert(phrase_region(name, lower, 29) == (if has_phrase(name, lower, "seoul"@) {
        Some("韩国"@)
    } else {
        phrase_region(name, lower, 30)
    }));
}

proof fn lemma_says_america(name: Seq<char>, lower: Seq<char>)
    ensures
        phrase_region(name, lower, 30) == (if says_america(name, lower) {
            Some("美国"@)
        } else {
            phrase_region(name, lower, 45)
        }),
{
    reveal_strlit("美国");
    reveal_strlit("美國");
    reveal_strlit("usa");
    reveal_strlit("united states");
    reveal_strlit("los angeles");
    reveal_strlit("san jose");
    reveal_strlit("san francisco");
    reveal_strlit("seattle");
    reveal_strlit("chicago");
    reveal_strlit("dallas");
    reveal_strlit("miami");
    reveal_strlit("ashburn");
    reveal_strlit("buffalo");
    reveal_strlit("new york");
    reveal_strlit("las vegas");
    assert("美国"@[0] == '美');
    assert(!is_ascii_chars("美国"@));
    assert("美國"@[0] == '美');
    assert(!is_ascii_chars("美國"@));
    assert(is_ascii_chars("usa"@));
    assert(is_ascii_chars("united states"@));
    assert(is_ascii_chars("los angeles"@));
    assert(is_ascii_chars("san jose"@));
    assert(is_ascii_chars("san francisco"@));
    assert(is_ascii_chars("seattle"@));
    assert(is_ascii_chars("chicago"@));
    assert(is_ascii_chars("dallas"@));
    assert(is_ascii_chars("miami"@));
    assert(is_ascii_chars("ashburn"@));
    assert(is_ascii_chars("buffalo"@));
    assert(is_ascii_chars("new york"@));
    assert(is_ascii_chars("las vegas"@));
    assert(phrase_region(name, lower, 30) == (if has_phrase(name, lower, "美国"@) {
        Some("美国"@)
    } else {
        phrase_region(name, lower, 31)
    }));
    assert(phrase_region(name, lower, 31) == (if has_phrase(name, lower, "美國"@) {
        Some("美国"@)
    } else {
        phrase_region(name, lower, 32)
    }));
    assert(phrase_region(name, lower, 32) == (if has_phrase(name, lower, "usa"@) {
        Some("美国"@)
    } else {
        phrase_region(name, lower, 33)
    }));
    assert(phrase_region(name, lower, 33) == (if has_phrase(name, lower, "united states"@) {
        Some("美国"@)
    } else {
        phrase_region(name, lower, 34)
    }));
    assert(phrase_region(name, lower, 34) == (if has_phrase(name, lower, "los angeles"@) {
        Some("美国"@)
    } else {
        phrase_region(name, lower, 35)
    }));
    assert(phrase_region(name, lower, 35) == (if has_phrase(name, lower, "san jose"@) {
        Some("美国"@)
    } else {
        phrase_region(name, lower, 36)
    }));
    assert(phrase_region(name, lower, 36) == (if has_phrase(name, lower, "san francisco"@) {
        Some("美国"@)
    } else {
        phrase_region(name, lower, 37)
    }));
    assert(phrase_region(name, lower, 37) == (if has_phrase(name, lower, "seattle"@) {
        Some("美国"@)
    } else {
        phrase_region(name, lower, 38)
    }));
    assert(phrase_region(name, lower, 38) == (if has_phrase(name, lower, "chicago"@) {
        Some("美国"@)
    } else {
        phrase_region(name, lower, 39)
    }));
    assert(phrase_region(name, lower, 39) == (if has_phrase(name, lower, "dallas"@) {
        Some("美国"@)
    } else {
        phrase_region(name, lower, 40)
    }));
    assert(phrase_region(name, lower, 40) == (if has_phrase(name, lower, "miami"@) {
        Some("美国"@)
    } else {
        phrase_region(name, lower, 41)
    }));
    assert(phrase_region(name, lower, 41) == (if has_phrase(name, lower, "ashburn"@) {
        Some("美国"@)
    } else {
        phrase_region(name, lower, 42)
    }));
    assert(phrase_region(name, lower, 42) == (if has_phrase(name, lower, "buffalo"@) {
        Some("美国"@)
    } else {
        phrase_region(name, lower, 43)
    }));
    assert(phrase_region(name, lower, 43) == (if has_phrase(name, lower, "new york"@) {
        Some("美国"@)
    } else {
        phrase_region(name, lower, 44)
    }));
    assert(phrase_region(name, lower, 44) == (if has_phrase(name, lower, "las vegas"@) {
        Some("美国"@)
    } else {
        phrase_region(name, lower, 45)
    }));
}

proof fn lemma_says_britain(name: Seq<char>, lower: Seq<char>)
    ensures
        phrase_region(name, lower, 45) == (if says_britain(name, lower) {
            Some("英国"@)
        } else {
            phrase_region(name, lower, 50)
        }),
{
    reveal_strlit("英国");
    reveal_strlit("英國");
    reveal_strlit("london");
    reveal_strlit("united kingdom");
    reveal_strlit("britain");
    assert("英国"@[0] == '英');
    assert(!is_ascii_chars("英国"@));
    assert("英國"@[0] == '英');
    assert(!is_ascii_chars("英國"@));
    assert(is_ascii_chars("london"@));
    assert(is_ascii_chars("united kingdom"@));
    assert(is_ascii_chars("britain"@));
    assert(phrase_region(name, lower, 45) == (if has_phrase(name, lower, "英国"@) {
        Some("英国"@)
    } else {
        phrase_region(name, lower, 46)
    }));
    assert(phrase_region(name, lower, 46) == (if has_phrase(name, lower, "英國"@) {
        Some("英国"@)
    } else {
        phrase_region(name, lower, 47)
    }));
    assert(phrase_region(name, lower, 47) == (if has_phrase(name, lower, "london"@) {
        Some("英国"@)
    } else {
        phrase_region(name, lower, 48)
    }));
    assert(phrase_region(name, lower, 48) == (if has_phrase(name, lower, "united kingdom"@) {
        Some("英国"@)
    } else {
        phrase_region(name, lower, 49)
    }));
    assert(phrase_region(name, lower, 49) == (if has_phrase(name, lower, "britain"@) {
        Some("英国"@)
    } else {
        phrase_region(name, lower, 50)
    }));
}

proof fn lemma_says_germany(name: Seq<char>, lower: Seq<char>)
    ensures
        phrase_region(name, lower, 50) == (if says_germany(name, lower) {
            Some("德国"@)
        } else {
            phrase_region(name, lower, 55)
        }),
{
    reveal_strlit("德国");
    reveal_strlit("德國");
    reveal_strlit("frankfurt");
    reveal_strlit("germany");
    reveal_strlit("berlin");
    assert("德国"@[0] == '德');
    assert(!is_ascii_chars("德国"@));
    assert("德國"@[0] == '德');
    assert(!is_ascii_chars("德國"@));
    assert(is_ascii_chars("frankfurt"@));
    assert(is_ascii_chars("germany"@));
    assert(is_ascii_chars("berlin"@));
    assert(phrase_region(name, lower, 50) == (if has_phrase(name, lower, "德国"@) {
        Some("德国"@)
    } else {
        phrase_region(name, lower, 51)
    }));
    assert(phrase_region(name, lower, 51) == (if has_phrase(name, lower, "德國"@) {
        Some("德国"@)
    } else {
        phrase_region(name, lower, 52)
    }));
    assert(phrase_region(name, lower, 52) == (if has_phrase(name, lower, "frankfurt"@) {
        Some("德国"@)
    } else {
        phrase_region(name, lower, 53)
    }));
    assert(phrase_region(name, lower, 53) == (if has_phrase(name, lower, "germany"@) {
        Some("德国"@)
    } else {
        phrase_region(name, lower, 54)
    }));
    assert(phrase_region(name, lower, 54) == (if has_phrase(name, lower, "berlin"@) {
        Some("德国"@)
    } else {
        phrase_region(name, lower, 55)
    }));
}

proof fn lemma_says_france(name: Seq<char>, lower: Seq<char>)
    ensures
        phrase_region(name, lower, 55) == (if says_france(name, lower) {
            Some("法国"@)
        } else {
            phrase_region(name, lower, 59)
        }),
{
    reveal_strlit("法国");
    reveal_strlit("法國");
    reveal_strlit("paris");
    reveal_strlit("france");
    assert("法国"@[0] == '法');
    assert(!is_ascii_chars("法国"@));
    assert("法國"@[0] == '法');
    assert(!is_ascii_chars("法國"@));
    assert(is_ascii_chars("paris"@));
    assert(is_ascii_chars("france"@));
    assert(phrase_region(name, lower, 55) == (if has_phrase(name, lower, "法国"@) {
        Some("法国"@)
    } else {
        phrase_region(name, lower, 56)
    }));
    assert(phrase_region(name, lower, 56) == (if has_phrase(name, lower, "法國"@) {
        Some("法国"@)
    } else {
        phrase_region(name, lower, 57)
    }));
    assert(phrase_region(name, lower, 57) == (if has_phrase(name, lower, "paris"@) {
        Some("法国"@)
    } else {
        phrase_region(name, lower, 58)
    }));
    assert(phrase_region(name, lower, 58) == (if has_phrase(name, lower, "france"@) {
        Some("法国"@)
    } else {
        phrase_region(name, lower, 59)
    }));
}

proof fn lemma_says_netherlands(name: Seq<char>, lower: Seq<char>)
    ensures
        phrase_region(name, lower, 59) == (if says_netherlands(name, lower) {
            Some("荷兰"@)
        } else {
            phrase_region(name, lower, 63)
        }),
{
    reveal_strlit("荷兰");
    reveal_strlit("荷蘭");
    reveal_strlit("amsterdam");
    reveal_strlit("netherlands");
    assert("荷兰"@[0] == '荷');
    assert(!is_ascii_chars("荷兰"@));
    assert("荷蘭"@[0] == '荷');
    assert(!is_ascii_chars("荷蘭"@));
    assert(is_ascii_chars("amsterdam"@));
    assert(is_ascii_chars("netherlands"@));
    assert(phrase_region(name, lower, 59) == (if has_phrase(name, lower, "荷兰"@) {
        Some("荷兰"@)
    } else {
        phrase_region(name, lower, 60)
    }));
    assert(phrase_region(name, lower, 60) == (if has_phrase(name, lower, "荷蘭"@) {
        Some("荷兰"@)
    } else {
        phrase_region(name, lower, 61)
    }));
    assert(phrase_region(name, lower, 61) == (if has_phrase(name, lower, "amsterdam"@) {
        Some("荷兰"@)
    } else {
        phrase_region(name, lower, 62)
    }));
    assert(phrase_region(name, lower, 62) == (if has_phrase(name, lower, "netherlands"@) {
        Some("荷兰"@)
    } else {
        phrase_region(name, lower, 63)
    }));
}

proof fn lemma_says_canada(name: Seq<char>, lower: Seq<char>)
    ensures
        phrase_region(name, lower, 63) == (if says_canada(name, lower) {
            Some("加拿大"@)
        } else {
            phrase_region(name, lower, 68)
        }),
{
    reveal_strlit("加拿大");
    reveal_strlit("canada");
    reveal_strlit("toronto");
    reveal_strlit("vancouver");
    reveal_strlit("montreal");
    assert("加拿大"@[0] == '加');
    assert(!is_ascii_chars("加拿大"@));
    assert(is_ascii_chars("canada"@));
    assert(is_ascii_chars("toronto"@));
    assert(is_ascii_chars("vancouver"@));
    assert(is_ascii_chars("montreal"@));
    assert(phrase_region(name, lower, 63) == (if has_phrase(name, lower, "加拿大"@) {
        Some("加拿大"@)
    } else {
        phrase_region(name, lower, 64)
    }));
    assert(phrase_region(name, lower, 64) == (if has_phrase(name, lower, "canada"@) {
        Some("加拿大"@)
    } else {
        phrase_region(name, lower, 65)
    }));
    assert(phrase_region(name, lower, 65) == (if has_phrase(name, lower, "toronto"@) {
        Some("加拿大"@)
    } else {
        phrase_region(name, lower, 66)
    }));
    assert(phrase_region(name, lower, 66) == (if has_phrase(name, lower, "vancouver"@) {
        Some("加拿大"@)
    } else {
        phrase_region(name, lower, 67)
    }));
    assert(phrase_region(name, lower, 67) == (if has_phrase(name, lower, "montreal"@) {
        Some("加拿大"@)
    } else {
        phrase_region(name, lower, 68)
    }));
}

proof fn lemma_says_australia(name: Seq<char>, lower: Seq<char>)
    ensures
        phrase_region(name, lower, 68) == (if says_australia(name, lower) {
            Some("澳大利亚"@)
        } else {
            phrase_region(name, lower, 73)
        }),
{
    reveal_strlit("澳大利亚");
    reveal_strlit("澳洲");
    reveal_strlit("australia");
    reveal_strlit("sydney");
    reveal_strlit("melbourne");
    assert("澳大利亚"@[0] == '澳');
    assert(!is_ascii_chars("澳大利亚"@));
    assert("澳洲"@[0] == '澳');
    assert(!is_ascii_chars("澳洲"@));
    assert(is_ascii_chars("australia"@));
    assert(is_ascii_chars("sydney"@));
    assert(is_ascii_chars("melbourne"@));
    assert(phrase_region(name, lower, 68) == (if has_phrase(name, lower, "澳大利亚"@) {
        Some("澳大利亚"@)
    } else {
        phrase_region(name, lower, 69)
    }));
    assert(phrase_region(name, lower, 69) == (if has_phrase(name, lower, "澳洲"@) {
        Some("澳大利亚"@)
    } else {
        phrase_region(name, lower, 70)
    }));
    assert(phrase_region(name, lower, 70) == (if has_phrase(name, lower, "australia"@) {
        Some("澳大利亚"@)
    } else {
        phrase_region(name, lower, 71)
    }));
    assert(phrase_region(name, lower, 71) == (if has_phrase(name, lower, "sydney"@) {
        Some("澳大利亚"@)
    } else {
        phrase_region(name, lower, 72)
    }));
    assert(phrase_region(name, lower, 72) == (if has_phrase(name, lower, "melbourne"@) {
        Some("澳大利亚"@)
    } else {
        phrase_region(name, lower, 73)
    }));
}

proof fn lemma_says_russia(name: Seq<char>, lower: Seq<char>)
    ensures
        phrase_region(name, lower, 73) == (if says_russia(name, lower) {
            Some("俄罗斯"@)
        } else {
            phrase_region(name, lower, 77)
        }),
{
    reveal_strlit("俄罗斯");
    reveal_strlit("俄羅斯");
    reveal_strlit("russia");
    reveal_strlit("moscow");
    assert("俄罗斯"@[0] == '俄');
    assert(!is_ascii_chars("俄罗斯"@));
    assert("俄羅斯"@[0] == '俄');
    assert(!is_ascii_chars("俄羅斯"@));
    assert(is_ascii_chars("russia"@));
    assert(is_ascii_chars("moscow"@));
    assert(phrase_region(name, lower, 73) == (if has_phrase(name, lower, "俄罗斯"@) {
        Some("俄罗斯"@)
    } else {
        phrase_region(name, lower, 74)
    }));
    assert(phrase_region(name, lower, 74) == (if has_phrase(name, lower, "俄羅斯"@) {
        Some("俄罗斯"@)
    } else {
        phrase_region(name, lower, 75)
    }));
    assert(phrase_region(name, lower, 75) == (if has_phrase(name, lower, "russia"@) {
        Some("俄罗斯"@)
    } else {
        phrase_region(name, lower, 76)
    }));
    assert(phrase_region(name, lower, 76) == (if has_phrase(name, lower, "moscow"@) {
        Some("俄罗斯"@)
    } else {
        phrase_region(name, lower, 77)
    }));
}

proof fn lemma_says_india(name: Seq<char>, lower: Seq<char>)
    ensures
        phrase_region(name, lower, 77) == (if says_india(name, lower) {
            Some("印度"@)
        } else {
            phrase_region(name, lower, 80)
        }),
{
    reveal_strlit("印度");
    reveal_strlit("india");
    reveal_strlit("mumbai");
    assert("印度"@[0] == '印');
    assert(!is_ascii_chars("印度"@));
    assert(is_ascii_chars("india"@));
    assert(is_ascii_chars("mumbai"@));
    assert(phrase_region(name, lower, 77) == (if has_phrase(name, lower, "印度"@) {
        Some("印度"@)
    } else {
        phrase_region(name, lower, 78)
    }));
    assert(phrase_region(name, lower, 78) == (if has_phrase(name, lower, "india"@) {
        Some("印度"@)
    } else {
        phrase_region(name, lower, 79)
    }));
    assert(phrase_region(name, lower, 79) == (if has_phrase(name, lower, "mumbai"@) {
        Some("印度"@)
    } else {
        phrase_region(name, lower, 80)
    }));
}

proof fn lemma_says_turkey(name: Seq<char>, lower: Seq<char>)
    ensures
        phrase_region(name, lower, 80) == (if says_turkey(name, lower) {
            Some("土耳其"@)
        } else {
            phrase_region(name, lower, 83)
        }),
{
    reveal_strlit("土耳其");
    reveal_strlit("turkey");
    reveal_strlit("istanbul");
    assert("土耳其"@[0] == '土');
    assert(!is_ascii_chars("土耳其"@));
    assert(is_ascii_chars("turkey"@));
    assert(is_ascii_chars("istanbul"@));
    assert(phrase_region(name, lower, 80) == (if has_phrase(name, lower, "土耳其"@) {
        Some("土耳其"@)
    } else {
        phrase_region(name, lower, 81)
    }));
    assert(phrase_region(name, lower, 81) == (if has_phrase(name, lower, "turkey"@) {
        Some("土耳其"@)
    } else {
        phrase_region(name, lower, 82)
    }));
    assert(phrase_region(name, lower, 82) == (if has_phrase(name, lower, "istanbul"@) {
        Some("土耳其"@)
    } else {
        phrase_region(name, lower, 83)
    }));
}

proof fn lemma_says_argentina(name: Seq<char>, lower: Seq<char>)
    ensures
        phrase_region(name, lower, 83) == (if says_argentina(name, lower) {
            Some("阿根廷"@)
        } else {
            phrase_region(name, lower, 86)
        }),
{
    reveal_strlit("阿根廷");
    reveal_strlit("argentina");
    reveal_strlit("buenos");
    assert("阿根廷"@[0] == '阿');
    assert(!is_ascii_chars("阿根廷"@));
    assert(is_ascii_chars("argentina"@));
    assert(is_ascii_chars("buenos"@));
    assert(phrase_region(name, lower, 83) == (if has_phrase(name, lower, "阿根廷"@) {
        Some("阿根廷"@)
    } else {
        phrase_region(name, lower, 84)
    }));
    assert(phrase_region(name, lower, 84) == (if has_phrase(name, lower, "argentina"@) {
        Some("阿根廷"@)
    } else {
        phrase_region(name, lower, 85)
    }));
    assert(phrase_region(name, lower, 85) == (if has_phrase(name, lower, "buenos"@) {
        Some("阿根廷"@)
    } else {
        phrase_region(name, lower, 86)
    }));
}

proof fn lemma_says_brazil(name: Seq<char>, lower: Seq<char>)
    ensures
        phrase_region(name, lower, 86) == (if says_brazil(name, lower) {
            Some("巴西"@)
        } else {
            phrase_region(name, lower, 89)
        }),
{
    reveal_strlit("巴西");
    reveal_strlit("brazil");
    reveal_strlit("sao paulo");
    assert("巴西"@[0] == '巴');
    assert(!is_ascii_chars("巴西"@));
    assert(is_ascii_chars("brazil"@));
    assert(is_ascii_chars("sao paulo"@));
    assert(phrase_region(name, lower, 86) == (if has_phrase(name, lower, "巴西"@) {
        Some("巴西"@)
    } else {
        phrase_region(name, lower, 87)
    }));
    assert(phrase_region(name, lower, 87) == (if has_phrase(name, lower, "brazil"@) {
        Some("巴西"@)
    } else {
        phrase_region(name, lower, 88)
    }));
    assert(phrase_region(name, lower, 88) == (if has_phrase(name, lower, "sao paulo"@) {
        Some("巴西"@)
    } else {
        phrase_region(name, lower, 89)
    }));
}

proof fn lemma_says_philippines(name: Seq<char>, lower: Seq<char>)
    ensures
        phrase_region(name, lower, 89) == (if says_philippines(name, lower) {
            Some("菲律宾"@)
        } else {
            phrase_region(name, lower, 92)
        }),
{
    reveal_strlit("菲律宾");
    reveal_strlit("philippines");
    reveal_strlit("manila");
    assert("菲律宾"@[0] == '菲');
    assert(!is_ascii_chars("菲律宾"@));
    assert(is_ascii_chars("philippines"@));
    assert(is_ascii_chars("manila"@));
    assert(phrase_region(name, lower, 89) == (if has_phrase(name, lower, "菲律宾"@) {
        Some("菲律宾"@)
    } else {
        phrase_region(name, lower, 90)
    }));
    assert(phrase_region(name, lower, 90) == (if has_phrase(name, lower, "philippines"@) {
        Some("菲律宾"@)
    } else {
        phrase_region(name, lower, 91)
    }));
    assert(phrase_region(name, lower, 91) == (if has_phrase(name, lower, "manila"@) {
        Some("菲律宾"@)
    } else {
        phrase_region(name, lower, 92)
    }));
}

proof fn lemma_says_thailand(name: Seq<char>, lower: Seq<char>)
    ensures
        phrase_region(name, lower, 92) == (if says_thailand(name, lower) {
            Some("泰国"@)
        } else {
            phrase_region(name, lower, 96)
        }),
{
    reveal_strlit("泰国");
    reveal_strlit("泰國");
    reveal_strlit("thailand");
    reveal_strlit("bangkok");
    assert("泰国"@[0] == '泰');
    assert(!is_ascii_chars("泰国"@));
    assert("泰國"@[0] == '泰');
    assert(!is_ascii_chars("泰國"@));
    assert(is_ascii_chars("thailand"@));
    assert(is_ascii_chars("bangkok"@));
    assert(phrase_region(name, lower, 92) == (if has_phrase(name, lower, "泰国"@) {
        Some("泰国"@)
    } else {
        phrase_region(name, lower, 93)
    }));
    assert(phrase_region(name, lower, 93) == (if has_phrase(name, lower, "泰國"@) {
        Some("泰国"@)
    } else {
        phrase_region(name, lower, 94)
    }));
    assert(phrase_region(name, lower, 94) == (if has_phrase(name, lower, "thailand"@) {
        Some("泰国"@)
    } else {
        phrase_region(name, lower, 95)
    }));
    assert(phrase_region(name, lower, 95) == (if has_phrase(name, lower, "bangkok"@) {
        Some("泰国"@)
    } else {
        phrase_region(name, lower, 96)
    }));
}

proof fn lemma_says_malaysia(name: Seq<char>, lower: Seq<char>)
    ensures
        phrase_region(name, lower, 96) == (if says_malaysia(name, lower) {
            Some("马来西亚"@)
        } else {
            phrase_region(name, lower, 100)
        }),
{
    reveal_strlit("马来西亚");
    reveal_strlit("馬來西亞");
    reveal_strlit("malaysia");
    reveal_strlit("kuala");
    assert("马来西亚"@[0] == '马');
    assert(!is_ascii_chars("马来西亚"@));
    assert("馬來西亞"@[0] == '馬');
    assert(!is_ascii_chars("馬來西亞"@));
    assert(is_ascii_chars("malaysia"@));
    assert(is_ascii_chars("kuala"@));
    assert(phrase_region(name, lower, 96) == (if has_phrase(name, lower, "马来西亚"@) {
        Some("马来西亚"@)
    } else {
        phrase_region(name, lower, 97)
    }));
    assert(phrase_region(name, lower, 97) == (if has_phrase(name, lower, "馬來西亞"@) {
        Some("马来西亚"@)
    } else {
        phrase_region(name, lower, 98)
    }));
    assert(phrase_region(name, lower, 98) == (if has_phrase(name, lower, "malaysia"@) {
        Some("马来西亚"@)
    } else {
        phrase_region(name, lower, 99)
    }));
    assert(phrase_region(name, lower, 99) == (if has_phrase(name, lower, "kuala"@) {
        Some("马来西亚"@)
    } else {
        phrase_region(name, lower, 100)
    }));
}

proof fn lemma_says_vietnam(name: Seq<char>, lower: Seq<char>)
    ensures
        phrase_region(name, lower, 100) == (if says_vietnam(name, lower) {
            Some("越南"@)
        } else {
            phrase_region(name, lower, 104)
        }),
{
    reveal_strlit("越南");
    reveal_strlit("vietnam");
    reveal_strlit("hanoi");
    reveal_strlit("saigon");
    assert("越南"@[0] == '越');
    assert(!is_ascii_chars("越南"@));
    assert(is_ascii_chars("vietnam"@));
    assert(is_ascii_chars("hanoi"@));
    assert(is_ascii_chars("saigon"@));
    assert(phrase_region(name, lower, 100) == (if has_phrase(name, lower, "越南"@) {
        Some("越南"@)
    } else {
        phrase_region(name, lower, 101)
    }));
    assert(phrase_region(name, lower, 101) == (if has_phrase(name, lower, "vietnam"@) {
        Some("越南"@)
    } else {
        phrase_region(name, lower, 102)
    }));
    assert(phrase_region(name, lower, 102) == (if has_phrase(name, lower, "hanoi"@) {
        Some("越南"@)
    } else {
        phrase_region(name, lower, 103)
    }));
    assert(phrase_region(name, lower, 103) == (if has_phrase(name, lower, "saigon"@) {
        Some("越南"@)
    } else {
        phrase_region(name, lower, 104)
    }));
}

proof fn lemma_says_indonesia(name: Seq<char>, lower: Seq<char>)
    ensures
        phrase_region(name, lower, 104) == (if says_indonesia(name, lower) {
            Some("印尼"@)
        } else {
            phrase_region(name, lower, 107)
        }),
{
    reveal_strlit("印尼");
    reveal_strlit("indonesia");
    reveal_strlit("jakarta");
    assert("印尼"@[0] == '印');
    assert(!is_ascii_chars("印尼"@));
    assert(is_ascii_chars("indonesia"@));
    assert(is_ascii_chars("jakarta"@));
    assert(phrase_region(name, lower, 104) == (if has_phrase(name, lower, "印尼"@) {
        Some("印尼"@)
    } else {
        phrase_region(name, lower, 105)
    }));
    assert(phrase_region(name, lower, 105) == (if has_phrase(name, lower, "indonesia"@) {
        Some("印尼"@)
    } else {
        phrase_region(name, lower, 106)
    }));
    assert(phrase_region(name, lower, 106) == (if has_phrase(name, lower, "jakarta"@) {
        Some("印尼"@)
    } else {
        phrase_region(name, lower, 107)
    }));
}

proof fn lemma_says_nigeria(name: Seq<char>, lower: Seq<char>)
    ensures
        phrase_region(name, lower, 107) == (if says_nigeria(name, lower) {
            Some("尼日利亚"@)
        } else {
            phrase_region(name, lower, 110)
        }),
{
    reveal_strlit("尼日利亚");
    reveal_strlit("nigeria");
    reveal_strlit("lagos");
    assert("尼日利亚"@[0] == '尼');
    assert(!is_ascii_chars("尼日利亚"@));
    assert(is_ascii_chars("nigeria"@));
    assert(is_ascii_chars("lagos"@));
    assert(phrase_region(name, lower, 107) == (if has_phrase(name, lower, "尼日利亚"@) {
        Some("尼日利亚"@)
    } else {
        phrase_region(name, lower, 108)
    }));
    assert(phrase_region(name, lower, 108) == (if has_phrase(name, lower, "nigeria"@) {
        Some("尼日利亚"@)
    } else {
        phrase_region(name, lower, 109)
    }));
    assert(phrase_region(name, lower, 109) == (if has_phrase(name, lower, "lagos"@) {
        Some("尼日利亚"@)
    } else {
        phrase_region(name, lower, 110)
    }));
}

proof fn lemma_says_emirates(name: Seq<char>, lower: Seq<char>)
    ensures
        phrase_region(name, lower, 110) == (if says_emirates(name, lower) {
            Some("阿联酋"@)
        } else {
            phrase_region(name, lower, 113)
        }),
{
    reveal_strlit("迪拜");
    reveal_strlit("dubai");
    reveal_strlit("uae");
    assert("迪拜"@[0] == '迪');
    assert(!is_ascii_chars("迪拜"@));
    assert(is_ascii_chars("dubai"@));
    assert(is_ascii_chars("uae"@));
    assert(phrase_region(name, lower, 110) == (if has_phrase(name, lower, "迪拜"@) {
        Some("阿联酋"@)
    } else {
        phrase_region(name, lower, 111)
    }));
    assert(phrase_region(name, lower, 111) == (if has_phrase(name, lower, "dubai"@) {
        Some("阿联酋"@)
    } else {
        phrase_region(name, lower, 112)
    }));
    assert(phrase_region(name, lower, 112) == (if has_phrase(name, lower, "uae"@) {
        Some("阿联酋"@)
    } else {
        phrase_region(name, lower, 113)
    }));
}

proof fn lemma_codes_hong_kong(name: Seq<char>)
    ensures
        code_region(name, 0) == (if codes_hong_kong(name) {
            Some("香港"@)
        } else {
            code_region(name, 1)
        }),
{
    assert(code_region(name, 0) == (if has_region_code(name, "HK"@) {
        Some("香港"@)
    } else {
        code_region(name, 1)
    }));
}

proof fn lemma_codes_macau(name: Seq<char>)
    ensures
        code_region(name, 1) == (if codes_macau(name) {
            Some("澳门"@)
        } else {
            code_region(name, 2)
        }),
{
    assert(code_region(name, 1) == (if has_region_code(name, "MO"@) {
        Some("澳门"@)
    } else {
        code_region(name, 2)
    }));
}

proof fn lemma_codes_taiwan(name: Seq<char>)
    ensures
        code_region(name, 2) == (if codes_taiwan(name) {
            Some("台湾"@)
        } else {
            code_region(name, 3)
        }),
{
    assert(code_region(name, 2) == (if has_region_code(name, "TW"@) {
        Some("台湾"@)
    } else {
        code_region(name, 3)
    }));
}

proof fn lemma_codes_singapore(name: Seq<char>)
    ensures
        code_region(name, 3) == (if codes_singapore(name) {
            Some("新加坡"@)
        } else {
            code_region(name, 4)
        }),
{
    assert(code_region(name, 3) == (if has_region_code(name, "SG"@) {
        Some("新加坡"@)
    } else {
        code_region(name, 4)
    }));
}

proof fn lemma_codes_japan(name: Seq<char>)
    ensures
        code_region(name, 4) == (if codes_japan(name) {
            Some("日本"@)
        } else {
            code_region(name, 7)
        }),
{
    assert(code_region(name, 4) == (if has_region_code(name, "JP"@) {
        Some("日本"@)
    } else {
        code_region(name, 5)
    }));
    assert(code_region(name, 5) == (if has_region_code(name, "TYO"@) {
        Some("日本"@)
    } else {
        code_region(name, 6)
    }));
    assert(code_region(name, 6) == (if has_region_code(name, "OSA"@) {
        Some("日本"@)
    } else {
        code_region(name, 7)
    }));
}

proof fn lemma_codes_korea(name: Seq<char>)
    ensures
        code_region(name, 7) == (if codes_korea(name) {
            Some("韩国"@)
        } else {
            code_region(name, 9)
        }),
{
    assert(code_region(name, 7) == (if has_region_code(name, "KR"@) {
        Some("韩国"@)
    } else {
        code_region(name, 8)
    }));
    assert(code_region(name, 8) == (if has_region_code(name, "ICN"@) {
        Some("韩国"@)
    } else {
        code_region(name, 9)
    }));
}

proof fn lemma_codes_america(name: Seq<char>)
    ensures
        code_region(name, 9) == (if codes_america(name) {
            Some("美国"@)
        } else {
            code_region(name, 20)
        }),
{
    assert(code_region(name, 9) == (if has_region_code(name, "US"@) {
        Some("美国"@)
    } else {
        code_region(name, 10)
    }));
    assert(code_region(name, 10) == (if has_region_code(name, "USA"@) {
        Some("美国"@)
    } else {
        code_region(name, 11)
    }));
    assert(code_region(name, 11) == (if has_region_code(name, "LAX"@) {
        Some("美国"@)
    } else {
        code_region(name, 12)
    }));
    assert(code_region(name, 12) == (if has_region_code(name, "SJC"@) {
        Some("美国"@)
    } else {
        code_region(name, 13)
    }));
    assert(code_region(name, 13) == (if has_region_code(name, "SFO"@) {
        Some("美国"@)
    } else {
        code_region(name, 14)
    }));
    assert(code_region(name, 14) == (if has_region_code(name, "SEA"@) {
        Some("美国"@)
    } else {
        code_region(name, 15)
    }));
    assert(code_region(name, 15) == (if has_region_code(name, "ORD"@) {
        Some("美国"@)
    } else {
        code_region(name, 16)
    }));
    assert(code_region(name, 16) == (if has_region_code(name, "DFW"@) {
        Some("美国"@)
    } else {
        code_region(name, 17)
    }));
    assert(code_region(name, 17) == (if has_region_code(name, "MIA"@) {
        Some("美国"@)
    } else {
        code_region(name, 18)
    }));
    assert(code_region(name, 18) == (if has_region_code(name, "IAD"@) {
        Some("美国"@)
    } else {
        code_region(name, 19)
    }));
    assert(code_region(name, 19) == (if has_region_code(name, "NYC"@) {
        Some("美国"@)
    } else {
        code_region(name, 20)
    }));
}

proof fn lemma_codes_britain(name: Seq<char>)
    ensures
        code_region(name, 20) == (if codes_britain(name) {
            Some("英国"@)
        } else {
            code_region(name, 23)
        }),
{
    assert(code_region(name, 20) == (if has_region_code(name, "GB"@) {
        Some("英国"@)
    } else {
        code_region(name, 21)
    }));
    assert(code_region(name, 21) == (if has_region_code(name, "UK"@) {
        Some("英国"@)
    } else {
        code_region(name, 22)
    }));
    assert(code_region(name, 22) == (if has_region_code(name, "LON"@) {
        Some("英国"@)
    } else {
        code_region(name, 23)
    }));
}

proof fn lemma_codes_germany(name: Seq<char>)
    ensures
        code_region(name, 23) == (if codes_germany(name) {
            Some("德国"@)
        } else {
            code_region(name, 25)
        }),
{
    assert(code_region(name, 23) == (if has_region_code(name, "DE"@) {
        Some("德国"@)
    } else {
        code_region(name, 24)
    }));
    assert(code_region(name, 24) == (if has_region_code(name, "FRA"@) {
        Some("德国"@)
    } else {
        code_region(name, 25)
    }));
}

proof fn lemma_codes_france(name: Seq<char>)
    ensures
        code_region(name, 25) == (if codes_france(name) {
            Some("法国"@)
        } else {
            code_region(name, 27)
        }),
{
    assert(code_region(name, 25) == (if has_region_code(name, "FR"@) {
        Some("法国"@)
    } else {
        code_region(name, 26)
    }));
    assert(code_region(name, 26) == (if has_region_code(name, "PAR"@) {
        Some("法国"@)
    } else {
        code_region(name, 27)
    }));
}

proof fn lemma_codes_netherlands(name: Seq<char>)
    ensures
        code_region(name, 27) == (if codes_netherlands(name) {
            Some("荷兰"@)
        } else {
            code_region(name, 29)
        }),
{
    assert(code_region(name, 27) == (if has_region_code(name, "NL"@) {
        Some("荷兰"@)
    } else {
        code_region(name, 28)
    }));
    assert(code_region(name, 28) == (if has_region_code(name, "AMS"@) {
        Some("荷兰"@)
    } else {
        code_region(name, 29)
    }));
}

proof fn lemma_codes_canada(name: Seq<char>)
    ensures
        code_region(name, 29) == (if codes_canada(name) {
            Some("加拿大"@)
        } else {
            code_region(name, 32)
        }),
{
    assert(code_region(name, 29) == (if has_region_code(name, "CA"@) {
        Some("加拿大"@)
    } else {
        code_region(name, 30)
    }));
    assert(code_region(name, 30) == (if has_region_code(name, "YVR"@) {
        Some("加拿大"@)
    } else {
        code_region(name, 31)
    }));
    assert(code_region(name, 31) == (if has_region_code(name, "YYZ"@) {
        Some("加拿大"@)
    } else {
        code_region(name, 32)
    }));
}

proof fn lemma_codes_australia(name: Seq<char>)
    ensures
        code_region(name, 32) == (if codes_australia(name) {
            Some("澳大利亚"@)
        } else {
            code_region(name, 35)
        }),
{
    assert(code_region(name, 32) == (if has_region_code(name, "AU"@) {
        Some("澳大利亚"@)
    } else {
        code_region(name, 33)
    }));
    assert(code_region(name, 33) == (if has_region_code(name, "SYD"@) {
        Some("澳大利亚"@)
    } else {
        code_region(name, 34)
    }));
    assert(code_region(name, 34) == (if has_region_code(name, "MEL"@) {
        Some("澳大利亚"@)
    } else {
        code_region(name, 35)
    }));
}

proof fn lemma_codes_russia(name: Seq<char>)
    ensures
        code_region(name, 35) == (if codes_russia(name) {
            Some("俄罗斯"@)
        } else {
            code_region(name, 36)
        }),
{
    assert(code_region(name, 35) == (if has_region_code(name, "RU"@) {
        Some("俄罗斯"@)
    } else {
        code_region(name, 36)
    }));
}

proof fn lemma_codes_india(name: Seq<char>)
    ensures
        code_region(name, 36) == (if codes_india(name) {
            Some("印度"@)
        } else {
            code_region(name, 37)
        }),
{
    assert(code_region(name, 36) == (if has_region_code(name, "IN"@) {
        Some("印度"@)
    } else {
        code_region(name, 37)
    }));
}

proof fn lemma_codes_turkey(name: Seq<char>)
    ensures
        code_region(name, 37) == (if codes_turkey(name) {
            Some("土耳其"@)
        } else {
            code_region(name, 38)
        }),
{
    assert(code_region(name, 37) == (if has_region_code(name, "TR"@) {
        Some("土耳其"@)
    } else {
        code_region(name, 38)
    }));
}

proof fn lemma_codes_argentina(name: Seq<char>)
    ensures
        code_region(name, 38) == (if codes_argentina(name) {
            Some("阿根廷"@)
        } else {
            code_region(name, 39)
        }),
{
    assert(code_region(name, 38) == (if has_region_code(name, "AR"@) {
        Some("阿根廷"@)
    } else {
        code_region(name, 39)
    }));
}

proof fn lemma_codes_brazil(name: Seq<char>)
    ensures
        code_region(name, 39) == (if codes_brazil(name) {
            Some("巴西"@)
        } else {
            code_region(name, 40)
        }),
{
    assert(code_region(name, 39) == (if has_region_code(name, "BR"@) {
        Some("巴西"@)
    } else {
        code_region(name, 40)
    }));
}

proof fn lemma_codes_philippines(name: Seq<char>)
    ensures
        code_region(name, 40) == (if codes_philippines(name) {
            Some("菲律宾"@)
        } else {
            code_region(name, 41)
        }),
{
    assert(code_region(name, 40) == (if has_region_code(name, "PH"@) {
        Some("菲律宾"@)
    } else {
        code_region(name, 41)
    }));
}

proof fn lemma_codes_thailand(name: Seq<char>)
    ensures
        code_region(name, 41) == (if codes_thailand(name) {
            Some("泰国"@)
        } else {
            code_region(name, 42)
        }),
{
    assert(code_region(name, 41) == (if has_region_code(name, "TH"@) {
        Some("泰国"@)
    } else {
        code_region(name, 42)
    }));
}

proof fn lemma_codes_malaysia(name: Seq<char>)
    ensures
        code_region(name, 42) == (if codes_malaysia(name) {
            Some("马来西亚"@)
        } else {
            code_region(name, 43)
        }),
{
    assert(code_region(name, 42) == (if has_region_code(name, "MY"@) {
        Some("马来西亚"@)
    } else {
        code_region(name, 43)
    }));
}

proof fn lemma_codes_vietnam(name: Seq<char>)
    ensures
        code_region(name, 43) == (if codes_vietnam(name) {
            Some("越南"@)
        } else {
            code_region(name, 44)
        }),
{
    assert(code_region(name, 43) == (if has_region_code(name, "VN"@) {
        Some("越南"@)
    } else {
        code_region(name, 44)
    }));
}

proof fn lemma_codes_indonesia(name: Seq<char>)
    ensures
        code_region(name, 44) == (if codes_indonesia(name) {
            Some("印尼"@)
        } else {
            code_region(name, 45)
        }),
{
    assert(code_region(name, 44) == (if has_region_code(name, "ID"@) {
        Some("印尼"@)
    } else {
        code_region(name, 45)
    }));
}

} // verus!
