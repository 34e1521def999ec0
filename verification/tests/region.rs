use subwash::region::detect_region;
use subwash::region::name_has_region_code;
use subwash::region::region_in_text;

#[test]
fn detect_region_common_names() {
    assert_eq!(detect_region("香港 IEPL 01"), "香港");
    assert_eq!(detect_region("JP-Tokyo-01"), "日本");
    assert_eq!(detect_region("美国洛杉矶"), "美国");
    assert_eq!(detect_region("US-LAX-2"), "美国");
    assert_eq!(detect_region("新加坡 BGP"), "新加坡");
    assert_eq!(detect_region("套餐剩余"), "其他");
}

#[test]
fn every_phrase_names_its_region() {
    let phrases: Vec<(&str, &str)> = vec![
        ("hong kong", "香港"),
        ("hongkong", "香港"),
        ("澳門", "澳门"),
        ("macao", "澳门"),
        ("臺灣", "台湾"),
        ("taipei", "台湾"),
        ("獅城", "新加坡"),
        ("名古屋", "日本"),
        ("osaka", "日本"),
        ("首爾", "韩国"),
        ("seoul", "韩国"),
        ("united states", "美国"),
        ("las vegas", "美国"),
        ("britain", "英国"),
        ("berlin", "德国"),
        ("paris", "法国"),
        ("荷蘭", "荷兰"),
        ("montreal", "加拿大"),
        ("澳洲", "澳大利亚"),
        ("moscow", "俄罗斯"),
        ("mumbai", "印度"),
        ("istanbul", "土耳其"),
        ("buenos", "阿根廷"),
        ("sao paulo", "巴西"),
        ("manila", "菲律宾"),
        ("bangkok", "泰国"),
        ("kuala", "马来西亚"),
        ("saigon", "越南"),
        ("jakarta", "印尼"),
        ("lagos", "尼日利亚"),
        ("迪拜", "阿联酋"),
        ("uae", "阿联酋"),
    ];
    for (phrase, region) in phrases {
        assert_eq!(detect_region(phrase), region);
        assert_eq!(detect_region(&format!("x{}y 1", phrase.to_uppercase())), region);
    }
}

#[test]
fn every_code_names_its_region() {
    let codes: Vec<(&str, &str)> = vec![
        ("HK", "香港"),
        ("MO", "澳门"),
        ("TW", "台湾"),
        ("SG", "新加坡"),
        ("TYO", "日本"),
        ("OSA", "日本"),
        ("ICN", "韩国"),
        ("NYC", "美国"),
        ("UK", "英国"),
        ("LON", "英国"),
        ("DE", "德国"),
        ("FRA", "德国"),
        ("PAR", "法国"),
        ("AMS", "荷兰"),
        ("YYZ", "加拿大"),
        ("MEL", "澳大利亚"),
        ("RU", "俄罗斯"),
        ("IN", "印度"),
        ("TR", "土耳其"),
        ("AR", "阿根廷"),
        ("BR", "巴西"),
        ("PH", "菲律宾"),
        ("TH", "泰国"),
        ("MY", "马来西亚"),
        ("VN", "越南"),
        ("ID", "印尼"),
    ];
    for (code, region) in codes {
        assert_eq!(detect_region(&format!("a1 [{}] 2", code)), region);
        assert_eq!(detect_region(&format!("{}|x", code.to_lowercase())), region);
    }
}

#[test]
fn phrases_come_before_codes() {
    assert_eq!(detect_region("US relay Tokyo"), "日本");
    assert_eq!(detect_region("美国 HK"), "美国");
    assert_eq!(detect_region("SG to 香港"), "香港");
}

#[test]
fn earlier_rules_come_first() {
    assert_eq!(detect_region("日本 香港"), "香港");
    assert_eq!(detect_region("JP HK"), "香港");
}

#[test]
fn codes_are_whole_words() {
    assert!(name_has_region_code("a-us-1", "US"));
    assert!(name_has_region_code("us", "Us"));
    assert!(name_has_region_code("线us路", "US"));
    assert!(!name_has_region_code("plus", "US"));
    assert!(!name_has_region_code("us1", "US"));
    assert!(!name_has_region_code("", "US"));
    assert!(!name_has_region_code("--", ""));
    assert_eq!(detect_region("Bus Plus us2"), "其他");
}

#[test]
fn capitals_fold_through_the_whole_alphabet() {
    // The Kelvin sign lowers to an ordinary k.
    assert_eq!(detect_region("HONG \u{212A}ONG"), "香港");
    assert_eq!(detect_region("TOKYO"), "日本");
}

#[test]
fn small_letters_are_taken_as_given() {
    assert_eq!(region_in_text("ABC", "xx tokyo"), "日本");
    assert_eq!(region_in_text("TOKYO", "TOKYO"), "其他");
    assert_eq!(region_in_text("东京", ""), "日本");
    assert_eq!(region_in_text("US", "us"), "美国");
}

#[test]
fn no_name_has_no_region() {
    assert_eq!(detect_region(""), "其他");
}
