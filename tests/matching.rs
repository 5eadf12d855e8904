use yakuna::{normalize, requires_reply};

#[test]
fn should_burn() {
    let test_cases: [&str; 11] = [
        "あひる焼き",
        "家鴨焼き",
        "あひるやき",
        "ahiruyaki",
        "扒家鸭",
        "3v.7g",
        "あひル焼ｷ",
        "アﾋるやキ",
        "家鴨やｷ",
        "AhiRuYaki",
        "あㅤひる焼き",
    ];

    for case in test_cases.iter() {
        assert!(requires_reply(case));
    }
}

#[test]
fn should_remove_space() {
    let test_cases = "あㅤひる焼き";

    let replaced = normalize(test_cases);
    assert_eq!(replaced, "あひる焼き")
}

#[test]
fn should_remove_new_line_and_burn() {
    let test_cases: [&str; 2] = [
        "日直<br> あ<br> ひ<br> る<br> 焼<br>　き",
        "<p>日直</p><p>あ</p><p>ひ</p><p>る</p><p>焼き</p>",
    ];
    let expected = "日直あひる焼き";

    for case in test_cases.iter() {
        let replaced = normalize(case);
        assert_eq!(&replaced, expected);
        assert!(requires_reply(&replaced));
    }
}

#[test]
fn should_not_burn() {
    let test_cases: [&str; 2] = ["ahiru焼き", "焼きあひる"];

    for case in test_cases.iter() {
        assert!(!requires_reply(case));
    }
}

#[test]
fn every_script_mix_matches() {
    let a = ["あ", "ア", "ｱ"];
    let hi = ["ひ", "ヒ", "ﾋ"];
    let ru = ["る", "ル", "ﾙ"];
    let ya = ["や", "ヤ", "ﾔ", "焼"];
    let ki = ["き", "キ", "ｷ"];
    let mut n = 0;
    for x in a.iter() {
        for y in hi.iter() {
            for z in ru.iter() {
                for s in ya.iter() {
                    for k in ki.iter() {
                        let text = format!("{}{}{}{}{}", x, y, z, s, k);
                        assert!(requires_reply(&text), "{}", text);
                        n += 1;
                    }
                }
            }
        }
    }
    assert_eq!(n, 324);
}

#[test]
fn syllables_out_of_order_do_not_match() {
    assert!(!requires_reply("ひあるやき"));
    assert!(!requires_reply("あひるき"));
    assert!(!requires_reply("あひる焼"));
    assert!(!requires_reply("あひる"));
}

#[test]
fn romaji_ignores_case() {
    assert!(requires_reply("AhiRuYaki"));
    assert!(requires_reply("AHIRUYAKI"));
    assert!(requires_reply("ahiruyaki"));
    assert!(requires_reply("ahiruya\u{212A}i"));
    assert!(requires_reply("I like ahiruYAKI a lot"));
    assert!(requires_reply("ahiru yak i!"));
    assert!(!requires_reply("ahiru-yaki"));
    assert!(!requires_reply("ahiruyak"));
}

#[test]
fn romaji_split_by_markup_matches() {
    assert!(requires_reply("ahiru<br />yaki"));
    assert!(requires_reply("ahi</p><p>ruyaki"));
}

#[test]
fn fixed_spellings_match_on_their_own() {
    assert!(requires_reply("3v.7g"));
    assert!(requires_reply("3V.7G"));
    assert!(requires_reply("家鴨"));
    assert!(requires_reply("扒家鸭"));
    assert!(requires_reply("今日は扒家鸭を食べた"));
}

#[test]
fn near_misses_of_fixed_spellings_do_not_match() {
    assert!(!requires_reply("3v,7g"));
    assert!(!requires_reply("3v7g"));
    assert!(!requires_reply("家"));
    assert!(!requires_reply("扒家"));
    assert!(!requires_reply("焼き鳥"));
}

#[test]
fn empty_and_noise_only_texts() {
    assert_eq!(normalize(""), "");
    assert!(!requires_reply(""));
    assert_eq!(normalize(" \t\n\u{3000}\u{3164}\u{200B}\u{200C}\u{200D}\u{FEFF}<br><p></p>"), "");
    assert!(!requires_reply("   "));
}

#[test]
fn clean_text_is_unchanged() {
    assert_eq!(normalize("日直あひる焼き"), "日直あひる焼き");
    assert_eq!(normalize("abc<def>"), "abc<def>");
}

#[test]
fn line_break_tag_forms() {
    assert_eq!(normalize("a<br>b"), "ab");
    assert_eq!(normalize("a<br/>b"), "ab");
    assert_eq!(normalize("a<br />b"), "ab");
    assert_eq!(normalize("a<br\t\t/>b"), "ab");
    assert_eq!(normalize("a<br><br>\n<br/>b"), "ab");
    assert_eq!(normalize("a<BR>b"), "a<BR>b");
    assert_eq!(normalize("a<br/ >b"), "ab");
    assert_eq!(normalize("a<bra>b"), "a<bra>b");
}

#[test]
fn paragraph_tag_forms() {
    assert_eq!(normalize("<p>a</p>"), "a");
    assert_eq!(normalize("</p>  <p>a"), "a");
    assert_eq!(normalize("<P>a"), "<P>a");
    assert_eq!(normalize("<pre>a"), "<pre>a");
}

#[test]
fn markup_runs_are_deleted_not_replaced() {
    assert_eq!(normalize("日直<br> あ<br> ひ<br> る<br> 焼<br>　き"), "日直あひる焼き");
    assert_eq!(normalize("<p>日直</p><p>あ</p><p>ひ</p><p>る</p><p>焼き</p>"), "日直あひる焼き");
    assert!(requires_reply("日直<br> あ<br> ひ<br> る<br> 焼<br>　き"));
    assert!(requires_reply("<p>日直</p><p>あ</p><p>ひ</p><p>る</p><p>焼き</p>"));
}

#[test]
fn normalizing_twice_changes_nothing() {
    let cases = [
        "日直<br> あ<br> ひ<br> る<br> 焼<br>　き",
        "<p>x</p> y \u{3164}z",
        "plain",
        "<b r>",
        "<<b r>b r>",
        "",
    ];
    for case in cases.iter() {
        let once = normalize(case);
        assert_eq!(normalize(&once), once);
    }
}

#[test]
fn tag_joined_by_deleting_noise_is_deleted_too() {
    assert_eq!(normalize("<b r>"), "");
    assert_eq!(normalize("<\u{3164}p>x</ p>"), "x");
    assert_eq!(normalize("扒家<b r>鸭"), "扒家鸭");
    assert!(requires_reply("扒家<b r>鸭"));
    assert!(requires_reply("扒家<br>鸭"));
    assert_eq!(normalize("<<b r>br>"), "");
}

#[test]
fn filler_inserted_anywhere_still_matches() {
    let phrase: Vec<char> = "あひる焼き".chars().collect();
    let fillers = ['\u{3164}', '\u{200B}', '\u{200C}', '\u{200D}', '\u{FEFF}', ' ', '\u{3000}', '\n'];
    for f in fillers.iter() {
        for k in 0..=phrase.len() {
            let mut text = phrase.clone();
            text.insert(k, *f);
            let s: String = text.into_iter().collect();
            assert_eq!(normalize(&s), "あひる焼き");
            assert!(requires_reply(&s));
        }
    }
}

#[test]
fn phrase_matches_inside_any_text() {
    assert!(requires_reply("今日は<br>ｱﾋるやキを食べた"));
    assert!(requires_reply("<b r>あひる焼き<p"));
    assert!(requires_reply("x<brあひる焼き>"));
    assert!(requires_reply("なにAHIRUyakiなに"));
}

#[test]
fn noise_inside_phrase_in_context() {
    assert!(requires_reply("前置き あ\u{200B}ひ\u{3164}る\u{3000}焼 き 後"));
    assert!(requires_reply("<br/>a h i r u y a k i</p>"));
    assert_eq!(normalize("x<br\u{3164}>あ\u{FEFF}ひる焼き"), "xあひる焼き");
}

#[test]
fn markup_runs_join_any_number_of_fragments() {
    assert_eq!(normalize("あ<br>\n<p> ひ</p><br />る<br/>焼<p>き"), "あひる焼き");
    assert_eq!(normalize("a</p>  <p>b<br>c"), "abc");
}
