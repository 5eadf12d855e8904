use regex::{Regex, RegexBuilder};
use yakuna::{normalize, requires_reply};

const NOISE: &str = r"[​-‍﻿ㅤ\s]|(<br\s*/?>\s*)+|(</?p>\s*)+";
const TRIGGERS: &str = r"[あアｱ][ひヒﾋ][るルﾙ][やヤﾔ焼][きキｷ]|家鴨|ahiruyaki|扒家鸭|3v\.7g";

const PIECES: [&str; 52] = [
    "あ", "ア", "ｱ", "ひ", "ヒ", "ﾋ", "る", "ル", "ﾙ", "や", "ﾔ", "焼", "き", "キ", "ｷ", "家", "鴨",
    "扒", "鸭", "3", "v", "V", ".", "7", "g", "G", "a", "A", "h", "i", "r", "u", "y", "k", "K",
    "\u{212A}", "<", "b", "/", "p", ">", " ", "\u{3000}", "\u{3164}", "\u{200B}", "\u{FEFF}",
    "\n", "<br>", "<p>", "</p>", "<br />", "ahiruyaki",
];

fn corpus() -> Vec<String> {
    let mut seed: u64 = 0x2545F4914F6CDD1D;
    let mut out = Vec::new();
    for _ in 0..20000 {
        seed = seed.wrapping_mul(6364136223846793005).wrapping_add(1442695040888963407);
        let len = (seed >> 59) as usize;
        let mut s = String::new();
        for _ in 0..len {
            seed = seed.wrapping_mul(6364136223846793005).wrapping_add(1442695040888963407);
            s.push_str(PIECES[((seed >> 33) as usize) % PIECES.len()]);
        }
        out.push(s);
    }
    out
}

fn delete_until_stable(re: &Regex, s: &str) -> String {
    let mut cur = s.to_string();
    loop {
        let next = re.replace_all(&cur, "").into_owned();
        if next == cur {
            return cur;
        }
        cur = next;
    }
}

#[test]
fn normalize_agrees_with_noise_regex() {
    let re = Regex::new(NOISE).unwrap();
    for s in corpus() {
        assert_eq!(normalize(&s), delete_until_stable(&re, &s), "{:?}", s);
    }
}

#[test]
fn requires_reply_agrees_with_trigger_regex() {
    let noise = Regex::new(NOISE).unwrap();
    let triggers = RegexBuilder::new(TRIGGERS).case_insensitive(true).build().unwrap();
    for s in corpus() {
        let expected = triggers.is_match(&delete_until_stable(&noise, &s));
        assert_eq!(requires_reply(&s), expected, "{:?}", s);
    }
}
