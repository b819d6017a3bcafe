use shorten_url::shorten;
use shorten_url::split::split_url;
use shorten_url::text::find_char_start;
use std::borrow::Cow;

const ALPHABET: [char; 6] = ['a', '/', '?', '&', ':', '…'];

fn texts_of(chars: usize) -> Vec<String> {
    let mut texts = vec![String::new()];
    for _ in 0..chars {
        let mut longer = Vec::new();
        for text in &texts {
            for c in ALPHABET {
                let mut next = text.clone();
                next.push(c);
                longer.push(next);
            }
        }
        texts = longer;
    }
    texts
}

fn is_cut_off(input: &str, max_len: usize) -> bool {
    split_url(input).path.is_empty() && input.len() > max_len
}

fn cut_keeps_structure(input: &str, max_len: usize) -> bool {
    if !is_cut_off(input, max_len) {
        return true;
    }
    let cut = find_char_start(input, max_len.saturating_sub(1));
    cut >= split_url(input).scheme.len() || !input[..cut].contains('/')
}

fn is_subsequence(part: &str, whole: &str) -> bool {
    let mut rest = whole.chars();
    part.chars().all(|c| rest.any(|d| d == c))
}

fn check_laws(input: &str, max_len: usize) {
    let out = shorten(input, max_len);
    if input.len() < max_len {
        assert!(matches!(out, Cow::Borrowed(_)), "{input:?} {max_len}");
    }
    if matches!(out, Cow::Borrowed(_)) {
        assert_eq!(out, input);
    }
    if cut_keeps_structure(input, max_len) {
        let again = shorten(&out, max_len);
        assert_eq!(again, out, "{input:?} {max_len}");
    }
    if out != input {
        assert!(out.contains('…'), "{input:?} {max_len}");
    }
    if !input.contains('…') {
        let markers = out.matches('…').count();
        match out {
            Cow::Borrowed(_) => assert_eq!(markers, 0),
            Cow::Owned(_) => assert!(markers == 1 || markers == 2, "{input:?} {max_len}"),
        }
        if markers == 2 {
            assert!(out.contains("/…") && out.ends_with('…'), "{input:?} {max_len}");
        }
        if is_cut_off(input, max_len) {
            assert!(markers == 1 && out.ends_with('…'), "{input:?} {max_len}");
        }
        assert!(is_subsequence(&out.replace('…', ""), input), "{input:?} {max_len}");
        assert!(out.len() <= input.len() + 4 * markers);
    }
}

#[test]
fn laws_hold_of_all_short_texts() {
    for chars in 0..=5 {
        for text in texts_of(chars) {
            for max_len in 0..=14 {
                check_laws(&text, max_len);
            }
        }
    }
}

#[test]
fn laws_hold_of_all_texts_of_six_characters() {
    for text in texts_of(6) {
        for max_len in [0, 1, 3, 4, 5, 6, 7, 9, 11, 13] {
            check_laws(&text, max_len);
        }
    }
}

#[test]
fn laws_hold_of_urls_at_every_budget() {
    let urls = [
        "https://www.vpro.nl/programmas/gliphoeve/documentaire-intro.html",
        "https://discordapp.com/channels/317475976369930241/317475976369930241",
        "http://example.com/ultra/cool/page/that-is-really-deeply/nested/",
        "http://www.blahblah.com/unpragmatic-thoughts/?p=1738",
        "https://www.reddit.com/?count=25&after=t3_76zjp1",
        "https://www.thisisasuperlonghostname.co.uk",
        "http://a.com/aaaaaaaa/bbbbbbbb/cccccccc?x=1&y=2&z=3",
        "http://ü.de/straße/größe/maß?ä=ö&ü=ß",
        "//a//b//c//?&&&",
        "mailto:someone@example.com?subject=a&body=b",
    ];
    for url in urls {
        for max_len in 0..=url.len() + 2 {
            check_laws(url, max_len);
        }
    }
}

#[test]
fn cut_within_a_scheme_that_holds_a_slash_gives_a_path() {
    let input = "aaaaaaaaaa/bbbbbbbbbbbbbbbbbbbbbbbb://ccc";
    assert!(!cut_keeps_structure(input, 20));
    let once = shorten(input, 20);
    assert_eq!(once, "aaaaaaaaaa/bbbbbbbb…");
    let twice = shorten(&once, 20);
    assert_eq!(twice, "aaaaaaaaaa/…");
    assert_eq!(shorten(&twice, 20), twice);
}

#[test]
fn reduced_path_that_keeps_only_the_marker_stays() {
    let once = shorten("https://discordapp.com/channels/317475976369930241", 25);
    assert_eq!(once, "https://discordapp.com/…");
    assert_eq!(once.len(), 26);
    assert_eq!(shorten(&once, 25), once);
}

#[test]
fn what_survives_keeps_its_order() {
    let out = shorten("http://a.com/1/2/3/4/5/6/7/8/9?a&b&c&d", 29);
    assert_eq!(out, "http://a.com/1/2/…/6/7/8/9?…");
    let out = shorten("http://a.com/1/2/3/4/5/6/7/8/9?a&b&c&d", 27);
    assert_eq!(out, "http://a.com/1/2/…/7/8/9?…");
    let out = shorten("http://a.com/1/2/3/4/5/6/7/8/9?a&b&c&d", 25);
    assert_eq!(out, "http://a.com/1/…/7/8/9?…");
    let out = shorten("http://a.com/1/2/3/4/5/6/7/8/9?a&b&c&d", 12);
    assert_eq!(out, "http://a.com/…?…");
}

#[test]
fn fuzzed_pairs_are_accepted() {
    let data: [(String, u8); 6] = [
        (String::from("::::/::::::::::::2::::::::::::::::?:ƽ:%%*"), 37),
        (String::from("\u{0}\u{6}ƽ"), 0),
        (String::from("?&?&/://"), 3),
        (String::from("😀😀😀😀😀😀😀😀"), 255),
        (String::from("😀/😀/😀/😀?😀&😀&😀"), 17),
        (String::new(), 0),
    ];
    for (text, max_len) in data {
        check_laws(&text, max_len as usize);
    }
}
