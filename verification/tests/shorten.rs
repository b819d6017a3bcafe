use shorten_url::shorten;
use std::borrow::Cow;

#[test]
fn shortens_paths() {
    assert_eq!(
        shorten(
            "https://www.vpro.nl/programmas/gliphoeve/documentaire-intro.html",
            50
        ),
        "https://www.vpro.nl/…/documentaire-intro.html"
    );
    assert_eq!(
        shorten(
            "https://discordapp.com/channels/317475976369930241/317475976369930241",
            25
        ),
        "https://discordapp.com/…"
    );
    assert_eq!(
        shorten(
            "http://example.com/ultra/cool/page/that-is-really-deeply/nested/",
            30
        ),
        "http://example.com/…/nested/"
    );
}

#[test]
fn shortens_queries() {
    assert_eq!(
        shorten("http://www.blahblah.com/unpragmatic-thoughts/?p=1738", 50),
        "http://www.blahblah.com/unpragmatic-thoughts/?…"
    );
    assert_eq!(
        shorten("https://www.reddit.com/?count=25&after=t3_76zjp1", 40),
        "https://www.reddit.com/?count=25&…"
    );
}

#[test]
fn shortens_hosts() {
    assert!(matches!(
        shorten("https://www.thisisasuperlonghostname.co.uk", 35),
        Cow::Owned(_)
    ));
    assert_eq!(
        shorten("https://www.thisisasuperlonghostname.co.uk", 35),
        "https://www.thisisasuperlonghostna…"
    );
}

#[test]
fn fuzz_char_boundary() {
    shorten("::::::::::::::::::::::::::::::::::::::::::::::::::::::::ƽ:::::::::::::::!:::::::::::::::::::::::::::::::::::::::::::::::::::::\u{0}:\u{6}::::::::::::", 58);
    shorten("::::/::::::::::::2::::::::::::::::?:ƽ:%%*", 37);
}

#[test]
fn input_below_the_budget_is_borrowed() {
    let input = "https://www.vpro.nl/programmas/gliphoeve/documentaire-intro.html";
    let out = shorten(input, 65);
    assert!(matches!(out, Cow::Borrowed(_)));
    assert_eq!(out, input);
    let out = shorten(input, usize::MAX);
    assert!(matches!(out, Cow::Borrowed(_)));
    assert_eq!(out, input);
    let out = shorten("", 1);
    assert!(matches!(out, Cow::Borrowed(_)));
    assert_eq!(out, "");
}

#[test]
fn input_that_meets_the_budget_exactly_is_borrowed() {
    let input = "http://example.com/a";
    assert_eq!(input.len(), 20);
    let out = shorten(input, 20);
    assert!(matches!(out, Cow::Borrowed(_)));
    assert_eq!(out, input);
    let out = shorten("", 0);
    assert!(matches!(out, Cow::Borrowed(_)));
    assert_eq!(out, "");
}

#[test]
fn marker_stands_where_the_segments_were() {
    assert_eq!(
        shorten("http://a.com/one/two/three/four/five", 30),
        "http://a.com/one/…/four/five"
    );
    assert_eq!(
        shorten("http://a.com/one/two/three/four/five", 29),
        "http://a.com/…/four/five"
    );
    assert_eq!(
        shorten("http://a.com/one/two/three/four/five", 21),
        "http://a.com/…/five"
    );
    assert_eq!(
        shorten("http://a.com/one/two/three/four/five", 20),
        "http://a.com/…"
    );
}

#[test]
fn path_and_query_are_both_shortened() {
    assert_eq!(
        shorten("http://a.com/aaaaaaaa/bbbbbbbb/cccccccc?x=1&y=2&z=3", 35),
        "http://a.com/…/bbbbbbbb/cccccccc?…"
    );
    assert_eq!(
        shorten("http://a.com/aaaaaaaa/bbbbbbbb/cccccccc?x=1&y=2&z=3", 43),
        "http://a.com/aaaaaaaa/bbbbbbbb/cccccccc?…"
    );
    assert_eq!(
        shorten("http://a.com/aaaaaaaaaaaaaaaa/b?x=1&y=2&z=3", 30),
        "http://a.com/…/b?x=1&y=2&z=3"
    );
    assert_eq!(
        shorten("http://a.com/aaaaaaaaaaaaaaaa/b?x=1&y=2&z=3", 29),
        "http://a.com/…/b?x=1&y=2&…"
    );
}

#[test]
fn query_is_cut_after_the_last_ampersand_that_fits() {
    assert_eq!(
        shorten("https://example.com/?a=1&b=2", 25),
        "https://example.com/?a=1&…"
    );
    assert_eq!(
        shorten("https://example.com/?a=1&b=2", 24),
        "https://example.com/?…"
    );
    assert_eq!(
        shorten("https://example.com/?a=1&b=2", 0),
        "https://example.com/…?…"
    );
}

#[test]
fn text_without_structure_is_cut_off() {
    let out = shorten("abcdefghij", 5);
    assert!(matches!(out, Cow::Owned(_)));
    assert_eq!(out, "abcd…");
    assert_eq!(shorten("abc", 0), "…");
    assert_eq!(shorten("abc", 1), "…");
    assert_eq!(shorten("abc", 2), "a…");
    assert_eq!(shorten("://abc", 3), ":/…");
}

#[test]
fn cut_off_never_splits_a_character() {
    assert_eq!(shorten("ƽƽƽƽƽ", 4), "ƽ…");
    assert_eq!(shorten("ƽƽƽƽƽ", 5), "ƽƽ…");
    assert_eq!(shorten("ƽƽƽƽƽ", 2), "…");
    assert_eq!(shorten("a€€€", 4), "a…");
    assert_eq!(shorten("a€€€", 5), "a€…");
    assert_eq!(shorten("😀😀😀", 4), "…");
    assert_eq!(shorten("😀😀😀", 5), "😀…");
    assert_eq!(shorten("😀😀😀", 8), "😀…");
}

#[test]
fn multi_byte_segments_are_kept_whole() {
    assert_eq!(
        shorten("http://ü.de/straße/größe/maß?ä=ö&ü=ß", 28),
        "http://ü.de/…/maß?ä=ö&…"
    );
}

#[test]
fn shortening_twice_changes_nothing_more() {
    let cases: [(&str, usize); 9] = [
        ("https://www.vpro.nl/programmas/gliphoeve/documentaire-intro.html", 50),
        ("https://discordapp.com/channels/317475976369930241/317475976369930241", 25),
        ("http://example.com/ultra/cool/page/that-is-really-deeply/nested/", 30),
        ("http://www.blahblah.com/unpragmatic-thoughts/?p=1738", 50),
        ("https://www.reddit.com/?count=25&after=t3_76zjp1", 40),
        ("https://www.thisisasuperlonghostname.co.uk", 35),
        ("http://a.com/aaaaaaaa/bbbbbbbb/cccccccc?x=1&y=2&z=3", 35),
        ("ƽƽƽƽƽ", 4),
        ("abc", 0),
    ];
    for (input, max_len) in cases {
        let once = shorten(input, max_len).into_owned();
        let twice = shorten(&once, max_len).into_owned();
        assert_eq!(once, twice);
    }
}

#[test]
fn changed_output_holds_the_marker() {
    let out = shorten("https://www.vpro.nl/programmas/gliphoeve/documentaire-intro.html", 50);
    assert_eq!(out.matches('…').count(), 1);
    assert!(out.len() <= 64);
    let out = shorten("https://www.thisisasuperlonghostname.co.uk", 35);
    assert_eq!(out.matches('…').count(), 1);
    assert!(out.ends_with('…'));
    assert!(out.len() <= 42);
    let out = shorten("http://a.com/aaaaaaaa/bbbbbbbb/cccccccc?x=1&y=2&z=3", 35);
    assert_eq!(out.matches('…').count(), 2);
}

#[test]
fn output_may_grow_where_little_is_taken_out() {
    assert_eq!(shorten("http://a.com/b", 5), "http://a.com/…");
    assert_eq!(shorten("abcdef", 5), "abcd…");
}

#[test]
fn arbitrary_text_and_small_budgets_are_accepted() {
    let texts = [
        "",
        "/",
        "?",
        "&",
        "://",
        ":///?&",
        "//////",
        "a/b://c/d?e&f",
        "?/?/?/",
        "\u{0}\u{6}",
        "…/…/…?…&…",
        "ƽ/ƽ/ƽ?ƽ&ƽ",
        "😀://😀/😀?😀&😀",
    ];
    for text in texts {
        for max_len in 0..=(u8::MAX as usize) {
            let out = shorten(text, max_len);
            if text.len() < max_len {
                assert!(matches!(out, Cow::Borrowed(_)));
                assert_eq!(out, text);
            }
            if out != text {
                assert!(out.contains('…'));
            }
        }
    }
}
