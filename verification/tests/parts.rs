use shorten_url::path::{shorten_path, split_path, MARKER_LEN};
use shorten_url::query::truncate_query;
use shorten_url::split::split_url;
use shorten_url::text::{byte_len, find_byte, find_char_start, find_separator, slice_str};
use shorten_url::{assemble, truncate};

#[test]
fn splits_a_full_url() {
    let parts = split_url("https://www.reddit.com/r/rust/?count=25&after=t3_76zjp1");
    assert_eq!(parts.scheme, "https://");
    assert_eq!(parts.host, "www.reddit.com");
    assert_eq!(parts.path, "/r/rust/");
    assert_eq!(parts.query, "?count=25&after=t3_76zjp1");
}

#[test]
fn splits_text_without_delimiters() {
    let parts = split_url("no-delimiters");
    assert_eq!(parts.scheme, "");
    assert_eq!(parts.host, "no-delimiters");
    assert_eq!(parts.path, "");
    assert_eq!(parts.query, "");
    let parts = split_url("");
    assert_eq!(parts.scheme, "");
    assert_eq!(parts.host, "");
    assert_eq!(parts.path, "");
    assert_eq!(parts.query, "");
}

#[test]
fn splits_at_the_first_delimiters_only() {
    let parts = split_url("a.com?x=/y?z");
    assert_eq!(parts.scheme, "");
    assert_eq!(parts.host, "a.com?x=");
    assert_eq!(parts.path, "/y");
    assert_eq!(parts.query, "?z");
    let parts = split_url("a/b://c/d");
    assert_eq!(parts.scheme, "a/b://");
    assert_eq!(parts.host, "c");
    assert_eq!(parts.path, "/d");
    assert_eq!(parts.query, "");
    let parts = split_url("x://y://z");
    assert_eq!(parts.scheme, "x://");
    assert_eq!(parts.host, "y:");
    assert_eq!(parts.path, "//z");
    assert_eq!(parts.query, "");
    let parts = split_url("http://host?query");
    assert_eq!(parts.scheme, "http://");
    assert_eq!(parts.host, "host?query");
    assert_eq!(parts.path, "");
    assert_eq!(parts.query, "");
}

#[test]
fn finds_bytes_and_separators() {
    assert_eq!(find_byte(b"a/b/c", b'/', 0), 1);
    assert_eq!(find_byte(b"a/b/c", b'/', 1), 1);
    assert_eq!(find_byte(b"a/b/c", b'/', 2), 3);
    assert_eq!(find_byte(b"a/b/c", b'/', 4), 5);
    assert_eq!(find_byte(b"a/b/c", b'/', 5), 5);
    assert_eq!(find_byte(b"", b'/', 0), 0);
    assert_eq!(find_separator(b"https://x"), 5);
    assert_eq!(find_separator(b"a:/b://c://"), 4);
    assert_eq!(find_separator(b"a:/b:/"), 6);
    assert_eq!(find_separator(b"://"), 0);
    assert_eq!(find_separator(b":/"), 2);
    assert_eq!(find_separator(b""), 0);
}

#[test]
fn finds_the_start_of_a_character() {
    assert_eq!(find_char_start("aƽ€😀", 0), 0);
    assert_eq!(find_char_start("aƽ€😀", 1), 1);
    assert_eq!(find_char_start("aƽ€😀", 2), 1);
    assert_eq!(find_char_start("aƽ€😀", 3), 3);
    assert_eq!(find_char_start("aƽ€😀", 4), 3);
    assert_eq!(find_char_start("aƽ€😀", 5), 3);
    assert_eq!(find_char_start("aƽ€😀", 6), 6);
    assert_eq!(find_char_start("aƽ€😀", 9), 6);
    assert_eq!(find_char_start("aƽ€😀", 10), 10);
    assert_eq!(find_char_start("aƽ€😀", 11), 10);
    assert_eq!(find_char_start("aƽ€😀", usize::MAX), 10);
    assert_eq!(find_char_start("", 3), 0);
}

#[test]
fn slices_by_bytes() {
    assert_eq!(slice_str("aƽ€😀", 1, 6), "ƽ€");
    assert_eq!(slice_str("aƽ€😀", 0, 10), "aƽ€😀");
    assert_eq!(slice_str("aƽ€😀", 3, 3), "");
    assert_eq!(byte_len("aƽ€😀"), 10);
    assert_eq!(byte_len(""), 0);
}

#[test]
fn splits_a_path_into_segments() {
    assert_eq!(split_path(""), Vec::<&str>::new());
    assert_eq!(split_path("/"), vec![""]);
    assert_eq!(split_path("/a"), vec!["a"]);
    assert_eq!(split_path("/a/"), vec!["a", ""]);
    assert_eq!(split_path("//a"), vec!["", "a"]);
    assert_eq!(split_path("/ultra/cool/page/"), vec!["ultra", "cool", "page", ""]);
    assert_eq!(split_path("/straße/größe"), vec!["straße", "größe"]);
}

#[test]
fn path_that_fits_is_not_reduced() {
    assert!(shorten_path("", 0).is_none());
    assert!(shorten_path("/a", 2).is_none());
    assert!(shorten_path("/unpragmatic-thoughts/", 27).is_none());
    assert!(shorten_path("/unpragmatic-thoughts/", 22).is_none());
}

#[test]
fn path_is_reduced_from_the_middle() {
    let reduced = shorten_path("/programmas/gliphoeve/documentaire-intro.html", 31).unwrap();
    assert_eq!(reduced.parts, vec!["documentaire-intro.html"]);
    assert_eq!(reduced.marker, 0);
    assert_eq!(reduced.kept_len, 24);

    let reduced = shorten_path("/one/twotwotwo/three/four/five", 26).unwrap();
    assert_eq!(reduced.parts, vec!["one", "three", "four", "five"]);
    assert_eq!(reduced.marker, 1);
    assert_eq!(reduced.kept_len, 20);

    let reduced = shorten_path("/one/two/three/four/five", 23).unwrap();
    assert_eq!(reduced.parts, vec!["one", "four", "five"]);
    assert_eq!(reduced.marker, 1);
    assert_eq!(reduced.kept_len, 14);

    let reduced = shorten_path("/one/two/three/four/five", 18).unwrap();
    assert_eq!(reduced.parts, vec!["one", "four", "five"]);
    assert_eq!(reduced.marker, 1);
    assert_eq!(reduced.kept_len, 14);

    let reduced = shorten_path("/one/two/three/four/five", 17).unwrap();
    assert_eq!(reduced.parts, vec!["four", "five"]);
    assert_eq!(reduced.marker, 0);
    assert_eq!(reduced.kept_len, 10);
}

#[test]
fn path_can_lose_every_segment() {
    let reduced = shorten_path("/channels/317475976369930241/317475976369930241", 3).unwrap();
    assert!(reduced.parts.is_empty());
    assert_eq!(reduced.marker, 0);
    assert_eq!(reduced.kept_len, 0);
    let reduced = shorten_path("/", 0).unwrap();
    assert!(reduced.parts.is_empty());
    assert_eq!(reduced.marker, 0);
    assert_eq!(reduced.kept_len, 0);
}

#[test]
fn marker_counts_four_bytes() {
    assert_eq!(MARKER_LEN, "/…".len());
    let reduced = shorten_path("/ultra/cool/page/that-is-really-deeply/nested/", 12).unwrap();
    assert_eq!(reduced.parts, vec!["nested", ""]);
    assert_eq!(reduced.kept_len + MARKER_LEN, 12);
    let reduced = shorten_path("/ultra/cool/page/that-is-really-deeply/nested/", 11).unwrap();
    assert_eq!(reduced.parts, vec![""]);
    assert_eq!(reduced.marker, 0);
    assert_eq!(reduced.kept_len, 1);
}

#[test]
fn query_that_fits_is_not_truncated() {
    assert_eq!(truncate_query("", 0), None);
    assert_eq!(truncate_query("?count=25&after=t3_76zjp1", 25), None);
    assert_eq!(truncate_query("?count=25&after=t3_76zjp1", 26), None);
}

#[test]
fn query_is_truncated_after_an_ampersand() {
    assert_eq!(truncate_query("?count=25&after=t3_76zjp1", 24), Some("?count=25&"));
    assert_eq!(truncate_query("?count=25&after=t3_76zjp1", 17), Some("?count=25&"));
    assert_eq!(truncate_query("?count=25&after=t3_76zjp1", 10), Some("?count=25&"));
    assert_eq!(truncate_query("?a=1&b=2&c=3", 11), Some("?a=1&b=2&"));
    assert_eq!(truncate_query("?a=1&b=2&c=3", 9), Some("?a=1&b=2&"));
    assert_eq!(truncate_query("?a=1&b=2&c=3", 8), Some("?a=1&"));
    assert_eq!(truncate_query("?ä=ö&ü=ß", 8), Some("?ä=ö&"));
}

#[test]
fn query_without_an_ampersand_in_reach_keeps_its_first_byte() {
    assert_eq!(truncate_query("?count=25&after=t3_76zjp1", 9), Some("?"));
    assert_eq!(truncate_query("?p=1738", 5), Some("?"));
    assert_eq!(truncate_query("?p=1738", 0), Some("?"));
    assert_eq!(truncate_query("?", 0), Some("?"));
}

#[test]
fn truncates_at_a_character_boundary() {
    assert_eq!(truncate("https://www.thisisasuperlonghostname.co.uk", 35), "https://www.thisisasuperlonghostna…");
    assert_eq!(truncate("ƽƽƽ", 4), "ƽ…");
    assert_eq!(truncate("ƽƽƽ", 0), "…");
    assert_eq!(truncate("ab", 10), "ab…");
}

#[test]
fn assembles_the_pieces_in_order() {
    assert_eq!(
        assemble("http://", "a.com", "/x/y", &None, "?q=1", None, 0),
        "http://a.com/x/y?q=1"
    );
    assert_eq!(
        assemble("http://", "a.com", "/x/y", &None, "?q=1&r=2", Some("?q=1&"), 22),
        "http://a.com/x/y?q=1&…"
    );
    let reduced = shorten_path("/one/two/three/four/five", 18);
    assert_eq!(
        assemble("http://", "a.com", "/one/two/three/four/five", &reduced, "", None, 30),
        "http://a.com/one/…/four/five"
    );
    let reduced = shorten_path("/one", 0);
    assert_eq!(
        assemble("", "a.com", "/one", &reduced, "?q", Some("?"), usize::MAX),
        "a.com/…?…"
    );
}
