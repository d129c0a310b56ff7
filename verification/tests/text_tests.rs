use a3s_apofasi::text::replace;

#[test]
fn replace_matches_std() {
    let cases: &[(&str, &str, &str)] = &[
        ("a[MASK]b[MASK]", "[MASK]", " "),
        ("aaa", "aa", "b"),
        ("abc", "", "-"),
        ("", "", "x"),
        ("", "x", "y"),
        ("héllo wörld", "ö", "oe"),
        ("no match here", "zz", "!"),
        ("xyxyx", "xyx", "_"),
    ];
    for (s, from, to) in cases {
        assert_eq!(replace(s, from, to), s.replace(from, to), "{s:?} {from:?} {to:?}");
    }
}
