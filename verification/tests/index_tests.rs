use normalize_country::Country;
use normalize_country::CountryNameNormalizer;
use normalize_country::CountryRef;

fn rec(
    alpha2: &str,
    alpha3: &str,
    fifa: &str,
    ioc: &str,
    iso_name: &str,
    official: &str,
    short: &str,
    numeric: i32,
    aliases: Option<Vec<&str>>,
) -> CountryRef {
    CountryRef {
        aliases: aliases.map(|v| v.into_iter().map(String::from).collect()),
        alpha2: String::from(alpha2),
        alpha3: String::from(alpha3),
        fifa: String::from(fifa),
        ioc: String::from(ioc),
        iso_name: String::from(iso_name),
        numeric,
        official: String::from(official),
        short: String::from(short),
        emoji: String::from("\u{1F1FA}\u{1F1F8}"),
        shortcode: String::from("ZZ-ZZ"),
    }
}

fn us() -> CountryRef {
    rec(
        "US",
        "USA",
        "USA",
        "USA",
        "United States of America",
        "United States of America",
        "United States",
        840,
        Some(vec!["USA", "America"]),
    )
}

fn lucia() -> CountryRef {
    rec(
        "LC",
        "LCA",
        "LCA",
        "LCA",
        "Saint Lucia",
        "Saint Lucia",
        "Saint Lucia",
        662,
        Some(vec!["St. Lucia"]),
    )
}

fn sample() -> CountryNameNormalizer {
    CountryNameNormalizer::new(vec![us(), lucia()])
}

#[test]
fn lookup_is_idempotent() {
    let idx = sample();
    let a = idx.normalize_country("United States");
    let b = idx.normalize_country("United States");
    assert!(a.is_some());
    assert!(b.is_some());
    // Both calls reference the very same record.
    assert!(std::ptr::eq(a.unwrap(), b.unwrap()));
    assert!(a.unwrap() == b.unwrap());
}

#[test]
fn own_names_round_trip() {
    let idx = sample();
    for query in [
        "US",
        "USA",
        "United States of America",
        "United States",
        "America",
    ] {
        let found = idx.normalize_country(query).expect(query);
        assert_eq!(found.numeric, 840);
    }
    for query in ["LC", "LCA", "Saint Lucia", "St. Lucia"] {
        let found = idx.normalize_country(query).expect(query);
        assert_eq!(found.numeric, 662);
    }
}

#[test]
fn round_trip_with_case_and_whitespace() {
    let idx = sample();
    assert_eq!(idx.normalize_country("  uNiTeD sTaTeS  ").unwrap().numeric, 840);
    assert_eq!(idx.normalize_country("\tst. lucia\n").unwrap().numeric, 662);
}

#[test]
fn us_alias_and_expansions_resolve_to_one_record() {
    let idx = sample();
    let via_alias = idx.normalize_country("usa").unwrap();
    let via_expansion = idx.normalize_country("U.S.").unwrap();
    let via_official = idx.normalize_country("united states of america").unwrap();
    assert_eq!(via_alias.numeric, 840);
    assert!(via_alias == via_expansion);
    assert!(via_alias == via_official);
    assert!(std::ptr::eq(via_alias, via_official));
}

#[test]
fn empty_keys_are_absent() {
    let idx = sample();
    assert!(idx.normalize_country("").is_none());
    assert!(idx.normalize_country("   ").is_none());
    // "&" normalizes to "and", which no record here is indexed under.
    assert!(idx.normalize_country("&").is_none());
    assert!(idx.normalize_country("?!,").is_none());
}

#[test]
fn unknown_input_is_absent() {
    let idx = sample();
    assert!(idx.normalize_country("Narnia").is_none());
    assert!(idx.normalize_country("usaa").is_none());
}

#[test]
fn colliding_keys_last_record_wins() {
    let mut a = rec("AA", "AAA", "AAA", "AAA", "Oldland", "Oldland", "Oldland", 1, Some(vec!["Shared Name"]));
    let b = rec("BB", "BBB", "BBB", "BBB", "Newland", "Newland", "Newland", 2, Some(vec!["Shared Name"]));
    a.shortcode = String::from("AA-AA");
    let idx = CountryNameNormalizer::new(vec![a, b]);
    // Only the later record is found under the shared key.
    assert_eq!(idx.normalize_country("Shared Name").unwrap().numeric, 2);
    // Uncontested keys of the earlier record still resolve.
    assert_eq!(idx.normalize_country("Oldland").unwrap().numeric, 1);
}

#[test]
fn shortcode_is_not_indexed() {
    let idx = sample();
    assert!(idx.normalize_country("ZZ-ZZ").is_none());
}

#[test]
fn to_owned_pads_codes_with_spaces() {
    let r = rec("U", "US", "U", "", "X", "X", "X", 9, None);
    let c: Country = r.to_owned();
    assert_eq!(c.alpha2(), "U ");
    assert_eq!(c.alpha3(), "US ");
    assert_eq!(c.fifa(), "U  ");
    assert_eq!(c.ioc(), "   ");
    assert_eq!(c.emoji, '\u{1F1FA}');
    assert_eq!(c.aliases, None);
}

#[test]
fn to_owned_keeps_text_fields() {
    let r = us();
    let c = r.to_owned();
    assert_eq!(c.alpha2(), "US");
    assert_eq!(c.alpha3(), "USA");
    assert_eq!(c.fifa(), "USA");
    assert_eq!(c.ioc(), "USA");
    assert_eq!(c.iso_name, "United States of America");
    assert_eq!(c.official, "United States of America");
    assert_eq!(c.short, "United States");
    assert_eq!(c.shortcode, "ZZ-ZZ");
    assert_eq!(c.numeric, 840);
    assert_eq!(c.aliases, Some(vec![String::from("USA"), String::from("America")]));
}

#[test]
fn record_equality_is_by_numeric_code() {
    let a = rec("AA", "AAA", "AAA", "AAA", "A", "A", "A", 5, None).to_owned();
    let b = rec("BB", "BBB", "BBB", "BBB", "B", "B", "B", 5, None).to_owned();
    let c = rec("AA", "AAA", "AAA", "AAA", "A", "A", "A", 6, None).to_owned();
    assert!(a == b);
    assert!(a != c);
}
