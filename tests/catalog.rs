use fpkgi::catalog::{
    build_catalog, category_for, convert_sfo_to_json, icon_rel_path, package_link,
    parse_region_from_content_id, split_path_arg, Catalog, GenerateArgs, PackageScan, ScanError,
};
use fpkgi::json::{clone_json, merge_json_values, Json};
use fpkgi::package::PkgError;
use fpkgi::sfo::{SfoError, SfoTable};

fn args(icons: bool) -> GenerateArgs {
    GenerateArgs {
        packages: ("/srv/pkgs".to_string(), "pkgs".to_string()),
        url: "http://host".to_string(),
        out: ("/srv/out".to_string(), "out".to_string()),
        icons: if icons { Some(("/srv/icons".to_string(), "icons".to_string())) } else { None },
        external: None,
    }
}

fn sfo(pairs: &[(&str, &str)]) -> SfoTable {
    SfoTable { entries: pairs.iter().map(|(k, v)| (k.to_string(), v.to_string())).collect() }
}

fn member<'a>(j: &'a Json, key: &str) -> Option<&'a Json> {
    match j {
        Json::Object(fields) => fields.iter().find(|(k, _)| k == key).map(|(_, v)| v),
        _ => None,
    }
}

fn text(j: Option<&Json>) -> Option<String> {
    match j {
        Some(Json::Str(s)) => Some(s.clone()),
        Some(Json::Number(n)) => Some(n.clone()),
        _ => None,
    }
}

fn is_null(j: Option<&Json>) -> bool {
    matches!(j, Some(Json::Null))
}

fn category<'a>(c: &'a Catalog, name: &str) -> Option<&'a Vec<(String, Json)>> {
    c.categories.iter().find(|(n, _)| n == name).map(|(_, e)| e)
}

fn entry<'a>(c: &'a Catalog, cat: &str, key: &str) -> Option<&'a Json> {
    category(c, cat).and_then(|e| e.iter().find(|(k, _)| k == key).map(|(_, v)| v))
}

fn demo_scan(rel: &str, size: u64, cid: &str, cat: &str) -> PackageScan {
    PackageScan {
        rel_path: rel.to_string(),
        size,
        decoded: Ok((
            cid.to_string(),
            sfo(&[("TITLE_ID", "CUSA12345"), ("TITLE", "Demo"), ("APP_VER", "01.00"), ("CATEGORY", cat)]),
        )),
    }
}

#[test]
fn region_from_content_id() {
    assert_eq!(parse_region_from_content_id("JP0001-ABCD"), "JAP");
    assert_eq!(parse_region_from_content_id("UP0001-ABCD"), "USA");
    assert_eq!(parse_region_from_content_id("ep0001-ABCD"), "EUR");
    assert_eq!(parse_region_from_content_id("HP0001-ABCD"), "UNK");
    assert_eq!(parse_region_from_content_id("U"), "UNK");
    assert_eq!(parse_region_from_content_id(""), "UNK");
    assert_eq!(parse_region_from_content_id("ÜP0001"), "UNK");
}

#[test]
fn category_codes_map_to_categories() {
    assert_eq!(category_for("gd"), "games");
    assert_eq!(category_for("gp"), "updates");
    assert_eq!(category_for("ac"), "DLC");
    assert_eq!(category_for("gde"), "homebrew");
    assert_eq!(category_for("zz"), "games");
    assert_eq!(category_for(""), "games");
}

#[test]
fn split_path_arg_splits_at_first_colon() {
    assert_eq!(split_path_arg("/srv/pkgs:pkgs"), ("/srv/pkgs".to_string(), "pkgs".to_string()));
    assert_eq!(split_path_arg("a:b:c"), ("a".to_string(), "b:c".to_string()));
    assert_eq!(split_path_arg("plain"), ("plain".to_string(), "plain".to_string()));
}

#[test]
fn entry_projection_has_the_eight_members() {
    let table = sfo(&[("TITLE_ID", "CUSA1"), ("TITLE", "Game"), ("CATEGORY", "gp")]);
    let (code, key, e) = convert_sfo_to_json(
        "http://h",
        "pkgs/a.pkg",
        42,
        Some("icons/a.pkg.png".to_string()),
        &table,
        "EP0001",
    );
    assert_eq!(code, "gp");
    assert_eq!(key, "http://h/pkgs/a.pkg");
    match &e {
        Json::Object(fields) => {
            let names: Vec<&str> = fields.iter().map(|(k, _)| k.as_str()).collect();
            assert_eq!(names, vec!["title_id", "region", "name", "version", "release", "size", "min_fw", "cover_url"]);
        }
        _ => panic!("entry is not an object"),
    }
    assert_eq!(text(member(&e, "title_id")), Some("CUSA1".to_string()));
    assert_eq!(text(member(&e, "region")), Some("EUR".to_string()));
    assert!(is_null(member(&e, "version")));
    assert!(is_null(member(&e, "release")));
    assert!(is_null(member(&e, "min_fw")));
    assert_eq!(text(member(&e, "size")), Some("42".to_string()));
    assert_eq!(text(member(&e, "cover_url")), Some("http://h/icons/a.pkg.png".to_string()));
}

#[test]
fn missing_category_defaults_to_games_code() {
    let (code, _, e) = convert_sfo_to_json("b", "p", 1, None, &sfo(&[]), "");
    assert_eq!(code, "gd");
    assert!(is_null(member(&e, "cover_url")));
    assert!(is_null(member(&e, "title_id")));
}

#[test]
fn single_package_lands_in_games() {
    let scans = vec![demo_scan("foo.pkg", 1_234_567, "UP0001-CUSA12345_00-DEMO", "gd")];
    let c = build_catalog(&args(false), &scans, &Vec::new());
    assert_eq!(c.categories.len(), 4);
    let e = entry(&c, "games", "http://host/pkgs/foo.pkg").expect("entry filed under games");
    assert_eq!(text(member(e, "region")), Some("USA".to_string()));
    assert_eq!(text(member(e, "size")), Some("1234567".to_string()));
    assert_eq!(text(member(e, "title_id")), Some("CUSA12345".to_string()));
    assert_eq!(text(member(e, "name")), Some("Demo".to_string()));
    assert_eq!(text(member(e, "version")), Some("01.00".to_string()));
    for other in ["updates", "DLC", "homebrew"] {
        assert!(category(&c, other).unwrap().is_empty());
    }
}

#[test]
fn same_title_different_files_get_distinct_keys() {
    let scans = vec![
        demo_scan("a.pkg", 10, "UP0001", "gd"),
        demo_scan("sub/b.pkg", 20, "UP0001", "gd"),
    ];
    let c = build_catalog(&args(false), &scans, &Vec::new());
    let games = category(&c, "games").unwrap();
    assert_eq!(games.len(), 2);
    assert!(entry(&c, "games", "http://host/pkgs/a.pkg").is_some());
    assert!(entry(&c, "games", "http://host/pkgs/sub/b.pkg").is_some());
}

#[test]
fn rejected_package_is_skipped_and_later_ones_indexed() {
    let scans = vec![
        PackageScan { rel_path: "bad.pkg".to_string(), size: 4, decoded: Err(ScanError::Package(PkgError::InvalidMagic)) },
        PackageScan { rel_path: "nosfo.pkg".to_string(), size: 4, decoded: Err(ScanError::Sfo(SfoError::InvalidMagic)) },
        demo_scan("good.pkg", 99, "JP0001", "ac"),
    ];
    let c = build_catalog(&args(false), &scans, &Vec::new());
    let total: usize = c.categories.iter().map(|(_, e)| e.len()).sum();
    assert_eq!(total, 1);
    assert!(entry(&c, "DLC", "http://host/pkgs/good.pkg").is_some());
    assert!(entry(&c, "games", "http://host/pkgs/bad.pkg").is_none());
}

#[test]
fn unknown_category_routes_to_games() {
    let scans = vec![demo_scan("x.pkg", 1, "UP01", "weird")];
    let c = build_catalog(&args(false), &scans, &Vec::new());
    assert!(entry(&c, "games", "http://host/pkgs/x.pkg").is_some());
}

#[test]
fn every_region_is_one_of_four() {
    let ids = ["JP01", "UP01", "EP01", "KP01", "", "x"];
    let scans: Vec<PackageScan> = ids.iter().enumerate()
        .map(|(i, id)| demo_scan(&format!("p{}.pkg", i), i as u64, id, "gd"))
        .collect();
    let c = build_catalog(&args(false), &scans, &Vec::new());
    for (_, e) in category(&c, "games").unwrap() {
        let r = text(member(e, "region")).unwrap();
        assert!(["JAP", "USA", "EUR", "UNK"].contains(&r.as_str()));
    }
}

#[test]
fn size_is_the_file_length() {
    let scans = vec![demo_scan("big.pkg", u64::MAX, "UP01", "gd")];
    let c = build_catalog(&args(false), &scans, &Vec::new());
    let e = entry(&c, "games", "http://host/pkgs/big.pkg").unwrap();
    assert_eq!(text(member(e, "size")), Some(u64::MAX.to_string()));
}

#[test]
fn spaces_are_percent_encoded_in_keys_and_icons() {
    let scans = vec![demo_scan("my game.pkg", 5, "UP01", "gd")];
    let c = build_catalog(&args(true), &scans, &Vec::new());
    let e = entry(&c, "games", "http://host/pkgs/my%20game.pkg").expect("encoded key");
    assert_eq!(text(member(e, "cover_url")), Some("http://host/icons/my%20game.pkg.png".to_string()));
    assert_eq!(package_link(&args(false), "dir/ü.pkg"), "pkgs/dir/%C3%BC.pkg");
    assert_eq!(package_link(&args(false), "a%b?#+.pkg"), "pkgs/a%b?#+.pkg");
    assert_eq!(icon_rel_path("dir/a b.pkg"), "dir/a b.pkg.png");
}

#[test]
fn later_duplicate_key_overwrites() {
    let mut c = Catalog::new();
    c.insert("games", "k".to_string(), Json::Number("1".to_string()));
    c.insert("games", "k".to_string(), Json::Number("2".to_string()));
    let games = category(&c, "games").unwrap();
    assert_eq!(games.len(), 1);
    assert_eq!(text(Some(&games[0].1)), Some("2".to_string()));
}

fn override_doc(url: &str, fields: Vec<(String, Json)>) -> Json {
    Json::Object(vec![("DATA".to_string(), Json::Object(vec![(url.to_string(), Json::Object(fields))]))])
}

#[test]
fn external_override_changes_only_given_fields() {
    let scans = vec![demo_scan("y.pkg", 7, "UP01", "gd")];
    let mut a = args(false);
    a.url = "http://x".to_string();
    a.packages = ("/srv".to_string(), "".to_string());
    let key = "http://x//y.pkg";
    let doc = override_doc(key, vec![("region".to_string(), Json::Str("EUR".to_string()))]);
    let c = build_catalog(&a, &scans, &vec![("games".to_string(), doc)]);
    let e = entry(&c, "games", key).unwrap();
    assert_eq!(text(member(e, "region")), Some("EUR".to_string()));
    assert_eq!(text(member(e, "size")), Some("7".to_string()));
    assert_eq!(text(member(e, "name")), Some("Demo".to_string()));
}

#[test]
fn external_override_matches_scenario_url() {
    let mut c = Catalog::new();
    c.insert(
        "games",
        "http://x/y.pkg".to_string(),
        Json::Object(vec![
            ("region".to_string(), Json::Str("USA".to_string())),
            ("name".to_string(), Json::Str("Y".to_string())),
        ]),
    );
    c.merge_external("games", &override_doc("http://x/y.pkg", vec![("region".to_string(), Json::Str("EUR".to_string()))]));
    let e = entry(&c, "games", "http://x/y.pkg").unwrap();
    assert_eq!(text(member(e, "region")), Some("EUR".to_string()));
    assert_eq!(text(member(e, "name")), Some("Y".to_string()));
}

#[test]
fn external_file_creates_new_category() {
    let mut c = Catalog::new();
    c.merge_external("extras", &override_doc("u", vec![("name".to_string(), Json::Str("N".to_string()))]));
    assert_eq!(c.categories.len(), 5);
    assert!(entry(&c, "extras", "u").is_some());
    c.merge_external("games", &Json::Object(vec![("OTHER".to_string(), Json::Null)]));
    assert!(category(&c, "games").unwrap().is_empty());
    c.merge_external("games", &Json::Str("not an object".to_string()));
    assert_eq!(c.categories.len(), 5);
}

#[test]
fn merging_twice_equals_merging_once() {
    let mut once = Catalog::new();
    once.insert("games", "u".to_string(), Json::Object(vec![("a".to_string(), Json::Number("1".to_string()))]));
    let doc = override_doc("u", vec![
        ("a".to_string(), Json::Number("2".to_string())),
        ("b".to_string(), Json::Object(vec![("c".to_string(), Json::Bool(true))])),
    ]);
    once.merge_external("games", &doc);
    once.merge_external("new", &doc);
    let mut twice = Catalog::new();
    twice.insert("games", "u".to_string(), Json::Object(vec![("a".to_string(), Json::Number("1".to_string()))]));
    twice.merge_external("games", &doc);
    twice.merge_external("games", &doc);
    twice.merge_external("new", &doc);
    twice.merge_external("new", &doc);
    assert_eq!(format!("{:?}", once), format!("{:?}", twice));
}

#[test]
fn merge_json_values_recurses_into_objects() {
    let mut base = Json::Object(vec![
        ("keep".to_string(), Json::Number("1".to_string())),
        ("nested".to_string(), Json::Object(vec![("x".to_string(), Json::Null), ("y".to_string(), Json::Bool(false))])),
    ]);
    let ext = Json::Object(vec![
        ("nested".to_string(), Json::Object(vec![("y".to_string(), Json::Bool(true))])),
        ("added".to_string(), Json::Array(vec![Json::Str("s".to_string())])),
    ]);
    merge_json_values(&mut base, &ext);
    let nested = member(&base, "nested").unwrap();
    assert!(matches!(member(nested, "x"), Some(Json::Null)));
    assert!(matches!(member(nested, "y"), Some(Json::Bool(true))));
    assert_eq!(text(member(&base, "keep")), Some("1".to_string()));
    assert!(matches!(member(&base, "added"), Some(Json::Array(v)) if v.len() == 1));
    let mut scalar = Json::Number("3".to_string());
    merge_json_values(&mut scalar, &clone_json(&ext));
    assert!(matches!(scalar, Json::Object(_)));
}
