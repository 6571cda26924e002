//! The catalog builder: projects decoded packages into per-category catalog
//! entries keyed by download URL, and merges operator-supplied overrides.

use vstd::prelude::*;
use crate::json::{
    Json, JsonV, find_key, fv, json_wf, unique_keys, lemma_find_key_bounds,
    lemma_find_key_first, lemma_find_key_push, lemma_find_key_same_keys, lemma_fv,
    lemma_merge_idempotent, lemma_merge_self, lemma_merge_lookup, position_of_key, clone_fields, merge_fields_exec,
    merge_fields,
};
use crate::sfo::{SfoTable, SfoError, lookup};
use crate::package::PkgError;
use crate::text::{decimal_of, decimal_string, join2, join3, str_equal};
use crate::url::{ascii_text, encode_path, percent_encoded};
use vstd::utf8::encode_utf8;

verus! {

/// Where a catalog run reads and writes: each location is a filesystem path
/// and the URL prefix it is served under.
#[derive(Debug)]
pub struct GenerateArgs {
    pub packages: (String, String),
    pub url: String,
    pub out: (String, String),
    pub icons: Option<(String, String)>,
    pub external: Option<String>,
}

/// Index of the first `:` in `s`, or -1.
pub open spec fn colon_index(s: Seq<char>) -> int
    decreases s.len(),
{
    if s.len() == 0 {
        -1
    } else if colon_index(s.drop_last()) >= 0 {
        colon_index(s.drop_last())
    } else if s.last() == ':' {
        s.len() - 1
    } else {
        -1
    }
}

proof fn lemma_colon_first(s: Seq<char>, i: int)
    requires
        0 <= i < s.len(),
        s[i] == ':',
        colon_index(s.subrange(0, i)) == -1,
    ensures
        colon_index(s) == i,
    decreases s.len(),
{
    if s.len() > i + 1 {
        assert(s.drop_last().subrange(0, i) =~= s.subrange(0, i));
        lemma_colon_first(s.drop_last(), i);
    } else {
        assert(s.drop_last() =~= s.subrange(0, i));
    }
}

/// Splits an `fs:url` argument at its first `:`; without one, the whole
/// value is both halves.
pub fn split_path_arg(value: &str) -> (r: (String, String))
    ensures
        colon_index(value@) < 0 ==> r.0@ == value@ && r.1@ == value@,
        colon_index(value@) >= 0 ==> r.0@ == value@.subrange(0, colon_index(value@)) && r.1@
            == value@.subrange(colon_index(value@) + 1, value@.len() as int),
{
    let n = value.unicode_len();
    let mut i: usize = 0;
    while i < n
        invariant
            i <= n,
            n == value@.len(),
            colon_index(value@.subrange(0, i as int)) == -1,
        decreases n - i,
    {
        assert(value@.subrange(0, i + 1).drop_last() =~= value@.subrange(0, i as int));
        if value.get_char(i) == ':' {
            proof {
                lemma_colon_first(value@, i as int);
            }
            return (
                value.substring_char(0, i).to_owned(),
                value.substring_char(i + 1, n).to_owned(),
            );
        }
        i = i + 1;
    }
    assert(value@.subrange(0, n as int) =~= value@);
    (value.to_owned(), value.to_owned())
}

/// The region that a content id's first two characters name.
pub open spec fn region_of(cid: Seq<char>) -> Seq<char> {
    if cid.len() >= 2 && (cid[1] == 'P' || cid[1] == 'p') {
        if cid[0] == 'J' || cid[0] == 'j' {
            "JAP"@
        } else if cid[0] == 'U' || cid[0] == 'u' {
            "USA"@
        } else if cid[0] == 'E' || cid[0] == 'e' {
            "EUR"@
        } else {
            "UNK"@
        }
    } else {
        "UNK"@
    }
}

/// The region of a content id: `JP`, `UP` and `EP` (in either case) give
/// `JAP`, `USA` and `EUR`; anything else gives `UNK`.
pub fn parse_region_from_content_id(content_id: &str) -> (r: String)
    ensures
        r@ == region_of(content_id@),
        r@ == "JAP"@ || r@ == "USA"@ || r@ == "EUR"@ || r@ == "UNK"@,
{
    let n = content_id.unicode_len();
    if n < 2 {
        return "UNK".to_owned();
    }
    let c0 = content_id.get_char(0);
    let c1 = content_id.get_char(1);
    if c1 != 'P' && c1 != 'p' {
        "UNK".to_owned()
    } else if c0 == 'J' || c0 == 'j' {
        "JAP".to_owned()
    } else if c0 == 'U' || c0 == 'u' {
        "USA".to_owned()
    } else if c0 == 'E' || c0 == 'e' {
        "EUR".to_owned()
    } else {
        "UNK".to_owned()
    }
}

/// The catalog category that an SFO `CATEGORY` code files a package under.
pub open spec fn category_name(code: Seq<char>) -> Seq<char> {
    if code == "gd"@ {
        "games"@
    } else if code == "gp"@ {
        "updates"@
    } else if code == "ac"@ {
        "DLC"@
    } else if code == "gde"@ {
        "homebrew"@
    } else {
        "games"@
    }
}

/// The category for an SFO `CATEGORY` code: `gd`, `gp`, `ac` and `gde`
/// give `games`, `updates`, `DLC` and `homebrew`; anything else `games`.
pub fn category_for(code: &str) -> (r: String)
    ensures
        r@ == category_name(code@),
{
    if str_equal(code, "gd") {
        "games".to_owned()
    } else if str_equal(code, "gp") {
        "updates".to_owned()
    } else if str_equal(code, "ac") {
        "DLC".to_owned()
    } else if str_equal(code, "gde") {
        "homebrew".to_owned()
    } else {
        "games".to_owned()
    }
}

/// A `CATEGORY` code that is none of the four known ones files the package
/// under `games`.
pub proof fn lemma_unknown_category_is_games(code: Seq<char>)
    requires
        code != "gd"@,
        code != "gp"@,
        code != "ac"@,
        code != "gde"@,
    ensures
        category_name(code) == "games"@,
{
}

/// The `CATEGORY` code of an SFO table, `gd` when it has none.
pub open spec fn category_code(sfo: Seq<(Seq<char>, Seq<char>)>) -> Seq<char> {
    match lookup(sfo, "CATEGORY"@) {
        Some(c) => c,
        None => "gd"@,
    }
}

/// The text of an optional string.
pub open spec fn opt_text(o: Option<String>) -> Option<Seq<char>> {
    match o {
        Some(s) => Some(s@),
        None => None,
    }
}

/// A string value, or null.
pub open spec fn text_or_null(v: Option<Seq<char>>) -> JsonV {
    match v {
        Some(s) => JsonV::Str(s),
        None => JsonV::Null,
    }
}

/// The catalog entry of a package: its members, in order, are `title_id`,
/// `region`, `name`, `version`, `release`, `size`, `min_fw` and `cover_url`.
pub open spec fn entry_of(
    base: Seq<char>,
    icon_path: Option<Seq<char>>,
    size: u64,
    sfo: Seq<(Seq<char>, Seq<char>)>,
    cid: Seq<char>,
) -> JsonV {
    JsonV::Object(entry_members(base, icon_path, size, sfo, cid))
}

pub open spec fn entry_members(
    base: Seq<char>,
    icon_path: Option<Seq<char>>,
    size: u64,
    sfo: Seq<(Seq<char>, Seq<char>)>,
    cid: Seq<char>,
) -> Seq<(Seq<char>, JsonV)> {
        seq![
            ("title_id"@, text_or_null(lookup(sfo, "TITLE_ID"@))),
            ("region"@, JsonV::Str(region_of(cid))),
            ("name"@, text_or_null(lookup(sfo, "TITLE"@))),
            ("version"@, text_or_null(lookup(sfo, "APP_VER"@))),
            ("release"@, JsonV::Null),
            ("size"@, JsonV::Number(decimal_of(size as nat))),
            ("min_fw"@, JsonV::Null),
            ("cover_url"@, match icon_path {
                Some(p) => JsonV::Str(base + "/"@ + p),
                None => JsonV::Null,
            }),
        ]
}

fn text_member(name: &str, sfo: &SfoTable, key: &str) -> (r: (String, Json))
    ensures
        r.0@ == name@,
        r.1@ == text_or_null(lookup(sfo@, key@)),
{
    match sfo.get(key) {
        Some(v) => (name.to_owned(), Json::Str(v)),
        None => (name.to_owned(), Json::Null),
    }
}

/// Projects a decoded package into its catalog entry: returns the SFO
/// category code, the entry's key `base_link/pkg_link`, and the entry.
pub fn convert_sfo_to_json(
    base_link: &str,
    pkg_link: &str,
    pkg_bytes: u64,
    icon_path: Option<String>,
    sfo_data: &SfoTable,
    content_id: &str,
) -> (r: (String, String, Json))
    ensures
        r.0@ == category_code(sfo_data@),
        r.1@ == base_link@ + "/"@ + pkg_link@,
        r.2@ == entry_of(
            base_link@,
            opt_text(icon_path),
            pkg_bytes,
            sfo_data@,
            content_id@,
        ),
{
    let ghost icon_view = opt_text(icon_path);
    let mut fields: Vec<(String, Json)> = Vec::new();
    fields.push(text_member("title_id", sfo_data, "TITLE_ID"));
    fields.push(("region".to_owned(), Json::Str(parse_region_from_content_id(content_id))));
    fields.push(text_member("name", sfo_data, "TITLE"));
    fields.push(text_member("version", sfo_data, "APP_VER"));
    fields.push(("release".to_owned(), Json::Null));
    fields.push(("size".to_owned(), Json::Number(decimal_string(pkg_bytes))));
    fields.push(("min_fw".to_owned(), Json::Null));
    let cover = match icon_path {
        Some(p) => Json::Str(join3(base_link, "/", p.as_str())),
        None => Json::Null,
    };
    fields.push(("cover_url".to_owned(), cover));
    proof {
        lemma_fv(fields@);
    }
    let entry = Json::Object(fields);
    assert(fv(fields@) =~= entry_members(base_link@, icon_view, pkg_bytes, sfo_data@, content_id@));
    let category = match sfo_data.get("CATEGORY") {
        Some(c) => c,
        None => "gd".to_owned(),
    };
    (category, join3(base_link, "/", pkg_link), entry)
}

/// The mathematical value of a catalog: categories in order, each with its
/// entries keyed by URL.
pub type CatalogV = Seq<(Seq<char>, Seq<(Seq<char>, JsonV)>)>;

/// `s` with `v` bound to `k`: an existing member is replaced in place,
/// otherwise the member is appended.
pub open spec fn put<V>(s: Seq<(Seq<char>, V)>, k: Seq<char>, v: V) -> Seq<(Seq<char>, V)> {
    if find_key(s, k) >= 0 {
        s.update(find_key(s, k), (k, v))
    } else {
        s.push((k, v))
    }
}

pub proof fn lemma_put_unique<V>(s: Seq<(Seq<char>, V)>, k: Seq<char>, v: V)
    requires
        unique_keys(s),
    ensures
        unique_keys(put(s, k, v)),
{
    lemma_find_key_bounds(s, k);
    let r = put(s, k, v);
    if find_key(s, k) >= 0 {
        assert forall|x: int, y: int| 0 <= x < y < r.len() implies r[x].0 != r[y].0 by {
            assert(r[x].0 == s[x].0 && r[y].0 == s[y].0);
        }
    } else {
        assert forall|x: int, y: int| 0 <= x < y < r.len() implies r[x].0 != r[y].0 by {
            if y == s.len() {
                assert(s[x].0 != k);
            }
        }
    }
}

/// Category names are unique, and so are the URLs within each category.
pub open spec fn catalog_wf(c: CatalogV) -> bool {
    &&& unique_keys(c)
    &&& forall|i: int| 0 <= i < c.len() ==> unique_keys(#[trigger] c[i].1)
}

proof fn lemma_file_under_wf(c: CatalogV, name: Seq<char>, key: Seq<char>, entry: JsonV)
    requires
        catalog_wf(c),
    ensures
        catalog_wf(file_under(c, name, key, entry)),
{
    lemma_find_key_bounds(c, name);
    let i = find_key(c, name);
    let r = file_under(c, name, key, entry);
    if i >= 0 {
        lemma_put_unique(c[i].1, key, entry);
        assert forall|x: int, y: int| 0 <= x < y < r.len() implies r[x].0 != r[y].0 by {
            assert(r[x].0 == c[x].0 && r[y].0 == c[y].0);
        }
        assert forall|j: int| 0 <= j < r.len() implies unique_keys(#[trigger] r[j].1) by {
            if j != i {
                assert(r[j] == c[j]);
            }
        }
    } else {
        assert forall|x: int, y: int| 0 <= x < y < r.len() implies r[x].0 != r[y].0 by {
            if y == c.len() {
                assert(c[x].0 != name);
            }
        }
        assert forall|j: int| 0 <= j < r.len() implies unique_keys(#[trigger] r[j].1) by {
            if j < c.len() {
                assert(r[j] == c[j]);
            }
        }
    }
}

proof fn lemma_merge_category_wf(c: CatalogV, name: Seq<char>, e: JsonV)
    requires
        catalog_wf(c),
        json_wf(e),
    ensures
        catalog_wf(merge_category(c, name, e)),
{
    if let Some(d) = data_of(e) {
        if let JsonV::Object(top) = e {
            lemma_find_key_bounds(top, "DATA"@);
            assert(json_wf(top[find_key(top, "DATA"@)].1));
        }
        assert(unique_keys(d));
        lemma_find_key_bounds(c, name);
        let i = find_key(c, name);
        let r = merge_category(c, name, e);
        if i >= 0 {
            lemma_merge_lookup(c[i].1, d, d.len() as int);
            assert forall|x: int, y: int| 0 <= x < y < r.len() implies r[x].0 != r[y].0 by {
                assert(r[x].0 == c[x].0 && r[y].0 == c[y].0);
            }
            assert forall|j: int| 0 <= j < r.len() implies unique_keys(#[trigger] r[j].1) by {
                if j != i {
                    assert(r[j] == c[j]);
                }
            }
        } else {
            assert forall|x: int, y: int| 0 <= x < y < r.len() implies r[x].0 != r[y].0 by {
                if y == c.len() {
                    assert(c[x].0 != name);
                }
            }
            assert forall|j: int| 0 <= j < r.len() implies unique_keys(#[trigger] r[j].1) by {
                if j < c.len() {
                    assert(r[j] == c[j]);
                }
            }
        }
    }
}

/// `c` with `entry` filed under category `name` at `key`; a category that
/// does not exist yet is appended.
pub open spec fn file_under(c: CatalogV, name: Seq<char>, key: Seq<char>, entry: JsonV) -> CatalogV {
    let i = find_key(c, name);
    if i >= 0 {
        c.update(i, (name, put(c[i].1, key, entry)))
    } else {
        c.push((name, seq![(key, entry)]))
    }
}

/// The `DATA` object of an external override document, if it has one.
pub open spec fn data_of(e: JsonV) -> Option<Seq<(Seq<char>, JsonV)>> {
    match e {
        JsonV::Object(top) => {
            let i = find_key(top, "DATA"@);
            if i >= 0 {
                match top[i].1 {
                    JsonV::Object(d) => Some(d),
                    _ => None,
                }
            } else {
                None
            }
        },
        _ => None,
    }
}

/// `c` with the override document `e` applied to category `name`: its
/// `DATA` members are merged into an existing category, or become a new one.
pub open spec fn merge_category(c: CatalogV, name: Seq<char>, e: JsonV) -> CatalogV {
    match data_of(e) {
        None => c,
        Some(d) => {
            let i = find_key(c, name);
            if i >= 0 {
                c.update(i, (name, merge_fields(c[i].1, d, d.len() as int)))
            } else {
                c.push((name, d))
            }
        },
    }
}

/// The four categories a run starts from, all empty.
pub open spec fn initial_catalog() -> CatalogV {
    seq![
        ("games"@, Seq::empty()),
        ("updates"@, Seq::empty()),
        ("DLC"@, Seq::empty()),
        ("homebrew"@, Seq::empty()),
    ]
}

pub open spec fn categories_view(s: Seq<(String, Vec<(String, Json)>)>) -> CatalogV {
    s.map_values(|p: (String, Vec<(String, Json)>)| (p.0@, fv(p.1@)))
}

/// A catalog: categories in order, each holding its entries keyed by URL.
#[derive(Debug)]
pub struct Catalog {
    pub categories: Vec<(String, Vec<(String, Json)>)>,
}

impl View for Catalog {
    type V = CatalogV;

    open spec fn view(&self) -> CatalogV {
        categories_view(self.categories@)
    }
}

/// Index of the first category named `name`.
fn position_of_category(cats: &Vec<(String, Vec<(String, Json)>)>, name: &str) -> (r: Option<
    usize,
>)
    ensures
        r is Some <==> find_key(categories_view(cats@), name@) >= 0,
        r is Some ==> r->Some_0 == find_key(categories_view(cats@), name@),
{
    proof {
        lemma_find_key_bounds(categories_view(cats@), name@);
    }
    let mut i: usize = 0;
    while i < cats.len()
        invariant
            i <= cats@.len(),
            forall|j: int| 0 <= j < i ==> categories_view(cats@)[j].0 != name@,
        decreases cats@.len() - i,
    {
        if str_equal(cats[i].0.as_str(), name) {
            proof {
                lemma_find_key_first(categories_view(cats@), name@, i as int);
            }
            return Some(i);
        }
        i = i + 1;
    }
    None
}

/// Binds `entry` to `key` in `f`.
fn put_entry(f: &mut Vec<(String, Json)>, key: String, entry: Json)
    ensures
        fv(final(f)@) == put(fv(old(f)@), key@, entry@),
{
    proof {
        lemma_fv(f@);
        lemma_find_key_bounds(fv(f@), key@);
    }
    match position_of_key(f, key.as_str()) {
        Some(p) => {
            let _ = f.remove(p);
            f.insert(p, (key, entry));
        },
        None => {
            f.push((key, entry));
        },
    }
    proof {
        lemma_fv(f@);
    }
    assert(fv(f@) =~= put(fv(old(f)@), key@, entry@));
}

impl Catalog {
    /// A catalog with the four categories `games`, `updates`, `DLC` and
    /// `homebrew`, all empty.
    pub fn new() -> (r: Catalog)
        ensures
            r@ == initial_catalog(),
            catalog_wf(r@),
    {
        let mut categories: Vec<(String, Vec<(String, Json)>)> = Vec::new();
        categories.push(("games".to_owned(), Vec::new()));
        categories.push(("updates".to_owned(), Vec::new()));
        categories.push(("DLC".to_owned(), Vec::new()));
        categories.push(("homebrew".to_owned(), Vec::new()));
        let r = Catalog { categories };
        assert(fv(Seq::<(String, Json)>::empty()) =~= Seq::empty());
        assert(r@ =~= initial_catalog());
        proof {
            reveal_strlit("games");
            reveal_strlit("updates");
            reveal_strlit("DLC");
            reveal_strlit("homebrew");
            assert("games"@.len() == 5 && "updates"@.len() == 7);
            assert("DLC"@.len() == 3 && "homebrew"@.len() == 8);
            let c = r@;
            assert forall|x: int, y: int| 0 <= x < y < c.len() implies c[x].0 != c[y].0 by {
                assert(c[x].0.len() != c[y].0.len());
            }
        }
        r
    }

    /// Files `entry` under `category` at `key`, replacing an entry with the
    /// same key.
    pub fn insert(&mut self, category: &str, key: String, entry: Json)
        ensures
            final(self)@ == file_under(old(self)@, category@, key@, entry@),
            catalog_wf(old(self)@) ==> catalog_wf(final(self)@),
    {
        proof {
            lemma_find_key_bounds(self@, category@);
        }
        match position_of_category(&self.categories, category) {
            Some(i) => {
                let (name, mut entries) = self.categories.remove(i);
                put_entry(&mut entries, key, entry);
                self.categories.insert(i, (name, entries));
            },
            None => {
                let mut entries: Vec<(String, Json)> = Vec::new();
                put_entry(&mut entries, key, entry);
                assert(fv(Seq::<(String, Json)>::empty()) =~= Seq::empty());
                self.categories.push((category.to_owned(), entries));
            },
        }
        assert(self@ =~= file_under(old(self)@, category@, key@, entry@));
        proof {
            if catalog_wf(old(self)@) {
                lemma_file_under_wf(old(self)@, category@, key@, entry@);
            }
        }
    }

    /// Applies an override document to `category`: the members of its
    /// `DATA` object are merged into the category's entries, or become the
    /// category when there is none. A document without a `DATA` object
    /// changes nothing.
    pub fn merge_external(&mut self, category: &str, external: &Json)
        ensures
            final(self)@ == merge_category(old(self)@, category@, external@),
            catalog_wf(old(self)@) && json_wf(external@) ==> catalog_wf(final(self)@),
    {
        proof {
            if catalog_wf(old(self)@) && json_wf(external@) {
                lemma_merge_category_wf(old(self)@, category@, external@);
            }
        }
        if let Json::Object(top) = external {
            proof {
                lemma_fv(top@);
                lemma_find_key_bounds(fv(top@), "DATA"@);
            }
            if let Some(p) = position_of_key(top, "DATA") {
                if let Json::Object(d) = &top[p].1 {
                    proof {
                        lemma_fv(d@);
                        lemma_find_key_bounds(self@, category@);
                    }
                    match position_of_category(&self.categories, category) {
                        Some(i) => {
                            let (name, entries) = self.categories.remove(i);
                            let merged = merge_fields_exec(entries, d);
                            self.categories.insert(i, (name, merged));
                        },
                        None => {
                            self.categories.push((category.to_owned(), clone_fields(d)));
                        },
                    }
                    assert(self@ =~= merge_category(old(self)@, category@, external@));
                }
            }
        }
    }
}

/// Percent-encoding of a path, as text.
pub open spec fn encoded(s: Seq<char>) -> Seq<char> {
    ascii_text(percent_encoded(encode_utf8(s)))
}

/// The URL path of a package: the packages prefix, `/`, the encoded
/// relative path.
pub open spec fn package_link_of(args: GenerateArgs, rel: Seq<char>) -> Seq<char> {
    args.packages.1@ + "/"@ + encoded(rel)
}

/// The URL path of a package's icon, when icons are extracted: the icons
/// prefix, `/`, the encoded relative path with `.png` appended.
pub open spec fn icon_link_of(args: GenerateArgs, rel: Seq<char>) -> Option<Seq<char>> {
    match args.icons {
        Some(i) => Some(i.1@ + "/"@ + encoded(rel + ".png"@)),
        None => None,
    }
}

/// The catalog key of a package: the base URL, `/`, its URL path.
pub open spec fn package_key(args: GenerateArgs, rel: Seq<char>) -> Seq<char> {
    args.url@ + "/"@ + package_link_of(args, rel)
}

/// `c` with a decoded package filed in it.
pub open spec fn package_filed(
    c: CatalogV,
    args: GenerateArgs,
    rel: Seq<char>,
    size: u64,
    cid: Seq<char>,
    sfo: Seq<(Seq<char>, Seq<char>)>,
) -> CatalogV {
    file_under(
        c,
        category_name(category_code(sfo)),
        package_key(args, rel),
        entry_of(args.url@, icon_link_of(args, rel), size, sfo, cid),
    )
}

/// The URL path of the package at `rel_path` (relative to the packages
/// root, `/`-separated).
pub fn package_link(args: &GenerateArgs, rel_path: &str) -> (r: String)
    ensures
        r@ == package_link_of(*args, rel_path@),
{
    let enc = encode_path(rel_path);
    join3(args.packages.1.as_str(), "/", enc.as_str())
}

/// Where the icon of the package at `rel_path` goes, relative to the icons
/// root: the package's relative path with `.png` appended.
pub fn icon_rel_path(rel_path: &str) -> (r: String)
    ensures
        r@ == rel_path@ + ".png"@,
{
    join2(rel_path, ".png")
}

/// The URL path of the icon of the package at `rel_path`, when icons are
/// extracted.
pub fn icon_link(args: &GenerateArgs, rel_path: &str) -> (r: Option<String>)
    ensures
        opt_text(r) == icon_link_of(*args, rel_path@),
{
    match &args.icons {
        Some(icons) => {
            let file = icon_rel_path(rel_path);
            let enc = encode_path(file.as_str());
            Some(join3(icons.1.as_str(), "/", enc.as_str()))
        },
        None => None,
    }
}

/// Why a scanned package was left out of the catalog.
#[derive(Debug, Clone, Copy, PartialEq, Eq, Structural)]
pub enum ScanError {
    /// The file could not be read.
    Unreadable,
    /// The PKG container could not be decoded.
    Package(PkgError),
    /// Its `param.sfo` could not be decoded.
    Sfo(SfoError),
}

/// What scanning one `.pkg` file found: its path relative to the packages
/// root, its length, and its content id and SFO table, or why those could
/// not be decoded.
#[derive(Debug)]
pub struct PackageScan {
    pub rel_path: String,
    pub size: u64,
    pub decoded: Result<(String, SfoTable), ScanError>,
}

/// `c` with one scan filed in it; a scan that failed leaves `c` as it is.
pub open spec fn scan_filed(c: CatalogV, args: GenerateArgs, scan: PackageScan) -> CatalogV {
    match scan.decoded {
        Ok(d) => package_filed(c, args, scan.rel_path@, scan.size, d.0@, d.1@),
        Err(_) => c,
    }
}

/// `c` with the first `n` scans filed in it, in order.
pub open spec fn scans_filed(c: CatalogV, args: GenerateArgs, scans: Seq<PackageScan>, n: int) -> CatalogV
    decreases n,
{
    if n <= 0 || n > scans.len() {
        c
    } else {
        scan_filed(scans_filed(c, args, scans, n - 1), args, scans[n - 1])
    }
}

/// `c` with the first `n` override documents applied, in order.
pub open spec fn externals_merged(c: CatalogV, ext: Seq<(String, Json)>, n: int) -> CatalogV
    decreases n,
{
    if n <= 0 || n > ext.len() {
        c
    } else {
        merge_category(externals_merged(c, ext, n - 1), ext[n - 1].0@, ext[n - 1].1@)
    }
}

impl Catalog {
    /// Files a decoded package: its entry goes under the category of its
    /// SFO `CATEGORY`, keyed by its download URL.
    pub fn add_package(
        &mut self,
        args: &GenerateArgs,
        rel_path: &str,
        size: u64,
        content_id: &str,
        sfo: &SfoTable,
    )
        ensures
            final(self)@ == package_filed(old(self)@, *args, rel_path@, size, content_id@, sfo@),
            catalog_wf(old(self)@) ==> catalog_wf(final(self)@),
    {
        let link = package_link(args, rel_path);
        let icon = icon_link(args, rel_path);
        let (code, key, entry) = convert_sfo_to_json(
            args.url.as_str(),
            link.as_str(),
            size,
            icon,
            sfo,
            content_id,
        );
        let category = category_for(code.as_str());
        self.insert(category.as_str(), key, entry);
    }

    /// Files one scanned package; one that could not be decoded is skipped.
    pub fn add_scan(&mut self, args: &GenerateArgs, scan: &PackageScan)
        ensures
            final(self)@ == scan_filed(old(self)@, *args, *scan),
            scan.decoded is Err ==> final(self)@ == old(self)@,
            catalog_wf(old(self)@) ==> catalog_wf(final(self)@),
    {
        if let Ok((content_id, sfo)) = &scan.decoded {
            self.add_package(args, scan.rel_path.as_str(), scan.size, content_id.as_str(), sfo);
        }
    }
}

/// Builds the catalog of one run: the four categories, every decoded scan
/// filed in order, then every override document `(category, document)`
/// applied in order.
pub fn build_catalog(
    args: &GenerateArgs,
    scans: &Vec<PackageScan>,
    externals: &Vec<(String, Json)>,
) -> (r: Catalog)
    ensures
        r@ == externals_merged(
            scans_filed(initial_catalog(), *args, scans@, scans@.len() as int),
            externals@,
            externals@.len() as int,
        ),
        (forall|j: int| 0 <= j < externals@.len() ==> json_wf(#[trigger] externals@[j].1@))
            ==> catalog_wf(r@),
{
    let mut catalog = Catalog::new();
    let mut i: usize = 0;
    while i < scans.len()
        invariant
            i <= scans@.len(),
            catalog@ == scans_filed(initial_catalog(), *args, scans@, i as int),
            catalog_wf(catalog@),
        decreases scans@.len() - i,
    {
        catalog.add_scan(args, &scans[i]);
        i = i + 1;
    }
    let ghost filed = catalog@;
    let mut j: usize = 0;
    while j < externals.len()
        invariant
            j <= externals@.len(),
            catalog@ == externals_merged(filed, externals@, j as int),
            (forall|k: int| 0 <= k < externals@.len() ==> json_wf(#[trigger] externals@[k].1@))
                ==> catalog_wf(catalog@),
        decreases externals@.len() - j,
    {
        catalog.merge_external(externals[j].0.as_str(), &externals[j].1);
        j = j + 1;
    }
    catalog
}

proof fn lemma_put_finds<V>(s: Seq<(Seq<char>, V)>, k: Seq<char>, v: V)
    ensures
        find_key(put(s, k, v), k) >= 0,
        put(s, k, v)[find_key(put(s, k, v), k)].1 == v,
{
    lemma_find_key_bounds(s, k);
    let r = put(s, k, v);
    if find_key(s, k) >= 0 {
        assert forall|i: int| 0 <= i < s.len() implies #[trigger] s[i].0 == r[i].0 by {}
        lemma_find_key_same_keys(s, r, k);
    } else {
        lemma_find_key_push(s, (k, v), k);
    }
}

/// A decoded package is filed in exactly one category: the catalog is not
/// empty afterwards, the category its SFO names holds the package's entry
/// under the package's key, and no other category holds that key. This
/// asks that category names be unique and that no other category held the
/// key before (two relative paths can encode to one key, `a b.pkg` and
/// `a%20b.pkg`, since `%` itself is not encoded).
pub proof fn lemma_package_in_one_category(
    c: CatalogV,
    args: GenerateArgs,
    rel: Seq<char>,
    size: u64,
    cid: Seq<char>,
    sfo: Seq<(Seq<char>, Seq<char>)>,
)
    requires
        unique_keys(c),
        forall|j: int|
            0 <= j < c.len() && c[j].0 != category_name(category_code(sfo)) ==> find_key(
                #[trigger] c[j].1,
                package_key(args, rel),
            ) < 0,
    ensures
        ({
            let r = package_filed(c, args, rel, size, cid, sfo);
            let name = category_name(category_code(sfo));
            let key = package_key(args, rel);
            &&& r.len() >= 1
            &&& unique_keys(r)
            &&& exists|i: int|
                0 <= i < r.len() && r[i].0 == name && find_key(#[trigger] r[i].1, key) >= 0
                    && r[i].1[find_key(r[i].1, key)].1 == entry_of(
                    args.url@,
                    icon_link_of(args, rel),
                    size,
                    sfo,
                    cid,
                )
            &&& forall|j: int|
                0 <= j < r.len() && r[j].0 != name ==> find_key(#[trigger] r[j].1, key) < 0
        }),
{
    let name = category_name(category_code(sfo));
    let key = package_key(args, rel);
    let entry = entry_of(args.url@, icon_link_of(args, rel), size, sfo, cid);
    let r = package_filed(c, args, rel, size, cid, sfo);
    lemma_find_key_bounds(c, name);
    let i = find_key(c, name);
    if i >= 0 {
        lemma_put_finds(c[i].1, key, entry);
        assert(r[i].1 == put(c[i].1, key, entry));
        assert forall|x: int, y: int| 0 <= x < y < r.len() implies r[x].0 != r[y].0 by {
            assert(r[x].0 == c[x].0 && r[y].0 == c[y].0);
        }
        assert forall|j: int| 0 <= j < r.len() && r[j].0 != name implies find_key(
            #[trigger] r[j].1,
            key,
        ) < 0 by {
            assert(r[j] == c[j]);
        }
    } else {
        let n = c.len() as int;
        lemma_put_finds(Seq::<(Seq<char>, JsonV)>::empty(), key, entry);
        assert(put(Seq::<(Seq<char>, JsonV)>::empty(), key, entry) =~= seq![(key, entry)]);
        assert(r[n].1 == seq![(key, entry)]);
        assert forall|x: int, y: int| 0 <= x < y < r.len() implies r[x].0 != r[y].0 by {
            if y == n {
                assert(c[x].0 != name);
            }
        }
        assert forall|j: int| 0 <= j < r.len() && r[j].0 != name implies find_key(
            #[trigger] r[j].1,
            key,
        ) < 0 by {
            assert(r[j] == c[j]);
        }
    }
}

/// Applying the same override document twice to a category gives what
/// applying it once gives, for a catalog whose category names are unique
/// and whose categories and document are well-formed JSON.
pub proof fn lemma_merge_external_idempotent(c: CatalogV, name: Seq<char>, e: JsonV)
    requires
        unique_keys(c),
        forall|i: int| 0 <= i < c.len() ==> json_wf(JsonV::Object(#[trigger] c[i].1)),
        json_wf(e),
    ensures
        merge_category(merge_category(c, name, e), name, e) == merge_category(c, name, e),
{
    match data_of(e) {
        None => {},
        Some(d) => {
            if let JsonV::Object(top) = e {
                lemma_find_key_bounds(top, "DATA"@);
                assert(json_wf(top[find_key(top, "DATA"@)].1));
            }
            let c1 = merge_category(c, name, e);
            lemma_find_key_bounds(c, name);
            let i = find_key(c, name);
            if i >= 0 {
                assert(json_wf(JsonV::Object(c[i].1)));
                lemma_merge_idempotent(JsonV::Object(c[i].1), JsonV::Object(d));
                assert forall|x: int| 0 <= x < c.len() implies #[trigger] c[x].0 == c1[x].0 by {}
                lemma_find_key_same_keys(c, c1, name);
                assert(merge_category(c1, name, e) =~= c1);
            } else {
                lemma_merge_self(JsonV::Object(d));
                lemma_find_key_push(c, (name, d), name);
                assert(merge_category(c1, name, e) =~= c1);
            }
        },
    }
}

proof fn lemma_scans_prefix(
    c: CatalogV,
    args: GenerateArgs,
    s: Seq<PackageScan>,
    t: Seq<PackageScan>,
    n: int,
)
    requires
        0 <= n <= s.len(),
        n <= t.len(),
        forall|k: int| 0 <= k < n ==> #[trigger] s[k] == t[k],
    ensures
        scans_filed(c, args, s, n) == scans_filed(c, args, t, n),
    decreases n,
{
    if n > 0 {
        lemma_scans_prefix(c, args, s, t, n - 1);
    }
}

/// A package that could not be decoded is skipped and the run goes on: the
/// catalog built from the scans is the one built from the scans without
/// it, so every later package is filed just as it would be otherwise.
pub proof fn lemma_rejected_scan_skipped(
    c: CatalogV,
    args: GenerateArgs,
    scans: Seq<PackageScan>,
    i: int,
)
    requires
        0 <= i < scans.len(),
        scans[i].decoded is Err,
    ensures
        scans_filed(c, args, scans, scans.len() as int) == scans_filed(
            c,
            args,
            scans.remove(i),
            scans.len() - 1,
        ),
{
    lemma_skip_from(c, args, scans, i, scans.len() as int);
}

proof fn lemma_skip_from(c: CatalogV, args: GenerateArgs, scans: Seq<PackageScan>, i: int, m: int)
    requires
        0 <= i < m <= scans.len(),
        scans[i].decoded is Err,
    ensures
        scans_filed(c, args, scans, m) == scans_filed(c, args, scans.remove(i), m - 1),
    decreases m,
{
    let t = scans.remove(i);
    if m == i + 1 {
        lemma_scans_prefix(c, args, scans, t, i);
    } else {
        lemma_skip_from(c, args, scans, i, m - 1);
        assert(scans[m - 1] == t[m - 2]);
    }
}

/// The entry's `region` member is one of `JAP`, `USA`, `EUR` and `UNK`.
pub open spec fn has_known_region(e: JsonV) -> bool {
    match e {
        JsonV::Object(f) => f.len() > 1 && f[1].0 == "region"@ && (f[1].1 == JsonV::Str("JAP"@)
            || f[1].1 == JsonV::Str("USA"@) || f[1].1 == JsonV::Str("EUR"@) || f[1].1 == JsonV::Str(
            "UNK"@,
        )),
        _ => false,
    }
}

/// Every entry of every category satisfies `has_known_region`.
pub open spec fn all_regions_known(c: CatalogV) -> bool {
    forall|i: int, j: int|
        0 <= i < c.len() && 0 <= j < c[i].1.len() ==> has_known_region(#[trigger] c[i].1[j].1)
}

proof fn lemma_file_under_regions(c: CatalogV, name: Seq<char>, key: Seq<char>, entry: JsonV)
    requires
        all_regions_known(c),
        has_known_region(entry),
    ensures
        all_regions_known(file_under(c, name, key, entry)),
{
    lemma_find_key_bounds(c, name);
    let i = find_key(c, name);
    let r = file_under(c, name, key, entry);
    if i >= 0 {
        lemma_find_key_bounds(c[i].1, key);
        assert forall|x: int, j: int| 0 <= x < r.len() && 0 <= j < r[x].1.len() implies has_known_region(
            #[trigger] r[x].1[j].1,
        ) by {
            if x != i {
                assert(r[x] == c[x]);
            } else if j < c[i].1.len() && j != find_key(c[i].1, key) {
                assert(r[x].1[j] == c[i].1[j]);
            }
        }
    } else {
        assert forall|x: int, j: int| 0 <= x < r.len() && 0 <= j < r[x].1.len() implies has_known_region(
            #[trigger] r[x].1[j].1,
        ) by {
            if x < c.len() {
                assert(r[x] == c[x]);
            }
        }
    }
}

/// Every entry that packages put in a catalog has one of the four region
/// names, whatever the packages hold. (An override document may set any
/// value; this speaks of the catalog before overrides are applied.)
pub proof fn lemma_regions_known(args: GenerateArgs, scans: Seq<PackageScan>, n: int)
    requires
        0 <= n <= scans.len(),
    ensures
        all_regions_known(scans_filed(initial_catalog(), args, scans, n)),
    decreases n,
{
    if n > 0 {
        lemma_regions_known(args, scans, n - 1);
        let c = scans_filed(initial_catalog(), args, scans, n - 1);
        let sc = scans[n - 1];
        if let Ok(d) = sc.decoded {
            let e = entry_of(args.url@, icon_link_of(args, sc.rel_path@), sc.size, d.1@, d.0@);
            assert(has_known_region(e));
            lemma_file_under_regions(c, category_name(category_code(d.1@)), package_key(args, sc.rel_path@), e);
        }
    } else {
        let c = initial_catalog();
        assert forall|x: int, j: int| 0 <= x < c.len() && 0 <= j < c[x].1.len() implies has_known_region(
            #[trigger] c[x].1[j].1,
        ) by {}
    }
}

/// Scan `m` was decoded, is filed at `key`, and `e`'s `size` member is the
/// scan's length in bytes.
pub open spec fn sourced_by(
    args: GenerateArgs,
    scans: Seq<PackageScan>,
    m: int,
    key: Seq<char>,
    e: JsonV,
) -> bool {
    &&& scans[m].decoded is Ok
    &&& package_key(args, scans[m].rel_path@) == key
    &&& match e {
        JsonV::Object(f) => f.len() > 5 && f[5] == ("size"@, JsonV::Number(
            decimal_of(scans[m].size as nat),
        )),
        _ => false,
    }
}

/// The entry `e` at `key` comes from one of the first `n` scans.
pub open spec fn entry_sourced(
    args: GenerateArgs,
    scans: Seq<PackageScan>,
    n: int,
    key: Seq<char>,
    e: JsonV,
) -> bool {
    exists|m: int| 0 <= m < n && #[trigger] sourced_by(args, scans, m, key, e)
}

/// Every entry of `c` comes from one of the first `n` scans.
pub open spec fn all_sizes_sourced(c: CatalogV, args: GenerateArgs, scans: Seq<PackageScan>, n: int) -> bool {
    forall|i: int, j: int|
        #![trigger c[i].1[j]]
        0 <= i < c.len() && 0 <= j < c[i].1.len() ==> entry_sourced(args, scans, n, c[i].1[j].0, c[i].1[j].1)
}

proof fn lemma_sizes_step(c: CatalogV, args: GenerateArgs, scans: Seq<PackageScan>, n: int)
    requires
        1 <= n <= scans.len(),
        all_sizes_sourced(c, args, scans, n - 1),
    ensures
        all_sizes_sourced(scan_filed(c, args, scans[n - 1]), args, scans, n),
{
    let sc = scans[n - 1];
    let r = scan_filed(c, args, sc);
    if let Ok(d) = sc.decoded {
        let name = category_name(category_code(d.1@));
        let key = package_key(args, sc.rel_path@);
        let e = entry_of(args.url@, icon_link_of(args, sc.rel_path@), sc.size, d.1@, d.0@);
        assert(sourced_by(args, scans, n - 1, key, e));
        assert(r == file_under(c, name, key, e));
        lemma_find_key_bounds(c, name);
        let i = find_key(c, name);
        if i >= 0 {
            lemma_find_key_bounds(c[i].1, key);
        }
        assert forall|x: int, j: int|
            #![trigger r[x].1[j]]
            0 <= x < r.len() && 0 <= j < r[x].1.len() implies entry_sourced(args, scans, n, r[x].1[j].0, r[x].1[j].1) by {
            if i >= 0 && x == i && j < c[i].1.len() && j != find_key(c[i].1, key) {
                assert(r[x].1[j] == c[i].1[j]);
                assert(entry_sourced(args, scans, n - 1, c[i].1[j].0, c[i].1[j].1));
                let m = choose|m: int| 0 <= m < n - 1 && sourced_by(args, scans, m, c[i].1[j].0, c[i].1[j].1);
                assert(sourced_by(args, scans, m, r[x].1[j].0, r[x].1[j].1));
            } else if (i >= 0 && x != i) || (i < 0 && x < c.len()) {
                assert(r[x] == c[x]);
                assert(entry_sourced(args, scans, n - 1, c[x].1[j].0, c[x].1[j].1));
                let m = choose|m: int| 0 <= m < n - 1 && sourced_by(args, scans, m, c[x].1[j].0, c[x].1[j].1);
                assert(sourced_by(args, scans, m, r[x].1[j].0, r[x].1[j].1));
            } else {
                assert(r[x].1[j] == (key, e));
                assert(sourced_by(args, scans, n - 1, r[x].1[j].0, r[x].1[j].1));
            }
        }
    } else {
        assert(r == c);
        assert forall|x: int, j: int|
            #![trigger r[x].1[j]]
            0 <= x < r.len() && 0 <= j < r[x].1.len() implies entry_sourced(args, scans, n, r[x].1[j].0, r[x].1[j].1) by {
            assert(entry_sourced(args, scans, n - 1, c[x].1[j].0, c[x].1[j].1));
            let m = choose|m: int| 0 <= m < n - 1 && sourced_by(args, scans, m, c[x].1[j].0, c[x].1[j].1);
            assert(sourced_by(args, scans, m, r[x].1[j].0, r[x].1[j].1));
        }
    }
}

/// Every entry that packages put in a catalog records, as its `size`, the
/// length of a decoded package filed at that entry's key. (An override
/// document may set any value; this speaks of the catalog before overrides
/// are applied.)
pub proof fn lemma_sizes_sourced(args: GenerateArgs, scans: Seq<PackageScan>, n: int)
    requires
        0 <= n <= scans.len(),
    ensures
        all_sizes_sourced(scans_filed(initial_catalog(), args, scans, n), args, scans, n),
    decreases n,
{
    if n > 0 {
        lemma_sizes_sourced(args, scans, n - 1);
        lemma_sizes_step(scans_filed(initial_catalog(), args, scans, n - 1), args, scans, n);
    } else {
        let c = initial_catalog();
        assert forall|x: int, j: int|
            #![trigger c[x].1[j]]
            0 <= x < c.len() && 0 <= j < c[x].1.len() implies entry_sourced(args, scans, n, c[x].1[j].0, c[x].1[j].1) by {}
    }
}

} // verus!
