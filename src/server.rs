//! Decisions of the HTTP file server: the directory mapping, how a request
//! path resolves, how a `Range` header is honoured, and the HTML listings.
//! The server loop and the file streaming stand outside the library.

use vstd::prelude::*;
use crate::text::{decimal_of, decimal_string, join2, join3, str_equal};
use crate::catalog::{colon_index, lemma_put_unique, put, split_path_arg};
use crate::json::{find_key, lemma_find_key_bounds, lemma_find_key_first, unique_keys};
use crate::url::{decode_path, percent_decoded};
use crate::text::utf8_lossy;
use vstd::utf8::encode_utf8;

verus! {

/// Value of a decimal digit, or -1.
pub open spec fn digit_value(c: char) -> int {
    let v = c as u32;
    if 0x30 <= v <= 0x39 {
        v - 0x30
    } else {
        -1
    }
}

pub open spec fn all_digits(s: Seq<char>) -> bool {
    forall|i: int| 0 <= i < s.len() ==> digit_value(#[trigger] s[i]) >= 0
}

/// The number that the decimal digits `s` spell.
pub open spec fn decimal_value(s: Seq<char>) -> int
    decreases s.len(),
{
    if s.len() == 0 {
        0
    } else {
        10 * decimal_value(s.drop_last()) + digit_value(s.last())
    }
}

/// Index of the first `-` in `s`, or -1.
pub open spec fn dash_index(s: Seq<char>) -> int
    decreases s.len(),
{
    if s.len() == 0 {
        -1
    } else if dash_index(s.drop_last()) >= 0 {
        dash_index(s.drop_last())
    } else if s.last() == '-' {
        s.len() - 1
    } else {
        -1
    }
}

/// How a file is sent: whole, or the inclusive byte range `start..=end`.
#[derive(Debug, Clone, Copy, PartialEq, Eq, Structural)]
pub enum RangePlan {
    Full,
    Partial(u64, u64),
}

/// The bound that a decimal field gives, when it is one: non-empty, digits
/// only, and small enough for a `u64`.
pub open spec fn bound_of(s: Seq<char>) -> Option<u64> {
    if s.len() > 0 && all_digits(s) && decimal_value(s) <= u64::MAX {
        Some(decimal_value(s) as u64)
    } else {
        None
    }
}

/// What a `Range` header asks of a file of `size` bytes. `bytes=a-b` with
/// `a <= b < size` is honoured; `bytes=a-` runs to the end of the file;
/// anything else, malformed or out of bounds, falls back to the whole file.
pub open spec fn range_plan(h: Seq<char>, size: u64) -> RangePlan {
    if h.len() >= 6 && h.subrange(0, 6) == "bytes="@ {
        let rest = h.subrange(6, h.len() as int);
        let d = dash_index(rest);
        if d < 0 {
            RangePlan::Full
        } else {
            let a = bound_of(rest.subrange(0, d));
            let tail = rest.subrange(d + 1, rest.len() as int);
            let b: Option<int> = if tail.len() == 0 {
                Some(size - 1)
            } else {
                match bound_of(tail) {
                    Some(v) => Some(v as int),
                    None => None,
                }
            };
            match (a, b) {
                (Some(a), Some(b)) => if a <= b && b < size {
                    RangePlan::Partial(a, b as u64)
                } else {
                    RangePlan::Full
                },
                _ => RangePlan::Full,
            }
        }
    } else {
        RangePlan::Full
    }
}

proof fn lemma_decimal_monotone(s: Seq<char>, k: int)
    requires
        0 <= k <= s.len(),
        all_digits(s),
    ensures
        0 <= decimal_value(s.subrange(0, k)) <= decimal_value(s),
    decreases s.len(),
{
    if s.len() > k {
        assert(s.drop_last().subrange(0, k) =~= s.subrange(0, k));
        lemma_decimal_monotone(s.drop_last(), k);
    } else {
        assert(s.subrange(0, k) =~= s);
        if s.len() > 0 {
            lemma_decimal_monotone(s.drop_last(), k - 1);
            assert(s.drop_last().subrange(0, k - 1) =~= s.drop_last());
        }
    }
}

/// The bound spelled by the characters `from..to` of `s`.
fn parse_bound(s: &str, from: usize, to: usize) -> (r: Option<u64>)
    requires
        from <= to <= s@.len(),
    ensures
        r == bound_of(s@.subrange(from as int, to as int)),
{
    let ghost t = s@.subrange(from as int, to as int);
    if from == to {
        return None;
    }
    let mut acc: u64 = 0;
    let mut i: usize = from;
    assert(t.subrange(0, 0) =~= Seq::<char>::empty());
    while i < to
        invariant
            from <= i <= to,
            to <= s@.len(),
            t == s@.subrange(from as int, to as int),
            all_digits(t.subrange(0, i - from)),
            acc == decimal_value(t.subrange(0, i - from)),
        decreases to - i,
    {
        let c = s.get_char(i);
        let v = c as u32;
        if v < 0x30 || v > 0x39 {
            assert(t[i - from] == c);
            return None;
        }
        assert(t.subrange(0, i - from + 1).drop_last() =~= t.subrange(0, i - from));
        if acc > (u64::MAX - (v - 0x30) as u64) / 10 {
            proof {
                if all_digits(t) {
                    lemma_decimal_monotone(t, i - from + 1);
                }
            }
            return None;
        }
        acc = 10 * acc + (v - 0x30) as u64;
        i = i + 1;
    }
    assert(t.subrange(0, to - from) =~= t);
    Some(acc)
}

/// Index of the first `-` among the characters from `from` on, or -1
/// relative to `from`.
fn find_dash(s: &str, from: usize) -> (r: Option<usize>)
    requires
        from <= s@.len(),
    ensures
        r is Some <==> dash_index(s@.subrange(from as int, s@.len() as int)) >= 0,
        r is Some ==> r->Some_0 == from + dash_index(s@.subrange(from as int, s@.len() as int)),
        r is Some ==> r->Some_0 < s@.len() && s@[r->Some_0 as int] == '-',
{
    let ghost t = s@.subrange(from as int, s@.len() as int);
    let n = s.unicode_len();
    let mut i: usize = from;
    assert(t.subrange(0, 0) =~= Seq::<char>::empty());
    while i < n
        invariant
            from <= i <= n,
            n == s@.len(),
            t == s@.subrange(from as int, n as int),
            dash_index(t.subrange(0, i - from)) == -1,
        decreases n - i,
    {
        assert(t.subrange(0, i - from + 1).drop_last() =~= t.subrange(0, i - from));
        if s.get_char(i) == '-' {
            proof {
                lemma_dash_first(t, i - from);
            }
            return Some(i);
        }
        i = i + 1;
    }
    assert(t.subrange(0, n - from) =~= t);
    None
}

proof fn lemma_dash_first(s: Seq<char>, i: int)
    requires
        0 <= i < s.len(),
        s[i] == '-',
        dash_index(s.subrange(0, i)) == -1,
    ensures
        dash_index(s) == i,
    decreases s.len(),
{
    if s.len() > i + 1 {
        assert(s.drop_last().subrange(0, i) =~= s.subrange(0, i));
        lemma_dash_first(s.drop_last(), i);
    } else {
        assert(s.drop_last() =~= s.subrange(0, i));
    }
}

/// Decides how to send a file of `size` bytes for a request that carried
/// the `Range` header `header`, if any.
pub fn plan_range(header: Option<&str>, size: u64) -> (r: RangePlan)
    ensures
        header is None ==> r == RangePlan::Full,
        header is Some ==> r == range_plan(header->Some_0@, size),
{
    let h = match header {
        Some(h) => h,
        None => {
            return RangePlan::Full;
        },
    };
    let n = h.unicode_len();
    if n < 6 {
        return RangePlan::Full;
    }
    let prefix = h.substring_char(0, 6);
    if !str_equal(prefix, "bytes=") {
        return RangePlan::Full;
    }
    let ghost rest = h@.subrange(6, n as int);
    let d = match find_dash(h, 6) {
        Some(d) => d,
        None => {
            return RangePlan::Full;
        },
    };
    assert(rest.subrange(0, d - 6) =~= h@.subrange(6, d as int));
    assert(rest.subrange(d - 6 + 1, rest.len() as int) =~= h@.subrange(d + 1, n as int));
    let a = match parse_bound(h, 6, d) {
        Some(a) => a,
        None => {
            return RangePlan::Full;
        },
    };
    let b = if d + 1 == n {
        if size == 0 {
            return RangePlan::Full;
        }
        size - 1
    } else {
        match parse_bound(h, d + 1, n) {
            Some(b) => b,
            None => {
                return RangePlan::Full;
            },
        }
    };
    if a <= b && b < size {
        RangePlan::Partial(a, b)
    } else {
        RangePlan::Full
    }
}

/// The `Content-Range` value of a partial response: `bytes a-b/size`.
pub fn content_range(start: u64, end: u64, size: u64) -> (r: String)
    ensures
        r@ == "bytes "@ + decimal_of(start as nat) + "-"@ + decimal_of(end as nat) + "/"@
            + decimal_of(size as nat),
{
    let a = decimal_string(start);
    let b = decimal_string(end);
    let n = decimal_string(size);
    let head = join3("bytes ", a.as_str(), "-");
    let tail = join3(b.as_str(), "/", n.as_str());
    join2(head.as_str(), tail.as_str())
}

proof fn lemma_digit_value(k: int)
    requires
        0 <= k < 10,
    ensures
        digit_value(crate::text::decimal_digit(k)) == k,
{
    if k == 0 { assert(digit_value('0') == 0); }
    else if k == 1 { assert(digit_value('1') == 1); }
    else if k == 2 { assert(digit_value('2') == 2); }
    else if k == 3 { assert(digit_value('3') == 3); }
    else if k == 4 { assert(digit_value('4') == 4); }
    else if k == 5 { assert(digit_value('5') == 5); }
    else if k == 6 { assert(digit_value('6') == 6); }
    else if k == 7 { assert(digit_value('7') == 7); }
    else if k == 8 { assert(digit_value('8') == 8); }
    else { assert(digit_value('9') == 9); }
}

proof fn lemma_decimal_digits(n: nat)
    ensures
        decimal_of(n).len() > 0,
        all_digits(decimal_of(n)),
        decimal_value(decimal_of(n)) == n,
    decreases n,
{
    lemma_digit_value((n % 10) as int);
    if n < 10 {
        assert(n % 10 == n);
        assert(decimal_of(n).drop_last() =~= Seq::<char>::empty());
        assert(decimal_value(decimal_of(n).drop_last()) == 0);
    } else {
        assert(10 * (n / 10) + n % 10 == n) by (nonlinear_arith);
        lemma_decimal_digits(n / 10);
        let s = decimal_of(n);
        assert(s.drop_last() =~= decimal_of(n / 10));
        assert forall|i: int| 0 <= i < s.len() implies digit_value(#[trigger] s[i]) >= 0 by {
            if i < s.len() - 1 {
                assert(s[i] == decimal_of(n / 10)[i]);
            }
        }
    }
}

proof fn lemma_no_dash(s: Seq<char>)
    requires
        all_digits(s),
    ensures
        dash_index(s) == -1,
    decreases s.len(),
{
    if s.len() > 0 {
        assert(digit_value(s[s.len() - 1]) >= 0);
        lemma_no_dash(s.drop_last());
    }
}

/// The header `bytes=a-b`, with `a` and `b` in decimal.
pub open spec fn range_header(a: nat, b: nat) -> Seq<char> {
    "bytes="@ + decimal_of(a) + "-"@ + decimal_of(b)
}

/// The header `bytes=a-`, with `a` in decimal.
pub open spec fn open_range_header(a: nat) -> Seq<char> {
    "bytes="@ + decimal_of(a) + "-"@
}

proof fn lemma_range_parts(a: nat, tail: Seq<char>)
    ensures
        ({
            let h = "bytes="@ + decimal_of(a) + "-"@ + tail;
            let rest = h.subrange(6, h.len() as int);
            let d = dash_index(rest);
            &&& h.len() >= 6 && h.subrange(0, 6) == "bytes="@
            &&& d == decimal_of(a).len()
            &&& rest.subrange(0, d) == decimal_of(a)
            &&& rest.subrange(d + 1, rest.len() as int) == tail
        }),
{
    reveal_strlit("bytes=");
    reveal_strlit("-");
    let h = "bytes="@ + decimal_of(a) + "-"@ + tail;
    let rest = h.subrange(6, h.len() as int);
    let k = decimal_of(a).len() as int;
    lemma_decimal_digits(a);
    assert(h.subrange(0, 6) =~= "bytes="@);
    assert(rest.subrange(0, k) =~= decimal_of(a));
    assert(rest.subrange(k + 1, rest.len() as int) =~= tail);
    lemma_no_dash(decimal_of(a));
    assert(rest[k] == '-');
    lemma_dash_first(rest, k);
}

/// What `bytes=a-b` and `bytes=a-` ask of a file of `size` bytes.
pub proof fn lemma_range_headers(a: u64, b: u64, size: u64)
    ensures
        range_plan(range_header(a as nat, b as nat), size) == if a <= b && b < size {
            RangePlan::Partial(a, b)
        } else {
            RangePlan::Full
        },
        range_plan(open_range_header(a as nat), size) == if size > 0 && a <= size - 1 {
            RangePlan::Partial(a, (size - 1) as u64)
        } else {
            RangePlan::Full
        },
{
    lemma_decimal_digits(a as nat);
    lemma_decimal_digits(b as nat);
    lemma_range_parts(a as nat, decimal_of(b as nat));
    lemma_range_parts(a as nat, Seq::empty());
    assert(open_range_header(a as nat) =~= "bytes="@ + decimal_of(a as nat) + "-"@ + Seq::<
        char,
    >::empty());
}

/// Range requests on a file of `n >= 10` bytes: `bytes=0-4` gives the five
/// bytes 0 to 4; `bytes=5-` gives bytes 5 to `n - 1`; `bytes=n-n` is out of
/// bounds and gives the whole file.
pub proof fn lemma_range_examples(n: u64)
    requires
        n >= 10,
    ensures
        range_plan("bytes=0-4"@, n) == RangePlan::Partial(0, 4),
        range_plan("bytes=5-"@, n) == RangePlan::Partial(5, (n - 1) as u64),
        range_plan(range_header(n as nat, n as nat), n) == RangePlan::Full,
{
    reveal_strlit("bytes=0-4");
    reveal_strlit("bytes=5-");
    reveal_strlit("bytes=");
    reveal_strlit("-");
    lemma_range_headers(0, 4, n);
    lemma_range_headers(5, 5, n);
    lemma_range_headers(n, n, n);
    assert(decimal_of(0) =~= seq!['0']);
    assert(decimal_of(4) =~= seq!['4']);
    assert(decimal_of(5) =~= seq!['5']);
    assert("bytes=0-4"@ =~= range_header(0, 4));
    assert("bytes=5-"@ =~= open_range_header(5));
}

/// What the character `to_lowercase` gives for a string.
pub uninterp spec fn lower_of(s: Seq<char>) -> Seq<char>;

/// Relies on `str::to_lowercase`, whose result depends on the characters
/// alone.
#[verifier::external_body]
fn lowercase(s: &str) -> (r: String)
    ensures
        r@ == lower_of(s@),
{
    s.to_lowercase()
}

/// The key that listings sort by: the UTF-8 bytes of the lowercased name.
pub open spec fn sort_key(s: Seq<char>) -> Seq<u8> {
    encode_utf8(lower_of(s))
}

/// Strict lexicographic order on byte sequences (the order of `str`).
pub open spec fn bytes_lt(a: Seq<u8>, b: Seq<u8>) -> bool
    decreases a.len(),
{
    if b.len() == 0 {
        false
    } else if a.len() == 0 {
        true
    } else if a[0] != b[0] {
        a[0] < b[0]
    } else {
        bytes_lt(a.drop_first(), b.drop_first())
    }
}

proof fn lemma_bytes_lt_transitive(a: Seq<u8>, b: Seq<u8>, c: Seq<u8>)
    requires
        bytes_lt(a, b),
        bytes_lt(b, c),
    ensures
        bytes_lt(a, c),
    decreases a.len(),
{
    if a.len() > 0 && a[0] == b[0] && b[0] == c[0] {
        lemma_bytes_lt_transitive(a.drop_first(), b.drop_first(), c.drop_first());
    }
}

proof fn lemma_bytes_lt_asymmetric(a: Seq<u8>, b: Seq<u8>)
    ensures
        !(bytes_lt(a, b) && bytes_lt(b, a)),
    decreases a.len(),
{
    if a.len() > 0 && b.len() > 0 && a[0] == b[0] {
        lemma_bytes_lt_asymmetric(a.drop_first(), b.drop_first());
    }
}

fn less_bytes(a: &Vec<u8>, b: &Vec<u8>) -> (r: bool)
    ensures
        r == bytes_lt(a@, b@),
{
    let mut i: usize = 0;
    assert(a@.skip(0) =~= a@);
    assert(b@.skip(0) =~= b@);
    while i < a.len() && i < b.len() && a[i] == b[i]
        invariant
            i <= a@.len(),
            i <= b@.len(),
            bytes_lt(a@, b@) == bytes_lt(a@.skip(i as int), b@.skip(i as int)),
        decreases a@.len() - i,
    {
        assert(a@.skip(i as int).drop_first() =~= a@.skip(i + 1));
        assert(b@.skip(i as int).drop_first() =~= b@.skip(i + 1));
        i = i + 1;
    }
    if i == b.len() {
        false
    } else if i == a.len() {
        true
    } else {
        a[i] < b[i]
    }
}

fn key_of(s: &String) -> (r: Vec<u8>)
    ensures
        r@ == sort_key(s@),
{
    let l = lowercase(s.as_str());
    l.as_str().as_bytes_vec()
}

/// No name is followed by one that sorts strictly before it.
pub open spec fn sorted_by_key(s: Seq<String>) -> bool {
    forall|i: int, j: int| 0 <= i < j < s.len() ==> !bytes_lt(sort_key(s[j]@), sort_key(s[i]@))
}

/// Sorts names case-insensitively; names that compare equal keep their
/// order.
pub fn sort_names(names: Vec<String>) -> (r: Vec<String>)
    ensures
        r@.to_multiset() == names@.to_multiset(),
        sorted_by_key(r@),
{
    broadcast use vstd::seq_lib::to_multiset_build, vstd::seq_lib::to_multiset_insert;

    let mut r: Vec<String> = Vec::new();
    let mut i: usize = 0;
    assert(names@.subrange(0, 0) =~= Seq::<String>::empty());
    while i < names.len()
        invariant
            i <= names@.len(),
            r@.to_multiset() == names@.subrange(0, i as int).to_multiset(),
            sorted_by_key(r@),
        decreases names@.len() - i,
    {
        let x = names[i].clone();
        let kx = key_of(&x);
        let mut p: usize = 0;
        while p < r.len()
            invariant
                p <= r@.len(),
                forall|q: int| 0 <= q < p ==> !bytes_lt(kx@, sort_key(#[trigger] r@[q]@)),
            ensures
                p <= r@.len(),
                forall|q: int| 0 <= q < p ==> !bytes_lt(kx@, sort_key(#[trigger] r@[q]@)),
                p < r@.len() ==> bytes_lt(kx@, sort_key(r@[p as int]@)),
            decreases r@.len() - p,
        {
            let kp = key_of(&r[p]);
            if less_bytes(&kx, &kp) {
                break;
            }
            p = p + 1;
        }
        let ghost before = r@;
        proof {
            vstd::seq_lib::to_multiset_insert(before, p as int, x);
            vstd::seq_lib::to_multiset_build(names@.subrange(0, i as int), names@[i as int]);
        }
        r.insert(p, x);
        assert forall|a: int, b: int| 0 <= a < b < r@.len() implies !bytes_lt(
            sort_key(r@[b]@),
            sort_key(r@[a]@),
        ) by {
            if a < p && b == p {
            } else if a == p && b > p {
                let y = sort_key(before[b - 1]@);
                if bytes_lt(y, kx@) {
                    if p + 1 < b {
                        lemma_bytes_lt_transitive(y, kx@, sort_key(before[p as int]@));
                    } else {
                        lemma_bytes_lt_asymmetric(y, kx@);
                    }
                }
            } else if a < p && b > p {
            } else {
            }
        }
        assert(names@.subrange(0, i + 1) =~= names@.subrange(0, i as int).push(names@[i as int]));
        i = i + 1;
    }
    assert(names@.subrange(0, names@.len() as int) =~= names@);
    r
}

/// What the filesystem holds at a path.
#[derive(Debug, Clone, Copy, PartialEq, Eq, Structural)]
pub enum PathKind {
    Missing,
    Directory,
    File,
}

/// The name and the path that a `name:path` directory argument gives;
/// without a `:` the argument is both.
pub open spec fn dir_spec_parts(s: Seq<char>) -> (Seq<char>, Seq<char>) {
    if colon_index(s) >= 0 {
        (s.subrange(0, colon_index(s)), s.subrange(colon_index(s) + 1, s.len() as int))
    } else {
        (s, s)
    }
}

/// The mapping from the first `n` pairs: a later pair with the same name
/// replaces the earlier path in place.
pub open spec fn mapping_of(d: Seq<(Seq<char>, Seq<char>)>, n: int) -> Seq<(Seq<char>, Seq<char>)>
    decreases n,
{
    if n <= 0 || n > d.len() {
        Seq::empty()
    } else {
        put(mapping_of(d, n - 1), d[n - 1].0, d[n - 1].1)
    }
}

pub open spec fn pairs_text(s: Seq<(String, String)>) -> Seq<(Seq<char>, Seq<char>)> {
    s.map_values(|p: (String, String)| (p.0@, p.1@))
}

/// The directories a server exposes: names mapped to filesystem paths,
/// names unique.
#[derive(Debug)]
pub struct ServerConfig {
    pub directories: Vec<(String, String)>,
}

impl View for ServerConfig {
    type V = Seq<(Seq<char>, Seq<char>)>;

    open spec fn view(&self) -> Seq<(Seq<char>, Seq<char>)> {
        pairs_text(self.directories@)
    }
}

fn position_of_name(v: &Vec<(String, String)>, name: &str) -> (r: Option<usize>)
    ensures
        r is Some <==> find_key(pairs_text(v@), name@) >= 0,
        r is Some ==> r->Some_0 == find_key(pairs_text(v@), name@),
{
    proof {
        lemma_find_key_bounds(pairs_text(v@), name@);
    }
    let mut i: usize = 0;
    while i < v.len()
        invariant
            i <= v@.len(),
            forall|j: int| 0 <= j < i ==> pairs_text(v@)[j].0 != name@,
        decreases v@.len() - i,
    {
        if str_equal(v[i].0.as_str(), name) {
            proof {
                lemma_find_key_first(pairs_text(v@), name@, i as int);
            }
            return Some(i);
        }
        i = i + 1;
    }
    None
}

fn put_dir(v: &mut Vec<(String, String)>, name: String, path: String)
    ensures
        pairs_text(final(v)@) == put(pairs_text(old(v)@), name@, path@),
        unique_keys(pairs_text(old(v)@)) ==> unique_keys(pairs_text(final(v)@)),
{
    proof {
        lemma_find_key_bounds(pairs_text(v@), name@);
        if unique_keys(pairs_text(v@)) {
            lemma_put_unique(pairs_text(v@), name@, path@);
        }
    }
    match position_of_name(v, name.as_str()) {
        Some(p) => {
            let _ = v.remove(p);
            v.insert(p, (name, path));
        },
        None => {
            v.push((name, path));
        },
    }
    assert(pairs_text(v@) =~= put(pairs_text(old(v)@), name@, path@));
}

impl ServerConfig {
    /// A configuration from `(name, path)` pairs; a later pair with the
    /// same name replaces the earlier one.
    pub fn new(directories: Vec<(String, String)>) -> (r: ServerConfig)
        ensures
            r@ == mapping_of(pairs_text(directories@), directories@.len() as int),
            unique_keys(r@),
    {
        let mut dirs: Vec<(String, String)> = Vec::new();
        let mut rest = directories;
        let ghost all = pairs_text(rest@);
        let n = rest.len();
        let mut i: usize = 0;
        assert(pairs_text(dirs@) =~= Seq::<(Seq<char>, Seq<char>)>::empty());
        while i < n
            invariant
                i <= n,
                n == all.len(),
                rest@.len() == n - i,
                forall|j: int| 0 <= j < n - i ==> (#[trigger] rest@[j]).0@ == all[i + j].0 && rest@[j].1@
                    == all[i + j].1,
                pairs_text(dirs@) == mapping_of(all, i as int),
                unique_keys(pairs_text(dirs@)),
            decreases n - i,
        {
            let (name, path) = rest.remove(0);
            put_dir(&mut dirs, name, path);
            i = i + 1;
        }
        ServerConfig { directories: dirs }
    }

    /// The filesystem path mapped to `name`.
    pub fn path_of(&self, name: &str) -> (r: Option<String>)
        ensures
            r is Some <==> find_key(self@, name@) >= 0,
            r is Some ==> r->Some_0@ == self@[find_key(self@, name@)].1,
    {
        proof {
            lemma_find_key_bounds(self@, name@);
        }
        match position_of_name(&self.directories, name) {
            Some(p) => Some(self.directories[p].1.clone()),
            None => None,
        }
    }
}

/// The message of a directory argument whose path is not a directory.
pub open spec fn not_a_directory(path: Seq<char>) -> Seq<char> {
    "'"@ + path + "' is not a directory"@
}

/// The mapping the first `n` arguments give, or the message of the first
/// one whose path exists but is no directory.
pub open spec fn config_fold(d: Seq<(Seq<char>, PathKind)>, n: int) -> Result<
    Seq<(Seq<char>, Seq<char>)>,
    Seq<char>,
>
    decreases n,
{
    if n <= 0 || n > d.len() {
        Ok(Seq::empty())
    } else {
        match config_fold(d, n - 1) {
            Err(e) => Err(e),
            Ok(m) => {
                let parts = dir_spec_parts(d[n - 1].0);
                if d[n - 1].1 == PathKind::File {
                    Err(not_a_directory(parts.1))
                } else {
                    Ok(put(m, parts.0, parts.1))
                }
            },
        }
    }
}

/// What a list of directory arguments configures: paths that do not exist
/// are kept (the server answers 404 for them), a path that is not a
/// directory is an error, and an empty mapping is an error.
pub open spec fn config_result(d: Seq<(Seq<char>, PathKind)>) -> Result<
    Seq<(Seq<char>, Seq<char>)>,
    Seq<char>,
> {
    match config_fold(d, d.len() as int) {
        Err(e) => Err(e),
        Ok(m) => if m.len() == 0 {
            Err("No valid directories specified"@)
        } else {
            Ok(m)
        },
    }
}

proof fn lemma_config_err_persists(d: Seq<(Seq<char>, PathKind)>, n: int, m: int)
    requires
        0 <= n <= m <= d.len(),
        config_fold(d, n) is Err,
    ensures
        config_fold(d, m) == config_fold(d, n),
    decreases m - n,
{
    if m > n {
        lemma_config_err_persists(d, n, m - 1);
    }
}

pub open spec fn args_text(s: Seq<(String, PathKind)>) -> Seq<(Seq<char>, PathKind)> {
    s.map_values(|p: (String, PathKind)| (p.0@, p.1))
}

/// Builds the directory mapping from `name:path` arguments, each with what
/// the filesystem holds at its path.
pub fn parse_config(dirs: &Vec<(String, PathKind)>) -> (r: Result<ServerConfig, String>)
    ensures
        r is Ok <==> config_result(args_text(dirs@)) is Ok,
        r is Ok ==> r->Ok_0@ == config_result(args_text(dirs@))->Ok_0,
        r is Err ==> r->Err_0@ == config_result(args_text(dirs@))->Err_0,
        r is Ok ==> unique_keys(r->Ok_0@),
{
    let ghost d = args_text(dirs@);
    let mut out: Vec<(String, String)> = Vec::new();
    let mut i: usize = 0;
    assert(pairs_text(out@) =~= Seq::<(Seq<char>, Seq<char>)>::empty());
    while i < dirs.len()
        invariant
            i <= dirs@.len(),
            d == args_text(dirs@),
            config_fold(d, i as int) == Ok::<Seq<(Seq<char>, Seq<char>)>, Seq<char>>(
                pairs_text(out@),
            ),
            unique_keys(pairs_text(out@)),
        decreases dirs@.len() - i,
    {
        let (name, path) = split_path_arg(dirs[i].0.as_str());
        assert(dir_spec_parts(d[i as int].0) == (name@, path@));
        if dirs[i].1 == PathKind::File {
            let msg = join3("'", path.as_str(), "' is not a directory");
            proof {
                lemma_config_err_persists(d, i + 1, d.len() as int);
            }
            return Err(msg);
        }
        put_dir(&mut out, name, path);
        i = i + 1;
    }
    if out.len() == 0 {
        return Err("No valid directories specified".to_owned());
    }
    Ok(ServerConfig { directories: out })
}

/// `s` without its leading `/` characters.
pub open spec fn trim_leading_slashes(s: Seq<char>) -> Seq<char>
    decreases s.len(),
{
    if s.len() > 0 && s[0] == '/' {
        trim_leading_slashes(s.drop_first())
    } else {
        s
    }
}

/// `s` without its trailing `/` characters.
pub open spec fn trim_trailing_slashes(s: Seq<char>) -> Seq<char>
    decreases s.len(),
{
    if s.len() > 0 && s.last() == '/' {
        trim_trailing_slashes(s.drop_last())
    } else {
        s
    }
}

/// Index of the first `/` in `s`, or -1.
pub open spec fn slash_index(s: Seq<char>) -> int
    decreases s.len(),
{
    if s.len() == 0 {
        -1
    } else if slash_index(s.drop_last()) >= 0 {
        slash_index(s.drop_last())
    } else if s.last() == '/' {
        s.len() - 1
    } else {
        -1
    }
}

/// `s` has a `..` path segment.
pub open spec fn has_parent_segment(s: Seq<char>) -> bool {
    exists|i: int|
        0 <= i && i + 2 <= s.len() && #[trigger] s[i] == '.' && s[i + 1] == '.' && (i == 0 || s[i
            - 1] == '/') && (i + 2 == s.len() || s[i + 2] == '/')
}

/// The mapped directory name and the sub-path of a decoded request path
/// without its leading slashes.
pub open spec fn request_parts(decoded: Seq<char>) -> (Seq<char>, Seq<char>) {
    let i = slash_index(decoded);
    if i >= 0 {
        (decoded.subrange(0, i), trim_trailing_slashes(decoded.subrange(i + 1, decoded.len() as int)))
    } else {
        (trim_trailing_slashes(decoded), Seq::empty())
    }
}

/// Where a request path leads, before the filesystem is asked.
#[derive(Debug)]
pub enum Resolution {
    /// The page that lists the mapped directories.
    Index,
    /// No mapped directory, or a path that climbs out of one.
    NotFound,
    /// A path inside a mapped directory. `request_path` is the request's
    /// own (still encoded) path with one leading `/`.
    Mapped { fs_path: String, request_path: String, trailing_slash: bool },
}

/// What the server does for a request.
#[derive(Debug)]
pub enum Action {
    ShowIndex,
    NotFound,
    ServeFile { fs_path: String },
    ShowListing { fs_path: String, request_path: String },
    Redirect { location: String },
}

fn trim_leading(s: &str) -> (r: String)
    ensures
        r@ == trim_leading_slashes(s@),
{
    let n = s.unicode_len();
    let mut k: usize = 0;
    assert(s@.subrange(0, n as int) =~= s@);
    while k < n && s.get_char(k) == '/'
        invariant
            k <= n,
            n == s@.len(),
            trim_leading_slashes(s@) == trim_leading_slashes(s@.subrange(k as int, n as int)),
        decreases n - k,
    {
        assert(s@.subrange(k as int, n as int).drop_first() =~= s@.subrange(k + 1, n as int));
        k = k + 1;
    }
    assert(s@.subrange(0, n as int) =~= s@);
    s.substring_char(k, n).to_owned()
}

fn trim_trailing(s: &str) -> (r: String)
    ensures
        r@ == trim_trailing_slashes(s@),
{
    let n = s.unicode_len();
    let mut k: usize = n;
    assert(s@.subrange(0, n as int) =~= s@);
    while k > 0 && s.get_char(k - 1) == '/'
        invariant
            k <= n,
            n == s@.len(),
            trim_trailing_slashes(s@) == trim_trailing_slashes(s@.subrange(0, k as int)),
        decreases k,
    {
        assert(s@.subrange(0, k as int).drop_last() =~= s@.subrange(0, k - 1));
        k = k - 1;
    }
    s.substring_char(0, k).to_owned()
}

fn find_slash(s: &str) -> (r: Option<usize>)
    ensures
        r is Some <==> slash_index(s@) >= 0,
        r is Some ==> r->Some_0 == slash_index(s@) && r->Some_0 < s@.len(),
{
    let n = s.unicode_len();
    let mut i: usize = 0;
    while i < n
        invariant
            i <= n,
            n == s@.len(),
            slash_index(s@.subrange(0, i as int)) == -1,
        decreases n - i,
    {
        assert(s@.subrange(0, i + 1).drop_last() =~= s@.subrange(0, i as int));
        if s.get_char(i) == '/' {
            proof {
                lemma_slash_first(s@, i as int);
            }
            return Some(i);
        }
        i = i + 1;
    }
    assert(s@.subrange(0, n as int) =~= s@);
    None
}

proof fn lemma_slash_first(s: Seq<char>, i: int)
    requires
        0 <= i < s.len(),
        s[i] == '/',
        slash_index(s.subrange(0, i)) == -1,
    ensures
        slash_index(s) == i,
    decreases s.len(),
{
    if s.len() > i + 1 {
        assert(s.drop_last().subrange(0, i) =~= s.subrange(0, i));
        lemma_slash_first(s.drop_last(), i);
    } else {
        assert(s.drop_last() =~= s.subrange(0, i));
    }
}

fn parent_segment(s: &str) -> (r: bool)
    ensures
        r == has_parent_segment(s@),
{
    let n = s.unicode_len();
    let mut i: usize = 0;
    while n >= 2 && i <= n - 2
        invariant
            i <= n,
            n == s@.len(),
            forall|j: int|
                0 <= j < i && j + 2 <= n ==> !(#[trigger] s@[j] == '.' && s@[j + 1] == '.' && (j == 0
                    || s@[j - 1] == '/') && (j + 2 == n || s@[j + 2] == '/')),
        decreases n + 2 - i,
    {
        if s.get_char(i) == '.' && s.get_char(i + 1) == '.' && (i == 0 || s.get_char(i - 1) == '/')
            && (i + 2 == n || s.get_char(i + 2) == '/') {
            return true;
        }
        i = i + 1;
    }
    false
}

/// The request path with one leading `/`.
pub open spec fn request_path_of(path: Seq<char>) -> Seq<char> {
    "/"@ + trim_leading_slashes(path)
}

/// Where the request path `path` leads: `/` is the index; otherwise the
/// path, without its leading slashes, is percent-decoded once and split at
/// its first `/` into a directory name and a sub-path.
pub fn resolve_request(config: &ServerConfig, path: &str) -> (r: Resolution)
    ensures
        path@ == "/"@ ==> r is Index,
        path@ != "/"@ ==> {
            let decoded = utf8_lossy(percent_decoded(encode_utf8(trim_leading_slashes(path@))));
            let (base, sub) = request_parts(decoded);
            let i = find_key(config@, base);
            if i < 0 || has_parent_segment(sub) {
                r is NotFound
            } else {
                &&& r is Mapped
                &&& r->fs_path@ == if sub.len() == 0 {
                    config@[i].1
                } else {
                    config@[i].1 + "/"@ + sub
                }
                &&& r->request_path@ == request_path_of(path@)
                &&& r->trailing_slash == (path@.len() > 0 && path@.last() == '/')
            }
        },
{
    if str_equal(path, "/") {
        return Resolution::Index;
    }
    let clean = trim_leading(path);
    let decoded = decode_path(clean.as_str());
    let (base, sub) = match find_slash(decoded.as_str()) {
        Some(i) => {
            let n = decoded.as_str().unicode_len();
            let b = decoded.as_str().substring_char(0, i).to_owned();
            let tail = decoded.as_str().substring_char(i + 1, n);
            (b, trim_trailing(tail))
        },
        None => (trim_trailing(decoded.as_str()), String::new()),
    };
    let root = match config.path_of(base.as_str()) {
        Some(root) => root,
        None => {
            return Resolution::NotFound;
        },
    };
    if parent_segment(sub.as_str()) {
        return Resolution::NotFound;
    }
    let fs_path = if sub.as_str().is_empty() {
        root
    } else {
        join3(root.as_str(), "/", sub.as_str())
    };
    let n = path.unicode_len();
    let trailing_slash = n > 0 && path.get_char(n - 1) == '/';
    Resolution::Mapped {
        fs_path,
        request_path: join2("/", clean.as_str()),
        trailing_slash,
    }
}

/// What to do once the filesystem has said what a resolved path holds: a
/// file is served, a directory is listed when the request ends in `/` and
/// otherwise redirected to that form, anything else is not found.
pub fn decide_request(resolution: Resolution, kind: PathKind) -> (r: Action)
    ensures
        resolution is Index ==> r is ShowIndex,
        resolution is NotFound ==> r is NotFound,
        resolution is Mapped ==> match kind {
            PathKind::Missing => r is NotFound,
            PathKind::File => r is ServeFile && r->ServeFile_fs_path == resolution->Mapped_fs_path,
            PathKind::Directory => if resolution->Mapped_trailing_slash {
                r is ShowListing && r->ShowListing_fs_path == resolution->Mapped_fs_path
                    && r->ShowListing_request_path == resolution->Mapped_request_path
            } else {
                r is Redirect && r->location@ == resolution->Mapped_request_path@ + "/"@
            },
        },
{
    match resolution {
        Resolution::Index => Action::ShowIndex,
        Resolution::NotFound => Action::NotFound,
        Resolution::Mapped { fs_path, request_path, trailing_slash } => match kind {
            PathKind::Missing => Action::NotFound,
            PathKind::File => Action::ServeFile { fs_path },
            PathKind::Directory => if trailing_slash {
                Action::ShowListing { fs_path, request_path }
            } else {
                Action::Redirect { location: join2(request_path.as_str(), "/") }
            },
        },
    }
}

pub open spec fn texts(s: Seq<String>) -> Seq<Seq<char>> {
    s.map_values(|x: String| x@)
}

/// The list items of the index page, one link per directory name.
pub open spec fn index_items(names: Seq<Seq<char>>) -> Seq<char>
    decreases names.len(),
{
    if names.len() == 0 {
        Seq::empty()
    } else {
        index_items(names.drop_last()) + "<li><a href=\"/"@ + names.last() + "/\">/"@
            + names.last() + "</a></li>\n"@
    }
}

/// The index page for directory names in the order given.
pub open spec fn index_page(names: Seq<Seq<char>>) -> Seq<char> {
    "<!DOCTYPE html>\n<html>\n<head><title>FPKGi Server Index</title></head>\n<body>\n<h1>Available Directories</h1>\n<ul>\n"@
        + index_items(names) + "</ul>\n</body>\n</html>"@
}

/// The list items of a directory listing: each entry links to `base`,
/// `/`, its name.
pub open spec fn listing_items(base: Seq<char>, names: Seq<Seq<char>>) -> Seq<char>
    decreases names.len(),
{
    if names.len() == 0 {
        Seq::empty()
    } else {
        listing_items(base, names.drop_last()) + "<li><a href=\""@ + base + "/"@ + names.last()
            + "\">"@ + names.last() + "</a></li>\n"@
    }
}

/// The listing page of the directory at `request_path`, for entry names in
/// the order given.
pub open spec fn listing_page(request_path: Seq<char>, names: Seq<Seq<char>>) -> Seq<char> {
    "<!DOCTYPE html>\n<html>\n<head><title>Directory Listing</title></head>\n<body>\n<h1>Directory Contents</h1>\n<ul>\n"@
        + listing_items(trim_trailing_slashes(request_path), names) + "</ul>\n</body>\n</html>"@
}

/// The index page for `names`, in the order given.
pub fn render_index(names: &Vec<String>) -> (r: String)
    ensures
        r@ == index_page(texts(names@)),
{
    let mut items = String::new();
    let mut i: usize = 0;
    assert(texts(names@).subrange(0, 0) =~= Seq::<Seq<char>>::empty());
    while i < names.len()
        invariant
            i <= names@.len(),
            items@ == index_items(texts(names@).subrange(0, i as int)),
        decreases names@.len() - i,
    {
        let n = names[i].as_str();
        let a = join3("<li><a href=\"/", n, "/\">/");
        let b = join2(n, "</a></li>\n");
        items = join3(items.as_str(), a.as_str(), b.as_str());
        assert(texts(names@).subrange(0, i + 1).drop_last() =~= texts(names@).subrange(0, i as int));
        i = i + 1;
    }
    assert(texts(names@).subrange(0, names@.len() as int) =~= texts(names@));
    let head = "<!DOCTYPE html>\n<html>\n<head><title>FPKGi Server Index</title></head>\n<body>\n<h1>Available Directories</h1>\n<ul>\n";
    join3(head, items.as_str(), "</ul>\n</body>\n</html>")
}

/// The listing page of the directory at `request_path`, for `names` in the
/// order given.
pub fn render_listing(request_path: &str, names: &Vec<String>) -> (r: String)
    ensures
        r@ == listing_page(request_path@, texts(names@)),
{
    let base = trim_trailing(request_path);
    let mut items = String::new();
    let mut i: usize = 0;
    assert(texts(names@).subrange(0, 0) =~= Seq::<Seq<char>>::empty());
    while i < names.len()
        invariant
            i <= names@.len(),
            base@ == trim_trailing_slashes(request_path@),
            items@ == listing_items(base@, texts(names@).subrange(0, i as int)),
        decreases names@.len() - i,
    {
        let n = names[i].as_str();
        let a = join3("<li><a href=\"", base.as_str(), "/");
        let b = join3(n, "\">", n);
        let c = join2(b.as_str(), "</a></li>\n");
        let line = join2(a.as_str(), c.as_str());
        items = join2(items.as_str(), line.as_str());
        assert(texts(names@).subrange(0, i + 1).drop_last() =~= texts(names@).subrange(0, i as int));
        i = i + 1;
    }
    assert(texts(names@).subrange(0, names@.len() as int) =~= texts(names@));
    let head = "<!DOCTYPE html>\n<html>\n<head><title>Directory Listing</title></head>\n<body>\n<h1>Directory Contents</h1>\n<ul>\n";
    join3(head, items.as_str(), "</ul>\n</body>\n</html>")
}

/// The index page of a server: its directory names sorted
/// case-insensitively.
pub fn root_index(config: &ServerConfig) -> (r: String)
    ensures
        exists|s: Seq<String>|
            s.to_multiset() == config.directories@.map_values(|p: (String, String)| p.0).to_multiset()
                && sorted_by_key(s) && r@ == index_page(texts(s)),
{
    let mut names: Vec<String> = Vec::new();
    let mut i: usize = 0;
    while i < config.directories.len()
        invariant
            i <= config.directories@.len(),
            names@ == config.directories@.subrange(0, i as int).map_values(|p: (String, String)| p.0),
        decreases config.directories@.len() - i,
    {
        names.push(config.directories[i].0.clone());
        assert(names@ =~= config.directories@.subrange(0, i + 1).map_values(|p: (String, String)| p.0));
        i = i + 1;
    }
    assert(config.directories@.subrange(0, i as int) =~= config.directories@);
    let sorted = sort_names(names);
    render_index(&sorted)
}

/// The listing page of the directory at `request_path` holding entries
/// `names`, sorted case-insensitively.
pub fn dir_listing(request_path: &str, names: Vec<String>) -> (r: String)
    ensures
        exists|s: Seq<String>|
            s.to_multiset() == names@.to_multiset() && sorted_by_key(s) && r@ == listing_page(
                request_path@,
                texts(s),
            ),
{
    let sorted = sort_names(names);
    render_listing(request_path, &sorted)
}

} // verus!
