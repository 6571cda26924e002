//! A JSON value model, and the deep merge that applies operator-supplied
//! overrides to catalog entries.

use vstd::prelude::*;
use crate::text::str_equal;

verus! {

broadcast use vstd::std_specs::vec::group_vec_axioms;

/// A JSON value. A number is held as its literal text; an object as its
/// members in order.
#[derive(Debug)]
pub enum Json {
    Null,
    Bool(bool),
    Number(String),
    Str(String),
    Array(Vec<Json>),
    Object(Vec<(String, Json)>),
}

/// The mathematical value of a [`Json`].
pub enum JsonV {
    Null,
    Bool(bool),
    Number(Seq<char>),
    Str(Seq<char>),
    Array(Seq<JsonV>),
    Object(Seq<(Seq<char>, JsonV)>),
}

pub open spec fn json_view(j: Json) -> JsonV
    decreases j, 0int,
{
    match j {
        Json::Null => JsonV::Null,
        Json::Bool(b) => JsonV::Bool(b),
        Json::Number(n) => JsonV::Number(n@),
        Json::Str(s) => JsonV::Str(s@),
        Json::Array(v) => JsonV::Array(items_view(v@, v@.len() as int)),
        Json::Object(f) => JsonV::Object(fields_view(f@, f@.len() as int)),
    }
}

/// Views of the first `n` items of `s`.
pub open spec fn items_view(s: Seq<Json>, n: int) -> Seq<JsonV>
    decreases s, n,
{
    if n <= 0 || n > s.len() {
        Seq::empty()
    } else {
        items_view(s, n - 1).push(json_view(s[n - 1]))
    }
}

/// Views of the first `n` members of `s`.
pub open spec fn fields_view(s: Seq<(String, Json)>, n: int) -> Seq<(Seq<char>, JsonV)>
    decreases s, n,
{
    if n <= 0 || n > s.len() {
        Seq::empty()
    } else {
        fields_view(s, n - 1).push((s[n - 1].0@, json_view(s[n - 1].1)))
    }
}

impl View for Json {
    type V = JsonV;

    open spec fn view(&self) -> JsonV {
        json_view(*self)
    }
}

/// Members of `s` as a sequence of key/value views.
pub open spec fn fv(s: Seq<(String, Json)>) -> Seq<(Seq<char>, JsonV)> {
    fields_view(s, s.len() as int)
}

/// Items of `s` as a sequence of views.
pub open spec fn iv(s: Seq<Json>) -> Seq<JsonV> {
    items_view(s, s.len() as int)
}

proof fn lemma_fields_view(s: Seq<(String, Json)>, n: int)
    requires
        0 <= n <= s.len(),
    ensures
        fields_view(s, n).len() == n,
        forall|i: int|
            0 <= i < n ==> #[trigger] fields_view(s, n)[i] == (s[i].0@, json_view(s[i].1)),
    decreases n,
{
    if n > 0 {
        lemma_fields_view(s, n - 1);
    }
}

proof fn lemma_items_view(s: Seq<Json>, n: int)
    requires
        0 <= n <= s.len(),
    ensures
        items_view(s, n).len() == n,
        forall|i: int| 0 <= i < n ==> #[trigger] items_view(s, n)[i] == json_view(s[i]),
    decreases n,
{
    if n > 0 {
        lemma_items_view(s, n - 1);
    }
}

pub proof fn lemma_fv(s: Seq<(String, Json)>)
    ensures
        fv(s).len() == s.len(),
        forall|i: int| 0 <= i < s.len() ==> #[trigger] fv(s)[i] == (s[i].0@, json_view(s[i].1)),
{
    lemma_fields_view(s, s.len() as int);
}

proof fn lemma_iv(s: Seq<Json>)
    ensures
        iv(s).len() == s.len(),
        forall|i: int| 0 <= i < s.len() ==> #[trigger] iv(s)[i] == json_view(s[i]),
{
    lemma_items_view(s, s.len() as int);
}

/// Index of the first member with key `k`, or -1.
pub open spec fn find_key<V>(s: Seq<(Seq<char>, V)>, k: Seq<char>) -> int
    decreases s.len(),
{
    if s.len() == 0 {
        -1
    } else if find_key(s.drop_last(), k) >= 0 {
        find_key(s.drop_last(), k)
    } else if s.last().0 == k {
        s.len() - 1
    } else {
        -1
    }
}

/// `e` merged onto `b`: two objects merge member by member, anything else
/// is replaced by `e`.
pub open spec fn merge(b: JsonV, e: JsonV) -> JsonV
    decreases e, 0int,
{
    match e {
        JsonV::Object(ef) => match b {
            JsonV::Object(bf) => JsonV::Object(merge_fields(bf, ef, ef.len() as int)),
            _ => e,
        },
        _ => e,
    }
}

/// The members `bf` with the first `n` members of `ef` merged in, in order:
/// a key already present is merged in place, a new key is appended.
pub open spec fn merge_fields(
    bf: Seq<(Seq<char>, JsonV)>,
    ef: Seq<(Seq<char>, JsonV)>,
    n: int,
) -> Seq<(Seq<char>, JsonV)>
    decreases ef, n,
{
    if n <= 0 || n > ef.len() {
        bf
    } else {
        let acc = merge_fields(bf, ef, n - 1);
        let k = ef[n - 1].0;
        let i = find_key(acc, k);
        if i >= 0 {
            acc.update(i, (k, merge(acc[i].1, ef[n - 1].1)))
        } else {
            acc.push((k, ef[n - 1].1))
        }
    }
}

pub proof fn lemma_find_key_bounds<V>(s: Seq<(Seq<char>, V)>, k: Seq<char>)
    ensures
        -1 <= find_key(s, k) < s.len(),
        find_key(s, k) >= 0 ==> s[find_key(s, k)].0 == k,
        find_key(s, k) < 0 ==> forall|j: int| 0 <= j < s.len() ==> s[j].0 != k,
        find_key(s, k) >= 0 ==> forall|j: int| 0 <= j < find_key(s, k) ==> s[j].0 != k,
    decreases s.len(),
{
    if s.len() > 0 {
        lemma_find_key_bounds(s.drop_last(), k);
        assert forall|j: int| 0 <= j < s.len() - 1 implies s.drop_last()[j] == s[j] by {}
    }
}

pub proof fn lemma_find_key_first<V>(s: Seq<(Seq<char>, V)>, k: Seq<char>, i: int)
    requires
        0 <= i < s.len(),
        s[i].0 == k,
        forall|j: int| 0 <= j < i ==> s[j].0 != k,
    ensures
        find_key(s, k) == i,
    decreases s.len(),
{
    lemma_find_key_bounds(s, k);
    if s.len() > i + 1 {
        lemma_find_key_first(s.drop_last(), k, i);
    } else {
        lemma_find_key_bounds(s.drop_last(), k);
    }
}

/// A copy of `j`.
pub fn clone_json(j: &Json) -> (r: Json)
    ensures
        r@ == j@,
    decreases j,
{
    match j {
        Json::Null => Json::Null,
        Json::Bool(b) => Json::Bool(*b),
        Json::Number(n) => Json::Number(n.clone()),
        Json::Str(s) => Json::Str(s.clone()),
        Json::Array(v) => Json::Array(clone_items(v)),
        Json::Object(f) => Json::Object(clone_fields(f)),
    }
}

fn clone_items(v: &Vec<Json>) -> (r: Vec<Json>)
    ensures
        iv(r@) == iv(v@),
    decreases v,
{
    let mut r: Vec<Json> = Vec::new();
    let mut i: usize = 0;
    while i < v.len()
        invariant
            i <= v@.len(),
            r@.len() == i,
            forall|j: int| 0 <= j < i ==> #[trigger] json_view(r@[j]) == json_view(v@[j]),
        decreases v@.len() - i,
    {
        r.push(clone_json(&v[i]));
        i = i + 1;
    }
    proof {
        lemma_iv(r@);
        lemma_iv(v@);
    }
    assert(iv(r@) =~= iv(v@));
    r
}

pub fn clone_fields(f: &Vec<(String, Json)>) -> (r: Vec<(String, Json)>)
    ensures
        fv(r@) == fv(f@),
    decreases f,
{
    let mut r: Vec<(String, Json)> = Vec::new();
    let mut i: usize = 0;
    while i < f.len()
        invariant
            i <= f@.len(),
            r@.len() == i,
            forall|j: int|
                0 <= j < i ==> #[trigger] r@[j].0@ == f@[j].0@ && json_view(r@[j].1) == json_view(
                    f@[j].1,
                ),
        decreases f@.len() - i,
    {
        let k = f[i].0.clone();
        let v = clone_json(&f[i].1);
        r.push((k, v));
        i = i + 1;
    }
    proof {
        lemma_fv(r@);
        lemma_fv(f@);
    }
    assert(fv(r@) =~= fv(f@));
    r
}

/// Index of the first member of `f` with key `k`.
pub fn position_of_key(f: &Vec<(String, Json)>, k: &str) -> (r: Option<usize>)
    ensures
        r is Some <==> find_key(fv(f@), k@) >= 0,
        r is Some ==> r->Some_0 == find_key(fv(f@), k@),
{
    proof {
        lemma_fv(f@);
        lemma_find_key_bounds(fv(f@), k@);
    }
    let mut i: usize = 0;
    while i < f.len()
        invariant
            i <= f@.len(),
            fv(f@).len() == f@.len(),
            forall|j: int| 0 <= j < f@.len() ==> #[trigger] fv(f@)[j] == (f@[j].0@, json_view(f@[j].1)),
            forall|j: int| 0 <= j < i ==> fv(f@)[j].0 != k@,
        decreases f@.len() - i,
    {
        if str_equal(f[i].0.as_str(), k) {
            proof {
                lemma_find_key_first(fv(f@), k@, i as int);
            }
            return Some(i);
        }
        i = i + 1;
    }
    None
}

/// `external` merged onto `base`.
fn merge_owned(base: Json, external: &Json) -> (r: Json)
    ensures
        r@ == merge(base@, external@),
    decreases external,
{
    match external {
        Json::Object(ef) => match base {
            Json::Object(bf) => {
                proof {
                    lemma_fv(ef@);
                }
                Json::Object(merge_fields_exec(bf, ef))
            },
            _ => clone_json(external),
        },
        _ => clone_json(external),
    }
}

pub fn merge_fields_exec(bf: Vec<(String, Json)>, ef: &Vec<(String, Json)>) -> (r: Vec<(String, Json)>)
    ensures
        fv(r@) == merge_fields(fv(bf@), fv(ef@), ef@.len() as int),
    decreases ef,
{
    let mut acc = bf;
    let ghost b0 = fv(bf@);
    let ghost e0 = fv(ef@);
    proof {
        lemma_fv(ef@);
    }
    let mut i: usize = 0;
    while i < ef.len()
        invariant
            i <= ef@.len(),
            e0 == fv(ef@),
            e0.len() == ef@.len(),
            forall|j: int| 0 <= j < ef@.len() ==> #[trigger] e0[j] == (ef@[j].0@, json_view(ef@[j].1)),
            fv(acc@) == merge_fields(b0, e0, i as int),
        decreases ef@.len() - i,
    {
        let ghost before = acc@;
        proof {
            lemma_fv(before);
            lemma_find_key_bounds(fv(before), ef@[i as int].0@);
        }
        match position_of_key(&acc, ef[i].0.as_str()) {
            Some(p) => {
                let (_, old_value) = acc.remove(p);
                let merged = merge_owned(old_value, &ef[i].1);
                acc.insert(p, (ef[i].0.clone(), merged));
                proof {
                    lemma_fv(acc@);
                    assert(fv(acc@) =~= merge_fields(b0, e0, i + 1));
                }
            },
            None => {
                let k = ef[i].0.clone();
                let v = clone_json(&ef[i].1);
                acc.push((k, v));
                proof {
                    lemma_fv(acc@);
                    assert(fv(acc@) =~= merge_fields(b0, e0, i + 1));
                }
            },
        }
        i = i + 1;
    }
    acc
}

/// Merges `external` onto `base`: objects member by member, recursively,
/// with the external value winning for anything that is not an object on
/// both sides.
pub fn merge_json_values(base: &mut Json, external: &Json)
    ensures
        final(base)@ == merge(old(base)@, external@),
{
    let mut taken = Json::Null;
    std::mem::swap(base, &mut taken);
    *base = merge_owned(taken, external);
}

/// No two members share a key.
pub open spec fn unique_keys<V>(s: Seq<(Seq<char>, V)>) -> bool {
    forall|i: int, j: int| 0 <= i < j < s.len() ==> s[i].0 != s[j].0
}

/// Every object, at every depth, has unique keys (as a parsed JSON
/// document does).
pub open spec fn json_wf(j: JsonV) -> bool
    decreases j,
{
    match j {
        JsonV::Object(f) => unique_keys(f) && forall|i: int|
            0 <= i < f.len() ==> json_wf(#[trigger] f[i].1),
        JsonV::Array(a) => forall|i: int| 0 <= i < a.len() ==> json_wf(#[trigger] a[i]),
        _ => true,
    }
}

pub proof fn lemma_find_key_unique<V>(s: Seq<(Seq<char>, V)>, p: int)
    requires
        unique_keys(s),
        0 <= p < s.len(),
    ensures
        find_key(s, s[p].0) == p,
{
    lemma_find_key_first(s, s[p].0, p);
}

/// Replacing values leaves key lookups unchanged.
pub proof fn lemma_find_key_same_keys<V>(s: Seq<(Seq<char>, V)>, t: Seq<(Seq<char>, V)>, k: Seq<char>)
    requires
        s.len() == t.len(),
        forall|i: int| 0 <= i < s.len() ==> #[trigger] s[i].0 == t[i].0,
    ensures
        find_key(s, k) == find_key(t, k),
{
    lemma_find_key_bounds(s, k);
    lemma_find_key_bounds(t, k);
    if find_key(s, k) >= 0 {
        assert forall|j: int| 0 <= j < find_key(s, k) implies t[j].0 != k by {
            assert(s[j].0 == t[j].0);
        }
        lemma_find_key_first(t, k, find_key(s, k));
    } else if find_key(t, k) >= 0 {
        assert forall|j: int| 0 <= j < find_key(t, k) implies s[j].0 != k by {
            assert(s[j].0 == t[j].0);
        }
        lemma_find_key_first(s, k, find_key(t, k));
    }
}

pub proof fn lemma_find_key_push<V>(s: Seq<(Seq<char>, V)>, x: (Seq<char>, V), k: Seq<char>)
    ensures
        find_key(s.push(x), k) == if find_key(s, k) >= 0 {
            find_key(s, k)
        } else if x.0 == k {
            s.len() as int
        } else {
            -1
        },
{
    assert(s.push(x).drop_last() =~= s);
}

/// When every merged key is already present, merging updates values in
/// place and keeps the keys.
proof fn lemma_merge_in_place(acc: Seq<(Seq<char>, JsonV)>, ef: Seq<(Seq<char>, JsonV)>, n: int)
    requires
        unique_keys(acc),
        unique_keys(ef),
        0 <= n <= ef.len(),
        forall|j: int| 0 <= j < n ==> find_key(acc, #[trigger] ef[j].0) >= 0,
    ensures
        merge_fields(acc, ef, n).len() == acc.len(),
        forall|p: int|
            0 <= p < acc.len() ==> (#[trigger] merge_fields(acc, ef, n)[p]).0 == acc[p].0 && merge_fields(
                acc,
                ef,
                n,
            )[p].1 == {
                let j = find_key(ef.subrange(0, n), acc[p].0);
                if j >= 0 {
                    merge(acc[p].1, ef[j].1)
                } else {
                    acc[p].1
                }
            },
    decreases n,
{
    if n > 0 {
        lemma_merge_in_place(acc, ef, n - 1);
        let a = merge_fields(acc, ef, n - 1);
        let k = ef[n - 1].0;
        lemma_find_key_same_keys(a, acc, k);
        lemma_find_key_bounds(acc, k);
        let i = find_key(acc, k);
        assert(ef.subrange(0, n).drop_last() =~= ef.subrange(0, n - 1));
        assert forall|j: int| 0 <= j < n - 1 implies #[trigger] ef.subrange(0, n - 1)[j].0 != k by {}
        lemma_find_key_bounds(ef.subrange(0, n - 1), k);
        assert forall|p: int| 0 <= p < acc.len() implies (#[trigger] merge_fields(acc, ef, n)[p]).0
            == acc[p].0 && merge_fields(acc, ef, n)[p].1 == {
            let j = find_key(ef.subrange(0, n), acc[p].0);
            if j >= 0 {
                merge(acc[p].1, ef[j].1)
            } else {
                acc[p].1
            }
        } by {
            if p != i {
                assert(acc[p].0 != k);
            }
        }
    }
}

/// What the merge of the first `n` members of `ef` onto `bf` holds at key
/// `k`: present when either side has it; the base value when only the base
/// has it; the merged or the external value when the external side has it.
pub open spec fn merged_at(
    bf: Seq<(Seq<char>, JsonV)>,
    ef: Seq<(Seq<char>, JsonV)>,
    n: int,
    k: Seq<char>,
) -> bool {
    let m = merge_fields(bf, ef, n);
    let jb = find_key(bf, k);
    let je = find_key(ef.subrange(0, n), k);
    let q = find_key(m, k);
    &&& (q >= 0 <==> jb >= 0 || je >= 0)
    &&& (je < 0 && jb >= 0 ==> m[q].1 == bf[jb].1)
    &&& (je >= 0 ==> m[q].1 == if jb >= 0 {
        merge(bf[jb].1, ef[je].1)
    } else {
        ef[je].1
    })
}

/// What a merge leaves at each key.
pub proof fn lemma_merge_lookup(bf: Seq<(Seq<char>, JsonV)>, ef: Seq<(Seq<char>, JsonV)>, n: int)
    requires
        unique_keys(bf),
        unique_keys(ef),
        0 <= n <= ef.len(),
    ensures
        unique_keys(merge_fields(bf, ef, n)),
        forall|k: Seq<char>| #[trigger] merged_at(bf, ef, n, k),
    decreases n,
{
    let m = merge_fields(bf, ef, n);
    if n == 0 {
        assert forall|k: Seq<char>| #[trigger] merged_at(bf, ef, n, k) by {
            lemma_find_key_bounds(ef.subrange(0, 0), k);
        }
    } else {
        lemma_merge_lookup(bf, ef, n - 1);
        let a = merge_fields(bf, ef, n - 1);
        let k0 = ef[n - 1].0;
        let v0 = ef[n - 1].1;
        lemma_find_key_bounds(a, k0);
        let i = find_key(a, k0);
        assert(ef.subrange(0, n).drop_last() =~= ef.subrange(0, n - 1));
        assert forall|j: int| 0 <= j < n - 1 implies #[trigger] ef.subrange(0, n - 1)[j].0 != k0 by {}
        lemma_find_key_bounds(ef.subrange(0, n - 1), k0);
        if i >= 0 {
            assert forall|x: int, y: int| 0 <= x < y < m.len() implies m[x].0 != m[y].0 by {
                assert(m[x].0 == a[x].0 && m[y].0 == a[y].0);
            }
            assert forall|k: Seq<char>| #[trigger] merged_at(bf, ef, n, k) by {
                assert(merged_at(bf, ef, n - 1, k));
                assert forall|x: int| 0 <= x < m.len() implies #[trigger] m[x].0 == a[x].0 by {}
                lemma_find_key_same_keys(m, a, k);
                lemma_find_key_bounds(a, k);
                lemma_find_key_bounds(bf, k);
            }
        } else {
            assert forall|x: int, y: int| 0 <= x < y < m.len() implies m[x].0 != m[y].0 by {
                if y == a.len() {
                    assert(a[x].0 != k0);
                }
            }
            assert forall|k: Seq<char>| #[trigger] merged_at(bf, ef, n, k) by {
                assert(merged_at(bf, ef, n - 1, k));
                lemma_find_key_push(a, (k0, v0), k);
                lemma_find_key_bounds(a, k);
                lemma_find_key_bounds(bf, k);
            }
        }
    }
}

/// Merging a well-formed value onto itself gives it back.
pub proof fn lemma_merge_self(e: JsonV)
    requires
        json_wf(e),
    ensures
        merge(e, e) == e,
    decreases e,
{
    if let JsonV::Object(ef) = e {
        assert forall|j: int| 0 <= j < ef.len() implies find_key(ef, #[trigger] ef[j].0) >= 0 by {
            lemma_find_key_unique(ef, j);
        }
        lemma_merge_in_place(ef, ef, ef.len() as int);
        let r = merge_fields(ef, ef, ef.len() as int);
        assert(ef.subrange(0, ef.len() as int) =~= ef);
        assert forall|p: int| 0 <= p < ef.len() implies #[trigger] r[p] == ef[p] by {
            lemma_find_key_unique(ef, p);
            lemma_merge_self(ef[p].1);
        }
        assert(r =~= ef);
    }
}

/// Merging the same external value twice gives what merging it once gives:
/// `merge(merge(c, e), e) == merge(c, e)` for well-formed `c` and `e`.
pub proof fn lemma_merge_idempotent(c: JsonV, e: JsonV)
    requires
        json_wf(c),
        json_wf(e),
    ensures
        merge(merge(c, e), e) == merge(c, e),
    decreases e,
{
    match e {
        JsonV::Object(ef) => match c {
            JsonV::Object(bf) => {
                let n = ef.len() as int;
                let m = merge_fields(bf, ef, n);
                lemma_merge_lookup(bf, ef, n);
                assert(ef.subrange(0, n) =~= ef);
                assert forall|j: int| 0 <= j < n implies find_key(m, #[trigger] ef[j].0) >= 0 by {
                    assert(merged_at(bf, ef, n, ef[j].0));
                    lemma_find_key_unique(ef, j);
                }
                lemma_merge_in_place(m, ef, n);
                let r = merge_fields(m, ef, n);
                assert forall|p: int| 0 <= p < m.len() implies #[trigger] r[p] == m[p] by {
                    let k = m[p].0;
                    assert(merged_at(bf, ef, n, k));
                    lemma_find_key_unique(m, p);
                    lemma_find_key_bounds(ef, k);
                    lemma_find_key_bounds(bf, k);
                    let je = find_key(ef, k);
                    if je >= 0 {
                        let jb = find_key(bf, k);
                        if jb >= 0 {
                            lemma_merge_idempotent(bf[jb].1, ef[je].1);
                        } else {
                            lemma_merge_self(ef[je].1);
                        }
                    }
                }
                assert(r =~= m);
            },
            _ => {
                lemma_merge_self(e);
            },
        },
        _ => {},
    }
}

} // verus!
