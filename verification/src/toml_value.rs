//! A TOML document as the configuration loader sees it, and the key-level merge of two
//! documents that lets a later configuration file override an earlier one.
use vstd::prelude::*;
use crate::text::{compare_text, text_lt, TextOrder, lemma_text_lt_irreflexive,
    lemma_text_lt_transitive, lemma_text_lt_total, lemma_text_lt_asymmetric};

verus! {

/// A TOML value. A table holds its entries ordered by key, as the TOML map
/// (a sorted map) iterates them; a float is held by its IEEE-754 bits.
#[derive(Debug)]
pub enum TomlValue {
    Str(String),
    Integer(i64),
    Float(u64),
    Boolean(bool),
    Datetime(String),
    Array(Vec<TomlValue>),
    Table(Vec<(String, TomlValue)>),
}

/// The mathematical value of a [`TomlValue`].
pub enum TomlSpec {
    Str(Seq<char>),
    Integer(i64),
    Float(u64),
    Boolean(bool),
    Datetime(Seq<char>),
    Array(Seq<TomlSpec>),
    Table(Seq<(Seq<char>, TomlSpec)>),
}

pub open spec fn entries_view(v: Seq<(String, TomlValue)>) -> Seq<(Seq<char>, TomlSpec)>
    decreases v,
{
    if v.len() == 0 {
        Seq::empty()
    } else {
        let last = v[v.len() - 1];
        entries_view(v.subrange(0, v.len() - 1)).push((last.0@, value_view(last.1)))
    }
}

pub open spec fn items_view(v: Seq<TomlValue>) -> Seq<TomlSpec>
    decreases v,
{
    if v.len() == 0 {
        Seq::empty()
    } else {
        items_view(v.subrange(0, v.len() - 1)).push(value_view(v[v.len() - 1]))
    }
}

pub open spec fn value_view(v: TomlValue) -> TomlSpec
    decreases v,
{
    match v {
        TomlValue::Str(s) => TomlSpec::Str(s@),
        TomlValue::Integer(i) => TomlSpec::Integer(i),
        TomlValue::Float(f) => TomlSpec::Float(f),
        TomlValue::Boolean(b) => TomlSpec::Boolean(b),
        TomlValue::Datetime(d) => TomlSpec::Datetime(d@),
        TomlValue::Array(a) => TomlSpec::Array(items_view(a@)),
        TomlValue::Table(t) => TomlSpec::Table(entries_view(t@)),
    }
}

impl View for TomlValue {
    type V = TomlSpec;

    open spec fn view(&self) -> TomlSpec {
        value_view(*self)
    }
}

pub proof fn lemma_entries_view(v: Seq<(String, TomlValue)>)
    ensures
        entries_view(v).len() == v.len(),
        forall|i: int| 0 <= i < v.len() ==> #[trigger] entries_view(v)[i] == (v[i].0@, value_view(v[i].1)),
    decreases v.len(),
{
    if v.len() > 0 {
        lemma_entries_view(v.subrange(0, v.len() - 1));
    }
}

/// The entries view commutes with taking a contiguous part of the entries.
pub proof fn lemma_entries_view_subrange(v: Seq<(String, TomlValue)>, i: int, j: int)
    requires
        0 <= i <= j <= v.len(),
    ensures
        entries_view(v.subrange(i, j)) == entries_view(v).subrange(i, j),
{
    lemma_entries_view(v);
    lemma_entries_view(v.subrange(i, j));
    assert(entries_view(v.subrange(i, j)) =~= entries_view(v).subrange(i, j));
}

pub proof fn lemma_entries_view_concat(v: Seq<(String, TomlValue)>, w: Seq<(String, TomlValue)>)
    ensures
        entries_view(v + w) == entries_view(v) + entries_view(w),
{
    lemma_entries_view(v);
    lemma_entries_view(w);
    lemma_entries_view(v + w);
    assert(entries_view(v + w) =~= entries_view(v) + entries_view(w));
}

/// Merge of two values: two tables merge key by key, anything else is replaced by the overlay.
pub open spec fn merge_spec(base: TomlSpec, overlay: TomlSpec) -> TomlSpec
    decreases base, overlay,
{
    match base {
        TomlSpec::Table(x) => match overlay {
            TomlSpec::Table(y) => TomlSpec::Table(merge_entries_spec(x, y)),
            _ => overlay,
        },
        _ => overlay,
    }
}

/// Merge of two key-ordered entry lists: keys present in both are merged, the others kept.
pub open spec fn merge_entries_spec(
    x: Seq<(Seq<char>, TomlSpec)>,
    y: Seq<(Seq<char>, TomlSpec)>,
) -> Seq<(Seq<char>, TomlSpec)>
    decreases x, y,
{
    if x.len() == 0 {
        y
    } else if y.len() == 0 {
        x
    } else if x[0].0 == y[0].0 {
        seq![(x[0].0, merge_spec(x[0].1, y[0].1))] + merge_entries_spec(
            x.subrange(1, x.len() as int),
            y.subrange(1, y.len() as int),
        )
    } else if text_lt(x[0].0, y[0].0) {
        seq![x[0]] + merge_entries_spec(x.subrange(1, x.len() as int), y)
    } else {
        seq![y[0]] + merge_entries_spec(x, y.subrange(1, y.len() as int))
    }
}

/// Merges `overlay` into `base`: where both are tables, every key of the overlay replaces
/// (or, for two tables, recursively merges into) the same key of the base, and keys that only
/// the base has are kept; in every other case the overlay replaces the base.
pub fn merge_toml(base: TomlValue, overlay: TomlValue) -> (r: TomlValue)
    ensures
        r@ == merge_spec(base@, overlay@),
    decreases base,
{
    match base {
        TomlValue::Table(a) => match overlay {
            TomlValue::Table(b) => {
                let m = merge_entries(a, b);
                TomlValue::Table(m)
            },
            other => other,
        },
        _ => overlay,
    }
}

fn merge_entries(a: Vec<(String, TomlValue)>, b: Vec<(String, TomlValue)>) -> (r: Vec<
    (String, TomlValue),
>)
    ensures
        entries_view(r@) == merge_entries_spec(entries_view(a@), entries_view(b@)),
    decreases a,
{
    let ghost a_param = a;
    let ghost a0 = a@;
    let ghost total = merge_entries_spec(entries_view(a@), entries_view(b@));
    let mut a = a;
    let mut b = b;
    let mut out: Vec<(String, TomlValue)> = Vec::new();
    let ghost mut ia: int = 0;
    proof {
        assert(a0.subrange(0, a0.len() as int) =~= a0);
        assert(entries_view(out@) =~= Seq::<(Seq<char>, TomlSpec)>::empty());
        assert(entries_view(out@) + total =~= total);
    }
    #[verifier::loop_isolation(false)]
    while a.len() > 0 && b.len() > 0
        invariant
            0 <= ia <= a0.len(),
            a_param@ == a0,
            a@ == a0.subrange(ia, a0.len() as int),
            total == entries_view(out@) + merge_entries_spec(entries_view(a@), entries_view(b@)),
        decreases a.len() + b.len(),
    {
        let ord = compare_text(a[0].0.as_str(), b[0].0.as_str());
        let ghost pa = a@;
        let ghost pb = b@;
        let ghost pout = out@;
        proof {
            lemma_entries_view(pa);
            lemma_entries_view(pb);
            lemma_entries_view_subrange(pa, 1, pa.len() as int);
            lemma_entries_view_subrange(pb, 1, pb.len() as int);
            assert(pa.remove(0) =~= pa.subrange(1, pa.len() as int));
            assert(pb.remove(0) =~= pb.subrange(1, pb.len() as int));
        }
        match ord {
            TextOrder::Equal => {
                let (k, va) = a.remove(0);
                let (_kb, vb) = b.remove(0);
                proof {
                    assert(va == a0[ia].1);
                    assert(decreases_to!(a_param => a_param@));
                    assert(decreases_to!(a_param@ => a_param@[ia]));
                    assert(decreases_to!(a_param@[ia] => a_param@[ia].1));
                    assert(decreases_to!(a_param => va));
                }
                let m = merge_toml(va, vb);
                out.push((k, m));
                proof {
                    lemma_entries_view_concat(pout, seq![out@.last()]);
                    assert(out@ =~= pout + seq![out@.last()]);
                    lemma_entries_view(seq![out@.last()]);
                    assert(entries_view(seq![out@.last()]) =~= seq![(pa[0].0@, merge_spec(value_view(pa[0].1), value_view(pb[0].1)))]);
                    assert(a0.subrange(ia + 1, a0.len() as int) =~= pa.subrange(1, pa.len() as int));
                    ia = ia + 1;
                }
            },
            TextOrder::Less => {
                let e = a.remove(0);
                out.push(e);
                proof {
                    lemma_entries_view_concat(pout, seq![e]);
                    assert(out@ =~= pout + seq![e]);
                    lemma_entries_view(seq![e]);
                    assert(entries_view(seq![e]) =~= seq![entries_view(pa)[0]]);
                    assert(a0.subrange(ia + 1, a0.len() as int) =~= pa.subrange(1, pa.len() as int));
                    ia = ia + 1;
                }
            },
            TextOrder::Greater => {
                proof {
                    lemma_text_lt_asymmetric(pb[0].0@, pa[0].0@);
                }
                let e = b.remove(0);
                out.push(e);
                proof {
                    lemma_entries_view_concat(pout, seq![e]);
                    assert(out@ =~= pout + seq![e]);
                    lemma_entries_view(seq![e]);
                    assert(entries_view(seq![e]) =~= seq![entries_view(pb)[0]]);
                }
            },
        }
    }
    let ghost pout = out@;
    let ghost pa = a@;
    let ghost pb = b@;
    out.append(&mut a);
    out.append(&mut b);
    proof {
        lemma_entries_view(pa);
        lemma_entries_view(pb);
        lemma_entries_view_concat(pout, pa);
        lemma_entries_view_concat(pout + pa, pb);
        if pa.len() == 0 {
            assert(pa =~= Seq::<(String, TomlValue)>::empty());
            assert(pout + pa + pb =~= pout + pb);
        } else {
            assert(pb =~= Seq::<(String, TomlValue)>::empty());
            assert(pout + pa + pb =~= pout + pa);
        }
    }
    out
}

/// The value stored under `k` in an entry list (the first such entry).
pub open spec fn lookup(x: Seq<(Seq<char>, TomlSpec)>, k: Seq<char>) -> Option<TomlSpec>
    decreases x.len(),
{
    if x.len() == 0 {
        None
    } else if x[0].0 == k {
        Some(x[0].1)
    } else {
        lookup(x.subrange(1, x.len() as int), k)
    }
}

/// Keys strictly increase along the entry list (so no key occurs twice).
pub open spec fn keys_sorted(x: Seq<(Seq<char>, TomlSpec)>) -> bool {
    forall|i: int, j: int| 0 <= i < j < x.len() ==> text_lt(#[trigger] x[i].0, #[trigger] x[j].0)
}

/// Every table, at every depth, has its keys strictly increasing.
pub open spec fn well_formed(v: TomlSpec) -> bool
    decreases v,
{
    match v {
        TomlSpec::Table(x) => keys_sorted(x) && forall|i: int|
            0 <= i < x.len() ==> well_formed(#[trigger] x[i].1),
        TomlSpec::Array(a) => forall|i: int| 0 <= i < a.len() ==> well_formed(#[trigger] a[i]),
        _ => true,
    }
}

/// What a merged table holds under one key, given what the base and the overlay hold there.
pub open spec fn merged_entry(b: Option<TomlSpec>, o: Option<TomlSpec>) -> Option<TomlSpec> {
    match b {
        Some(u) => match o {
            Some(w) => Some(merge_spec(u, w)),
            None => Some(u),
        },
        None => o,
    }
}

spec fn all_above(x: Seq<(Seq<char>, TomlSpec)>, k: Seq<char>) -> bool {
    forall|i: int| 0 <= i < x.len() ==> text_lt(k, #[trigger] x[i].0)
}

proof fn lemma_sorted_tail(x: Seq<(Seq<char>, TomlSpec)>)
    requires
        keys_sorted(x),
        x.len() > 0,
    ensures
        keys_sorted(x.subrange(1, x.len() as int)),
        all_above(x.subrange(1, x.len() as int), x[0].0),
{
    let t = x.subrange(1, x.len() as int);
    assert forall|i: int, j: int| 0 <= i < j < t.len() implies text_lt(#[trigger] t[i].0, #[trigger] t[j].0) by {
        assert(t[i] == x[i + 1]);
        assert(t[j] == x[j + 1]);
    }
    assert forall|i: int| 0 <= i < t.len() implies text_lt(x[0].0, #[trigger] t[i].0) by {
        assert(t[i] == x[i + 1]);
    }
}

proof fn lemma_above_absent(x: Seq<(Seq<char>, TomlSpec)>, k: Seq<char>)
    requires
        all_above(x, k),
    ensures
        lookup(x, k) is None,
    decreases x.len(),
{
    if x.len() > 0 {
        lemma_text_lt_irreflexive(k);
        assert(text_lt(k, x[0].0));
        let t = x.subrange(1, x.len() as int);
        assert forall|i: int| 0 <= i < t.len() implies text_lt(k, #[trigger] t[i].0) by {
            assert(t[i] == x[i + 1]);
        }
        lemma_above_absent(t, k);
    }
}

proof fn lemma_above_lower(x: Seq<(Seq<char>, TomlSpec)>, lo: Seq<char>, k: Seq<char>)
    requires
        all_above(x, k),
        text_lt(lo, k),
    ensures
        all_above(x, lo),
{
    assert forall|i: int| 0 <= i < x.len() implies text_lt(lo, #[trigger] x[i].0) by {
        lemma_text_lt_transitive(lo, k, x[i].0);
    }
}

proof fn lemma_sorted_cons(h: (Seq<char>, TomlSpec), r: Seq<(Seq<char>, TomlSpec)>)
    requires
        keys_sorted(r),
        all_above(r, h.0),
    ensures
        keys_sorted(seq![h] + r),
        (seq![h] + r).subrange(1, (seq![h] + r).len() as int) == r,
{
    let s = seq![h] + r;
    assert forall|i: int, j: int| 0 <= i < j < s.len() implies text_lt(#[trigger] s[i].0, #[trigger] s[j].0) by {
        if i == 0 {
            assert(s[j] == r[j - 1]);
        } else {
            assert(s[i] == r[i - 1]);
            assert(s[j] == r[j - 1]);
        }
    }
    assert(s.subrange(1, s.len() as int) =~= r);
}

/// Merging two key-ordered lists yields a key-ordered list, bounded below wherever both inputs are.
proof fn lemma_merge_entries_sorted(x: Seq<(Seq<char>, TomlSpec)>, y: Seq<(Seq<char>, TomlSpec)>)
    requires
        keys_sorted(x),
        keys_sorted(y),
    ensures
        keys_sorted(merge_entries_spec(x, y)),
        forall|k: Seq<char>| all_above(x, k) && all_above(y, k) ==> #[trigger] all_above(merge_entries_spec(x, y), k),
    decreases x, y,
{
    if x.len() == 0 || y.len() == 0 {
    } else {
        let xt = x.subrange(1, x.len() as int);
        let yt = y.subrange(1, y.len() as int);
        lemma_sorted_tail(x);
        lemma_sorted_tail(y);
        let m = merge_entries_spec(x, y);
        if x[0].0 == y[0].0 {
            lemma_merge_entries_sorted(xt, yt);
            let r = merge_entries_spec(xt, yt);
            let h = (x[0].0, merge_spec(x[0].1, y[0].1));
            lemma_sorted_cons(h, r);
            assert forall|k: Seq<char>| all_above(x, k) && all_above(y, k) implies #[trigger] all_above(m, k) by {
                assert(text_lt(k, x[0].0));
                lemma_above_lower(xt, k, x[0].0);
                lemma_above_lower(yt, k, x[0].0);
                assert(all_above(r, k));
                assert(m == seq![h] + r);
                assert forall|i: int| 0 <= i < m.len() implies text_lt(k, #[trigger] m[i].0) by {
                    if i > 0 {
                        assert(m[i] == r[i - 1]);
                    }
                }
            }
        } else if text_lt(x[0].0, y[0].0) {
            lemma_merge_entries_sorted(xt, y);
            let r = merge_entries_spec(xt, y);
            assert(all_above(y, x[0].0)) by {
                assert forall|i: int| 0 <= i < y.len() implies text_lt(x[0].0, #[trigger] y[i].0) by {
                    if i > 0 {
                        assert(text_lt(y[0].0, y[i].0));
                        lemma_text_lt_transitive(x[0].0, y[0].0, y[i].0);
                    }
                }
            }
            lemma_sorted_cons(x[0], r);
            assert forall|k: Seq<char>| all_above(x, k) && all_above(y, k) implies #[trigger] all_above(m, k) by {
                assert(text_lt(k, x[0].0));
                lemma_above_lower(xt, k, x[0].0);
                assert(all_above(r, k));
                assert(m == seq![x[0]] + r);
                assert forall|i: int| 0 <= i < m.len() implies text_lt(k, #[trigger] m[i].0) by {
                    if i > 0 {
                        assert(m[i] == r[i - 1]);
                    }
                }
            }
        } else {
            lemma_text_lt_total(x[0].0, y[0].0);
            lemma_merge_entries_sorted(x, yt);
            let r = merge_entries_spec(x, yt);
            assert(all_above(x, y[0].0)) by {
                assert forall|i: int| 0 <= i < x.len() implies text_lt(y[0].0, #[trigger] x[i].0) by {
                    if i > 0 {
                        assert(text_lt(x[0].0, x[i].0));
                        lemma_text_lt_transitive(y[0].0, x[0].0, x[i].0);
                    }
                }
            }
            lemma_sorted_cons(y[0], r);
            assert forall|k: Seq<char>| all_above(x, k) && all_above(y, k) implies #[trigger] all_above(m, k) by {
                assert(text_lt(k, y[0].0));
                lemma_above_lower(yt, k, y[0].0);
                assert(all_above(r, k));
                assert(m == seq![y[0]] + r);
                assert forall|i: int| 0 <= i < m.len() implies text_lt(k, #[trigger] m[i].0) by {
                    if i > 0 {
                        assert(m[i] == r[i - 1]);
                    }
                }
            }
        }
    }
}

proof fn lemma_lookup_cons(h: (Seq<char>, TomlSpec), r: Seq<(Seq<char>, TomlSpec)>, k: Seq<char>)
    ensures
        lookup(seq![h] + r, k) == if h.0 == k { Some(h.1) } else { lookup(r, k) },
{
    let s = seq![h] + r;
    assert(s.subrange(1, s.len() as int) =~= r);
}

proof fn lemma_merge_entries_lookup(
    x: Seq<(Seq<char>, TomlSpec)>,
    y: Seq<(Seq<char>, TomlSpec)>,
    k: Seq<char>,
)
    requires
        keys_sorted(x),
        keys_sorted(y),
    ensures
        lookup(merge_entries_spec(x, y), k) == merged_entry(lookup(x, k), lookup(y, k)),
    decreases x, y,
{
    if x.len() == 0 {
    } else if y.len() == 0 {
    } else {
        let xt = x.subrange(1, x.len() as int);
        let yt = y.subrange(1, y.len() as int);
        lemma_sorted_tail(x);
        lemma_sorted_tail(y);
        if x[0].0 == y[0].0 {
            lemma_merge_entries_lookup(xt, yt, k);
            lemma_lookup_cons((x[0].0, merge_spec(x[0].1, y[0].1)), merge_entries_spec(xt, yt), k);
        } else if text_lt(x[0].0, y[0].0) {
            lemma_merge_entries_lookup(xt, y, k);
            lemma_lookup_cons(x[0], merge_entries_spec(xt, y), k);
            if x[0].0 == k {
                assert(all_above(y, x[0].0)) by {
                    assert forall|i: int| 0 <= i < y.len() implies text_lt(x[0].0, #[trigger] y[i].0) by {
                        if i > 0 {
                            assert(text_lt(y[0].0, y[i].0));
                            lemma_text_lt_transitive(x[0].0, y[0].0, y[i].0);
                        }
                    }
                }
                lemma_above_absent(y, k);
            }
        } else {
            lemma_text_lt_total(x[0].0, y[0].0);
            lemma_merge_entries_lookup(x, yt, k);
            lemma_lookup_cons(y[0], merge_entries_spec(x, yt), k);
            if y[0].0 == k {
                assert(all_above(x, y[0].0)) by {
                    assert forall|i: int| 0 <= i < x.len() implies text_lt(y[0].0, #[trigger] x[i].0) by {
                        if i > 0 {
                            assert(text_lt(x[0].0, x[i].0));
                            lemma_text_lt_transitive(y[0].0, x[0].0, x[i].0);
                        }
                    }
                }
                lemma_above_absent(x, k);
            }
        }
    }
}

spec fn children_well_formed(x: Seq<(Seq<char>, TomlSpec)>) -> bool {
    forall|i: int| 0 <= i < x.len() ==> well_formed(#[trigger] x[i].1)
}

proof fn lemma_children_tail(x: Seq<(Seq<char>, TomlSpec)>)
    requires
        children_well_formed(x),
        x.len() > 0,
    ensures
        children_well_formed(x.subrange(1, x.len() as int)),
{
    let t = x.subrange(1, x.len() as int);
    assert forall|i: int| 0 <= i < t.len() implies well_formed(#[trigger] t[i].1) by {
        assert(t[i] == x[i + 1]);
    }
}

proof fn lemma_children_cons(h: (Seq<char>, TomlSpec), r: Seq<(Seq<char>, TomlSpec)>)
    requires
        children_well_formed(r),
        well_formed(h.1),
    ensures
        children_well_formed(seq![h] + r),
{
    let s = seq![h] + r;
    assert forall|i: int| 0 <= i < s.len() implies well_formed(#[trigger] s[i].1) by {
        if i > 0 {
            assert(s[i] == r[i - 1]);
        }
    }
}

proof fn lemma_merge_well_formed(a: TomlSpec, b: TomlSpec)
    requires
        well_formed(a),
        well_formed(b),
    ensures
        well_formed(merge_spec(a, b)),
    decreases a, b,
{
    match a {
        TomlSpec::Table(x) => match b {
            TomlSpec::Table(y) => {
                lemma_merge_entries_sorted(x, y);
                lemma_merge_entries_children(x, y);
            },
            _ => {},
        },
        _ => {},
    }
}

proof fn lemma_merge_entries_children(x: Seq<(Seq<char>, TomlSpec)>, y: Seq<(Seq<char>, TomlSpec)>)
    requires
        children_well_formed(x),
        children_well_formed(y),
    ensures
        children_well_formed(merge_entries_spec(x, y)),
    decreases x, y,
{
    if x.len() == 0 || y.len() == 0 {
    } else {
        let xt = x.subrange(1, x.len() as int);
        let yt = y.subrange(1, y.len() as int);
        lemma_children_tail(x);
        lemma_children_tail(y);
        if x[0].0 == y[0].0 {
            assert(well_formed(x[0].1));
            assert(well_formed(y[0].1));
            lemma_merge_well_formed(x[0].1, y[0].1);
            lemma_merge_entries_children(xt, yt);
            lemma_children_cons((x[0].0, merge_spec(x[0].1, y[0].1)), merge_entries_spec(xt, yt));
        } else if text_lt(x[0].0, y[0].0) {
            lemma_merge_entries_children(xt, y);
            assert(well_formed(x[0].1));
            lemma_children_cons(x[0], merge_entries_spec(xt, y));
        } else {
            lemma_merge_entries_children(x, yt);
            assert(well_formed(y[0].1));
            lemma_children_cons(y[0], merge_entries_spec(x, yt));
        }
    }
}

proof fn lemma_merge_self(a: TomlSpec)
    ensures
        merge_spec(a, a) == a,
    decreases a,
{
    match a {
        TomlSpec::Table(x) => {
            lemma_merge_entries_self(x);
        },
        _ => {},
    }
}

proof fn lemma_merge_entries_self(x: Seq<(Seq<char>, TomlSpec)>)
    ensures
        merge_entries_spec(x, x) == x,
    decreases x,
{
    if x.len() > 0 {
        let xt = x.subrange(1, x.len() as int);
        lemma_merge_self(x[0].1);
        lemma_merge_entries_self(xt);
        assert(merge_entries_spec(x, x) =~= x);
    }
}

/// Law (key-level merge): for two well-formed tables, the merged table holds under each key what
/// the overlay holds there, merged into the base's value when both files set that key, and what
/// the base holds for any key the overlay does not set; no other key appears. So a later file
/// overrides exactly the keys it sets, and a file that sets only one section leaves the others.
pub proof fn law_merge_by_key(base: TomlSpec, overlay: TomlSpec, k: Seq<char>)
    requires
        well_formed(base),
        well_formed(overlay),
        base is Table,
        overlay is Table,
    ensures
        merge_spec(base, overlay) is Table,
        lookup(merge_spec(base, overlay)->Table_0, k) == merged_entry(
            lookup(base->Table_0, k),
            lookup(overlay->Table_0, k),
        ),
{
    lemma_merge_entries_lookup(base->Table_0, overlay->Table_0, k);
}

/// Law: merging two well-formed values gives a well-formed value (every table keeps its keys
/// strictly ordered, hence free of repeats).
pub proof fn law_merge_well_formed(base: TomlSpec, overlay: TomlSpec)
    requires
        well_formed(base),
        well_formed(overlay),
    ensures
        well_formed(merge_spec(base, overlay)),
{
    lemma_merge_well_formed(base, overlay);
}

/// Law: unless both sides are tables, the overlay replaces the base whole.
pub proof fn law_merge_replaces_non_table(base: TomlSpec, overlay: TomlSpec)
    requires
        !(base is Table) || !(overlay is Table),
    ensures
        merge_spec(base, overlay) == overlay,
{
}

/// Law: an overlay that sets nothing (an empty table) leaves a table unchanged.
pub proof fn law_merge_empty_overlay(base: TomlSpec)
    requires
        base is Table,
    ensures
        merge_spec(base, TomlSpec::Table(Seq::empty())) == base,
{
    let x = base->Table_0;
    if x.len() == 0 {
        assert(x =~= Seq::<(Seq<char>, TomlSpec)>::empty());
    }
}

/// Law: merging a value with itself changes nothing.
pub proof fn law_merge_idempotent(v: TomlSpec)
    ensures
        merge_spec(v, v) == v,
{
    lemma_merge_self(v);
}

proof fn lemma_merge_twice(a: TomlSpec, b: TomlSpec)
    ensures
        merge_spec(merge_spec(a, b), b) == merge_spec(a, b),
    decreases a, b,
{
    match a {
        TomlSpec::Table(x) => match b {
            TomlSpec::Table(y) => {
                lemma_merge_entries_twice(x, y);
            },
            _ => {},
        },
        _ => {
            lemma_merge_self(b);
        },
    }
}

proof fn lemma_merge_entries_twice(x: Seq<(Seq<char>, TomlSpec)>, y: Seq<(Seq<char>, TomlSpec)>)
    ensures
        merge_entries_spec(merge_entries_spec(x, y), y) == merge_entries_spec(x, y),
    decreases x, y,
{
    let m = merge_entries_spec(x, y);
    if x.len() == 0 {
        lemma_merge_entries_self(y);
    } else if y.len() == 0 {
    } else {
        let xt = x.subrange(1, x.len() as int);
        let yt = y.subrange(1, y.len() as int);
        if x[0].0 == y[0].0 {
            lemma_merge_twice(x[0].1, y[0].1);
            lemma_merge_entries_twice(xt, yt);
            let r = merge_entries_spec(xt, yt);
            assert(m.subrange(1, m.len() as int) =~= r);
            assert(merge_entries_spec(m, y) =~= m);
        } else if text_lt(x[0].0, y[0].0) {
            lemma_merge_entries_twice(xt, y);
            let r = merge_entries_spec(xt, y);
            assert(m.subrange(1, m.len() as int) =~= r);
            assert(merge_entries_spec(m, y) =~= m);
        } else {
            lemma_merge_self(y[0].1);
            lemma_merge_entries_twice(x, yt);
            let r = merge_entries_spec(x, yt);
            assert(m.subrange(1, m.len() as int) =~= r);
            assert(merge_entries_spec(m, y) =~= m);
        }
    }
}

/// Law: applying the same overlay a second time changes nothing.
pub proof fn law_merge_overlay_twice(base: TomlSpec, overlay: TomlSpec)
    ensures
        merge_spec(merge_spec(base, overlay), overlay) == merge_spec(base, overlay),
{
    lemma_merge_twice(base, overlay);
}

pub proof fn lemma_items_view(v: Seq<TomlValue>)
    ensures
        items_view(v).len() == v.len(),
        forall|i: int| 0 <= i < v.len() ==> #[trigger] items_view(v)[i] == value_view(v[i]),
    decreases v.len(),
{
    if v.len() > 0 {
        lemma_items_view(v.subrange(0, v.len() - 1));
    }
}

/// Merges the layers onto the base one after another, so a later layer overrides an earlier one.
pub open spec fn merge_layers_spec(base: TomlSpec, layers: Seq<TomlSpec>) -> TomlSpec
    decreases layers.len(),
{
    if layers.len() == 0 {
        base
    } else {
        merge_spec(merge_layers_spec(base, layers.drop_last()), layers.last())
    }
}

/// Merges each layer in turn onto `base` (the configuration files, lowest precedence first).
pub fn merge_layers(base: TomlValue, layers: Vec<TomlValue>) -> (r: TomlValue)
    ensures
        r@ == merge_layers_spec(base@, items_view(layers@)),
{
    let ghost all = items_view(layers@);
    let mut acc = base;
    let mut rest = layers;
    let ghost mut done: int = 0;
    proof {
        lemma_items_view(layers@);
        assert(all.take(0) =~= Seq::<TomlSpec>::empty());
        assert(rest@ =~= layers@.subrange(0, layers@.len() as int));
    }
    while rest.len() > 0
        invariant
            0 <= done <= layers@.len(),
            all == items_view(layers@),
            all.len() == layers@.len(),
            forall|i: int| 0 <= i < layers@.len() ==> #[trigger] all[i] == value_view(layers@[i]),
            rest@ == layers@.subrange(done, layers@.len() as int),
            acc@ == merge_layers_spec(base@, all.take(done)),
        decreases rest.len(),
    {
        let next = rest.remove(0);
        proof {
            assert(next == layers@[done]);
            assert(all.take(done + 1).drop_last() =~= all.take(done));
            assert(all.take(done + 1).last() == all[done]);
        }
        acc = merge_toml(acc, next);
        proof {
            assert(rest@ =~= layers@.subrange(done + 1, layers@.len() as int));
            done = done + 1;
        }
    }
    proof {
        assert(all.take(done) =~= all);
    }
    acc
}

/// Law: merging well-formed layers onto a well-formed base gives a well-formed value.
pub proof fn law_merge_layers_well_formed(base: TomlSpec, layers: Seq<TomlSpec>)
    requires
        well_formed(base),
        forall|i: int| 0 <= i < layers.len() ==> well_formed(#[trigger] layers[i]),
    ensures
        well_formed(merge_layers_spec(base, layers)),
    decreases layers.len(),
{
    if layers.len() > 0 {
        law_merge_layers_well_formed(base, layers.drop_last());
        assert(well_formed(layers[layers.len() - 1]));
        lemma_merge_well_formed(merge_layers_spec(base, layers.drop_last()), layers.last());
    }
}

proof fn lemma_merge_layers_table(base: TomlSpec, layers: Seq<TomlSpec>)
    requires
        base is Table,
        well_formed(base),
        forall|i: int| 0 <= i < layers.len() ==> (#[trigger] layers[i] is Table && well_formed(layers[i])),
    ensures
        merge_layers_spec(base, layers) is Table,
        well_formed(merge_layers_spec(base, layers)),
    decreases layers.len(),
{
    if layers.len() > 0 {
        let init = layers.drop_last();
        assert forall|i: int| 0 <= i < init.len() implies (#[trigger] init[i] is Table && well_formed(init[i])) by {
            assert(init[i] == layers[i]);
        }
        lemma_merge_layers_table(base, init);
        assert(layers[layers.len() - 1] is Table);
        assert(well_formed(layers[layers.len() - 1]));
        lemma_merge_well_formed(merge_layers_spec(base, init), layers.last());
    }
}

/// Law (file precedence): when the last configuration file sets a key of the top-level table
/// to a value other than a table, the merged configuration holds exactly that value there,
/// whatever the defaults and the earlier files say.
pub proof fn law_last_layer_wins(base: TomlSpec, layers: Seq<TomlSpec>, k: Seq<char>, w: TomlSpec)
    requires
        base is Table,
        well_formed(base),
        forall|i: int| 0 <= i < layers.len() ==> (#[trigger] layers[i] is Table && well_formed(layers[i])),
        layers.len() > 0,
        lookup(layers.last()->Table_0, k) == Some(w),
        !(w is Table),
    ensures
        merge_layers_spec(base, layers) is Table,
        lookup(merge_layers_spec(base, layers)->Table_0, k) == Some(w),
{
    let init = layers.drop_last();
    assert forall|i: int| 0 <= i < init.len() implies (#[trigger] init[i] is Table && well_formed(init[i])) by {
        assert(init[i] == layers[i]);
    }
    lemma_merge_layers_table(base, init);
    lemma_merge_layers_table(base, layers);
    let acc = merge_layers_spec(base, init);
    assert(layers[layers.len() - 1] is Table);
    assert(well_formed(layers[layers.len() - 1]));
    lemma_merge_entries_lookup(acc->Table_0, layers.last()->Table_0, k);
}

/// Law (defaults survive): a key of the top-level table that no configuration file sets keeps
/// the value the base (the built-in defaults) gives it.
pub proof fn law_unset_key_keeps_base(base: TomlSpec, layers: Seq<TomlSpec>, k: Seq<char>)
    requires
        base is Table,
        well_formed(base),
        forall|i: int| 0 <= i < layers.len() ==> (#[trigger] layers[i] is Table && well_formed(layers[i])),
        forall|i: int| 0 <= i < layers.len() ==> lookup(#[trigger] layers[i]->Table_0, k) is None,
    ensures
        merge_layers_spec(base, layers) is Table,
        lookup(merge_layers_spec(base, layers)->Table_0, k) == lookup(base->Table_0, k),
    decreases layers.len(),
{
    lemma_merge_layers_table(base, layers);
    if layers.len() > 0 {
        let init = layers.drop_last();
        assert forall|i: int| 0 <= i < init.len() implies (#[trigger] init[i] is Table && well_formed(init[i])) by {
            assert(init[i] == layers[i]);
        }
        assert forall|i: int| 0 <= i < init.len() implies lookup(#[trigger] init[i]->Table_0, k) is None by {
            assert(init[i] == layers[i]);
        }
        law_unset_key_keeps_base(base, init, k);
        lemma_merge_layers_table(base, init);
        let acc = merge_layers_spec(base, init);
        assert(keys_sorted(acc->Table_0));
        assert(layers[layers.len() - 1] is Table);
        assert(well_formed(layers[layers.len() - 1]));
        assert(lookup(layers[layers.len() - 1]->Table_0, k) is None);
        lemma_merge_entries_lookup(acc->Table_0, layers.last()->Table_0, k);
    }
}

/// `toml::Value`, the tree `toml` parses a document into; carried opaque.
#[verifier::external_type_specification]
#[verifier::external_body]
pub struct ExTomlValue(toml::Value);

/// The value of a TOML document, or `None` when the text is not valid TOML: what
/// `toml::from_str::<toml::Value>` gives for it.
pub uninterp spec fn toml_document(text: Seq<char>) -> Option<TomlSpec>;

/// Turns a parsed `toml::Value` into a [`TomlValue`], variant for variant (a float by its
/// bits, a date-time by its TOML text, a table's map by its entries in the map's order).
/// Part of the conversion in [`parse_toml`]; it states nothing of its own.
#[verifier::external_body]
fn toml_to_model(v: toml::Value) -> TomlValue {
    match v {
        toml::Value::String(s) => TomlValue::Str(s),
        toml::Value::Integer(i) => TomlValue::Integer(i),
        toml::Value::Float(f) => TomlValue::Float(f.to_bits()),
        toml::Value::Boolean(b) => TomlValue::Boolean(b),
        toml::Value::Datetime(d) => TomlValue::Datetime(d.to_string()),
        toml::Value::Array(a) => TomlValue::Array(a.into_iter().map(toml_to_model).collect()),
        toml::Value::Table(t) => TomlValue::Table(t.into_iter().map(|(k, x)| (k, toml_to_model(x))).collect()),
    }
}

/// `toml::from_str::<toml::Value>`: parses the text of a TOML document. Claimed: the result is
/// the named `toml_document` of the text, it is `None` exactly when that parse fails, the value
/// is a table or a date-time (a document whose only key is `toml`'s reserved date-time field
/// name, set to a date-time string, reads back as a date-time), and its tables, at every
/// depth, list their keys in increasing order (the TOML map is a `BTreeMap<String, _>`, the
/// crate's `preserve_order` feature being off).
#[verifier::external_body]
pub(crate) fn parse_toml(text: &str) -> (r: Option<TomlValue>)
    ensures
        match r {
            Some(v) => toml_document(text@) == Some(v@) && (v@ is Table || v@ is Datetime) && well_formed(v@),
            None => toml_document(text@) is None,
        },
{
    match toml::from_str::<toml::Value>(text) {
        Ok(v) => Some(toml_to_model(v)),
        Err(_) => None,
    }
}

/// The documents of the given texts, which all parse.
pub open spec fn documents(texts: Seq<String>) -> Seq<TomlSpec> {
    Seq::new(texts.len(), |i: int| toml_document(texts[i]@)->0)
}

/// Parses each configuration text and merges the documents onto `base` in order, a later
/// text overriding an earlier one; `Err(i)` names the first text that is not valid TOML.
pub fn merge_config_texts(base: TomlValue, texts: &Vec<String>) -> (r: Result<TomlValue, usize>)
    ensures
        match r {
            Ok(v) => {
                &&& forall|i: int| 0 <= i < texts@.len() ==> #[trigger] toml_document(texts@[i]@) is Some
                &&& v@ == merge_layers_spec(base@, documents(texts@))
                &&& well_formed(base@) ==> well_formed(v@)
            },
            Err(i) => {
                &&& i < texts@.len()
                &&& toml_document(texts@[i as int]@) is None
                &&& forall|j: int| 0 <= j < i ==> #[trigger] toml_document(texts@[j]@) is Some
            },
        },
{
    let mut layers: Vec<TomlValue> = Vec::new();
    let mut i: usize = 0;
    while i < texts.len()
        invariant
            i <= texts@.len(),
            layers@.len() == i,
            forall|j: int| 0 <= j < i ==> #[trigger] toml_document(texts@[j]@) == Some(value_view(layers@[j])),
            forall|j: int| 0 <= j < i ==> well_formed(#[trigger] value_view(layers@[j])),
        decreases texts.len() - i,
    {
        match parse_toml(texts[i].as_str()) {
            Some(v) => {
                layers.push(v);
            },
            None => {
                return Err(i);
            },
        }
        i = i + 1;
    }
    let ghost lv = layers@;
    proof {
        lemma_items_view(lv);
        assert(items_view(lv) =~= documents(texts@));
        if well_formed(base@) {
            law_merge_layers_well_formed(base@, items_view(lv));
        }
    }
    Ok(merge_layers(base, layers))
}

/// The value at a path of keys: each key looks into the table the previous one found.
pub open spec fn lookup_path(v: TomlSpec, path: Seq<Seq<char>>) -> Option<TomlSpec>
    decreases path.len(),
{
    if path.len() == 0 {
        Some(v)
    } else {
        match v {
            TomlSpec::Table(x) => match lookup(x, path[0]) {
                Some(c) => lookup_path(c, path.drop_first()),
                None => None,
            },
            _ => None,
        }
    }
}

/// A table that neither sets the value at `path` nor replaces a table on the way to it:
/// along the path it holds only tables, and the path stops before its last key.
pub open spec fn path_untouched(v: TomlSpec, path: Seq<Seq<char>>) -> bool
    decreases path.len(),
{
    path.len() > 0 && match v {
        TomlSpec::Table(x) => match lookup(x, path[0]) {
            None => true,
            Some(c) => path.len() > 1 && c is Table && path_untouched(c, path.drop_first()),
        },
        _ => false,
    }
}

proof fn lemma_lookup_well_formed(x: Seq<(Seq<char>, TomlSpec)>, k: Seq<char>)
    requires
        children_well_formed(x),
    ensures
        lookup(x, k) matches Some(c) ==> well_formed(c),
    decreases x.len(),
{
    if x.len() > 0 {
        assert(well_formed(x[0].1));
        lemma_children_tail(x);
        lemma_lookup_well_formed(x.subrange(1, x.len() as int), k);
    }
}

proof fn lemma_untouched_absent(v: TomlSpec, path: Seq<Seq<char>>)
    requires
        path_untouched(v, path),
    ensures
        lookup_path(v, path) is None,
    decreases path.len(),
{
    match v {
        TomlSpec::Table(x) => match lookup(x, path[0]) {
            Some(c) => {
                lemma_untouched_absent(c, path.drop_first());
            },
            None => {},
        },
        _ => {},
    }
}

/// An overlay that holds a non-table `w` at `path` puts `w` there.
proof fn lemma_merge_sets_path(a: TomlSpec, b: TomlSpec, path: Seq<Seq<char>>, w: TomlSpec)
    requires
        well_formed(a),
        well_formed(b),
        path.len() > 0,
        lookup_path(b, path) == Some(w),
        !(w is Table),
    ensures
        lookup_path(merge_spec(a, b), path) == Some(w),
    decreases path.len(),
{
    let y = b->Table_0;
    let bc = lookup(y, path[0])->0;
    match a {
        TomlSpec::Table(x) => {
            lemma_merge_entries_lookup(x, y, path[0]);
            let m = merge_spec(a, b);
            assert(m == TomlSpec::Table(merge_entries_spec(x, y)));
            match lookup(x, path[0]) {
                Some(ac) => {
                    if path.len() == 1 {
                        assert(bc == w);
                    } else {
                        lemma_lookup_well_formed(x, path[0]);
                        lemma_lookup_well_formed(y, path[0]);
                        lemma_merge_sets_path(ac, bc, path.drop_first(), w);
                    }
                },
                None => {},
            }
        },
        _ => {},
    }
}

/// An overlay that leaves `path` untouched keeps what the base holds there.
proof fn lemma_merge_keeps_path(a: TomlSpec, b: TomlSpec, path: Seq<Seq<char>>)
    requires
        well_formed(a),
        well_formed(b),
        path_untouched(b, path),
    ensures
        lookup_path(merge_spec(a, b), path) == lookup_path(a, path),
    decreases path.len(),
{
    let y = b->Table_0;
    match a {
        TomlSpec::Table(x) => {
            lemma_merge_entries_lookup(x, y, path[0]);
            match lookup(y, path[0]) {
                Some(bc) => {
                    lemma_lookup_well_formed(y, path[0]);
                    match lookup(x, path[0]) {
                        Some(ac) => {
                            lemma_lookup_well_formed(x, path[0]);
                            lemma_merge_keeps_path(ac, bc, path.drop_first());
                        },
                        None => {
                            lemma_untouched_absent(bc, path.drop_first());
                        },
                    }
                },
                None => {},
            }
        },
        _ => {
            lemma_untouched_absent(b, path);
        },
    }
}

/// Law (file precedence at any depth): the merged configuration holds, at any path of keys,
/// the value the last file that sets it gives (a value other than a table), as long as no
/// later file sets that path or replaces a table on the way to it.
pub proof fn law_last_file_setting_path_wins(
    base: TomlSpec,
    layers: Seq<TomlSpec>,
    path: Seq<Seq<char>>,
    j: int,
    w: TomlSpec,
)
    requires
        base is Table,
        well_formed(base),
        forall|i: int| 0 <= i < layers.len() ==> (#[trigger] layers[i] is Table && well_formed(layers[i])),
        0 <= j < layers.len(),
        path.len() > 0,
        lookup_path(layers[j], path) == Some(w),
        !(w is Table),
        forall|i: int| j < i < layers.len() ==> path_untouched(#[trigger] layers[i], path),
    ensures
        lookup_path(merge_layers_spec(base, layers), path) == Some(w),
    decreases layers.len(),
{
    let init = layers.drop_last();
    assert forall|i: int| 0 <= i < init.len() implies (#[trigger] init[i] is Table && well_formed(init[i])) by {
        assert(init[i] == layers[i]);
    }
    lemma_merge_layers_table(base, init);
    let acc = merge_layers_spec(base, init);
    assert(well_formed(layers[layers.len() - 1]));
    if j == layers.len() - 1 {
        lemma_merge_sets_path(acc, layers.last(), path, w);
    } else {
        assert(init[j] == layers[j]);
        assert forall|i: int| j < i < init.len() implies path_untouched(#[trigger] init[i], path) by {
            assert(init[i] == layers[i]);
        }
        law_last_file_setting_path_wins(base, init, path, j, w);
        assert(path_untouched(layers[layers.len() - 1], path));
        lemma_merge_keeps_path(acc, layers.last(), path);
    }
}

/// Law (defaults survive at any depth): a path that no file sets, and on whose way no file
/// replaces a table, keeps the value the base (the built-in defaults) gives it.
pub proof fn law_untouched_path_keeps_base(base: TomlSpec, layers: Seq<TomlSpec>, path: Seq<Seq<char>>)
    requires
        well_formed(base),
        forall|i: int| 0 <= i < layers.len() ==> well_formed(#[trigger] layers[i]),
        forall|i: int| 0 <= i < layers.len() ==> path_untouched(#[trigger] layers[i], path),
    ensures
        lookup_path(merge_layers_spec(base, layers), path) == lookup_path(base, path),
    decreases layers.len(),
{
    if layers.len() > 0 {
        let init = layers.drop_last();
        assert forall|i: int| 0 <= i < init.len() implies well_formed(#[trigger] init[i]) by {
            assert(init[i] == layers[i]);
        }
        assert forall|i: int| 0 <= i < init.len() implies path_untouched(#[trigger] init[i], path) by {
            assert(init[i] == layers[i]);
        }
        law_untouched_path_keeps_base(base, init, path);
        law_merge_layers_well_formed(base, init);
        assert(well_formed(layers[layers.len() - 1]));
        assert(path_untouched(layers[layers.len() - 1], path));
        lemma_merge_keeps_path(merge_layers_spec(base, init), layers.last(), path);
    }
}

} // verus!
