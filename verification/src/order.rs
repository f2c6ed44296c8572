//! Порядки, по которым журнал сортирует: строки посимвольно (как `str` по байтам UTF-8),
//! пути покомпонентно (как `Path`), строки бэклога по месту направления, затем по тексту.
use vstd::prelude::*;

use crate::paths::{comps, comps_v, rooted};
use crate::text::views;

verus! {

/// `a` раньше `b` в словарном порядке по кодам символов. Для UTF-8 он совпадает с порядком по байтам.
pub open spec fn seq_lt(a: Seq<char>, b: Seq<char>) -> bool
    decreases a.len(),
{
    if a.len() == 0 {
        b.len() > 0
    } else if b.len() == 0 {
        false
    } else if a[0] != b[0] {
        a[0] < b[0]
    } else {
        seq_lt(a.drop_first(), b.drop_first())
    }
}

pub proof fn lemma_seq_lt_irreflexive(a: Seq<char>)
    ensures
        !seq_lt(a, a),
    decreases a.len(),
{
    if a.len() > 0 {
        lemma_seq_lt_irreflexive(a.drop_first());
    }
}

pub proof fn lemma_seq_lt_trans(a: Seq<char>, b: Seq<char>, c: Seq<char>)
    requires
        seq_lt(a, b),
        seq_lt(b, c),
    ensures
        seq_lt(a, c),
    decreases a.len(),
{
    if a.len() > 0 && b.len() > 0 && c.len() > 0 && a[0] == b[0] && b[0] == c[0] {
        lemma_seq_lt_trans(a.drop_first(), b.drop_first(), c.drop_first());
    }
}

pub proof fn lemma_seq_lt_total(a: Seq<char>, b: Seq<char>)
    ensures
        a == b || seq_lt(a, b) || seq_lt(b, a),
    decreases a.len(),
{
    if a.len() > 0 && b.len() > 0 && a[0] == b[0] {
        lemma_seq_lt_total(a.drop_first(), b.drop_first());
        if a.drop_first() == b.drop_first() {
            assert(a =~= seq![a[0]] + a.drop_first());
            assert(b =~= seq![b[0]] + b.drop_first());
        }
    } else if a.len() == 0 && b.len() == 0 {
        assert(a =~= b);
    }
}

/// Посимвольное сравнение: `a` строго раньше `b`.
pub fn lt_chars(a: &Vec<char>, b: &Vec<char>) -> (r: bool)
    ensures
        r == seq_lt(a@, b@),
{
    let mut i: usize = 0;
    assert(a@.skip(0) =~= a@ && b@.skip(0) =~= b@);
    while i < a.len() && i < b.len() && a[i] == b[i]
        invariant
            i <= a.len(),
            i <= b.len(),
            seq_lt(a@, b@) == seq_lt(a@.skip(i as int), b@.skip(i as int)),
        decreases a.len() - i,
    {
        assert(a@.skip(i as int).drop_first() =~= a@.skip(i + 1));
        assert(b@.skip(i as int).drop_first() =~= b@.skip(i + 1));
        i += 1;
    }
    if i == a.len() {
        i < b.len()
    } else if i == b.len() {
        false
    } else {
        a[i] < b[i]
    }
}

// ---------------------------------------------------------------- пути

/// Порядок компонентов пути: `..` раньше любого имени, имена — посимвольно.
pub open spec fn comp_lt(x: Seq<char>, y: Seq<char>) -> bool {
    if x == ".."@ {
        y != ".."@
    } else if y == ".."@ {
        false
    } else {
        seq_lt(x, y)
    }
}

/// Словарный порядок последовательностей компонентов.
pub open spec fn comps_lt(a: Seq<Seq<char>>, b: Seq<Seq<char>>) -> bool
    decreases a.len(),
{
    if a.len() == 0 {
        b.len() > 0
    } else if b.len() == 0 {
        false
    } else if a[0] != b[0] {
        comp_lt(a[0], b[0])
    } else {
        comps_lt(a.drop_first(), b.drop_first())
    }
}

/// `a` раньше `b`, как у `Path`: путь от корня раньше относительного, дальше — по компонентам.
pub open spec fn path_lt(a: Seq<char>, b: Seq<char>) -> bool {
    if rooted(a) != rooted(b) {
        rooted(a)
    } else {
        comps_lt(comps(a), comps(b))
    }
}

pub proof fn lemma_comp_lt_trans(a: Seq<char>, b: Seq<char>, c: Seq<char>)
    requires
        comp_lt(a, b),
        comp_lt(b, c),
    ensures
        comp_lt(a, c),
{
    if a != ".."@ && b != ".."@ && c != ".."@ {
        lemma_seq_lt_trans(a, b, c);
    }
}

pub proof fn lemma_comp_lt_irreflexive(a: Seq<char>)
    ensures
        !comp_lt(a, a),
{
    lemma_seq_lt_irreflexive(a);
}

pub proof fn lemma_comps_lt_trans(a: Seq<Seq<char>>, b: Seq<Seq<char>>, c: Seq<Seq<char>>)
    requires
        comps_lt(a, b),
        comps_lt(b, c),
    ensures
        comps_lt(a, c),
    decreases a.len(),
{
    if a.len() > 0 && b.len() > 0 && c.len() > 0 {
        if a[0] == b[0] && b[0] == c[0] {
            lemma_comps_lt_trans(a.drop_first(), b.drop_first(), c.drop_first());
        } else if a[0] != b[0] && b[0] != c[0] {
            lemma_comp_lt_trans(a[0], b[0], c[0]);
            if a[0] == c[0] {
                lemma_comp_lt_irreflexive(a[0]);
            }
        }
    }
}

pub proof fn lemma_comps_lt_irreflexive(a: Seq<Seq<char>>)
    ensures
        !comps_lt(a, a),
    decreases a.len(),
{
    if a.len() > 0 {
        lemma_comps_lt_irreflexive(a.drop_first());
    }
}

pub proof fn lemma_path_lt_irreflexive(a: Seq<char>)
    ensures
        !path_lt(a, a),
{
    lemma_comps_lt_irreflexive(comps(a));
}

pub proof fn lemma_path_lt_trans(a: Seq<char>, b: Seq<char>, c: Seq<char>)
    requires
        path_lt(a, b),
        path_lt(b, c),
    ensures
        path_lt(a, c),
{
    if rooted(a) == rooted(b) && rooted(b) == rooted(c) {
        lemma_comps_lt_trans(comps(a), comps(b), comps(c));
    }
}

fn comp_lt_v(x: &Vec<char>, y: &Vec<char>) -> (r: bool)
    ensures
        r == comp_lt(x@, y@),
{
    let dots = crate::text::chars_of("..");
    let xd = crate::text::same(x, &dots);
    let yd = crate::text::same(y, &dots);
    if xd {
        !yd
    } else if yd {
        false
    } else {
        lt_chars(x, y)
    }
}

/// `a` раньше `b` как пути.
pub fn path_less(a: &Vec<char>, b: &Vec<char>) -> (r: bool)
    ensures
        r == path_lt(a@, b@),
{
    let ra = a.len() > 0 && a[0] == '/';
    let rb = b.len() > 0 && b[0] == '/';
    if ra != rb {
        return ra;
    }
    let ca = comps_v(a);
    let cb = comps_v(b);
    let ghost va = views(ca@);
    let ghost vb = views(cb@);
    let mut i: usize = 0;
    assert(va.skip(0) =~= va && vb.skip(0) =~= vb);
    while i < ca.len() && i < cb.len() && crate::text::same(&ca[i], &cb[i])
        invariant
            va == views(ca@),
            vb == views(cb@),
            va.len() == ca.len(),
            vb.len() == cb.len(),
            i <= ca.len(),
            i <= cb.len(),
            comps_lt(va, vb) == comps_lt(va.skip(i as int), vb.skip(i as int)),
        decreases ca.len() - i,
    {
        assert(va.skip(i as int).drop_first() =~= va.skip(i + 1));
        assert(vb.skip(i as int).drop_first() =~= vb.skip(i + 1));
        i += 1;
    }
    if i == ca.len() {
        i < cb.len()
    } else if i == cb.len() {
        false
    } else {
        assert(va[i as int] == ca@[i as int]@);
        assert(vb[i as int] == cb@[i as int]@);
        comp_lt_v(&ca[i], &cb[i])
    }
}

/// Последовательность путей упорядочена: ни один не стоит после следующего за ним.
pub open spec fn paths_sorted(s: Seq<Seq<char>>) -> bool {
    forall|i: int, j: int| 0 <= i < j < s.len() ==> !path_lt(#[trigger] s[j], #[trigger] s[i])
}

proof fn lemma_insert_multiset<A>(s: Seq<A>, p: int, x: A)
    requires
        0 <= p <= s.len(),
    ensures
        s.insert(p, x).to_multiset() =~= s.to_multiset().insert(x),
{
    broadcast use vstd::seq_lib::group_to_multiset_ensures;

    let t = s.insert(p, x);
    assert(t.remove(p) =~= s);
    assert(t[p] == x);
    assert(t.to_multiset().remove(x) =~= s.to_multiset());
    assert(t.contains(x));
    assert(t.to_multiset().count(x) > 0);
}

/// Пути по порядку `Path`; равные остаются в исходном порядке.
pub fn sort_paths(v: &Vec<Vec<char>>) -> (r: Vec<Vec<char>>)
    ensures
        views(r@).to_multiset() == views(v@).to_multiset(),
        paths_sorted(views(r@)),
        r.len() == v.len(),
{
    broadcast use vstd::seq_lib::group_to_multiset_ensures;

    let mut r: Vec<Vec<char>> = Vec::new();
    for n in 0..v.len()
        invariant
            views(r@).to_multiset() == views(v@).subrange(0, n as int).to_multiset(),
            paths_sorted(views(r@)),
            r.len() == n,
    {
        let x = crate::text::copy(&v[n]);
        let ghost rv = views(r@);
        let mut p: usize = 0;
        while p < r.len() && !path_less(&x, &r[p])
            invariant
                rv == views(r@),
                rv.len() == r.len(),
                p <= r.len(),
                forall|k: int| 0 <= k < p ==> !path_lt(x@, #[trigger] rv[k]),
            decreases r.len() - p,
        {
            assert(rv[p as int] == r@[p as int]@);
            p += 1;
        }
        proof {
            if p < r.len() {
                assert(rv[p as int] == r@[p as int]@);
            }
        }
        r.insert(p, x);
        proof {
            let nv = views(r@);
            assert(nv =~= rv.insert(p as int, x@));
            lemma_insert_multiset(rv, p as int, x@);
            assert(views(v@).subrange(0, n + 1) =~= views(v@).subrange(0, n as int).push(x@));
            let pre = views(v@).subrange(0, n as int);
            vstd::seq_lib::to_multiset_build(pre, x@);
            assert(nv.to_multiset() =~= rv.to_multiset().insert(x@));
            assert forall|i: int, j: int| 0 <= i < j < nv.len() implies !path_lt(
                #[trigger] nv[j],
                #[trigger] nv[i],
            ) by {
                if i < p && j == p {
                } else if i < p && j > p {
                    assert(nv[j] == rv[j - 1]);
                } else if i == p && j > p {
                    assert(nv[j] == rv[j - 1]);
                    if path_lt(nv[j], x@) {
                        lemma_path_lt_trans(nv[j], x@, rv[p as int]);
                        if j - 1 == p {
                            lemma_path_lt_irreflexive(rv[p as int]);
                        } else {
                            assert(!path_lt(rv[j - 1], rv[p as int]));
                        }
                    }
                } else if i > p {
                    assert(nv[j] == rv[j - 1]);
                    assert(nv[i] == rv[i - 1]);
                } else {
                    assert(nv[j] == rv[j]);
                    assert(nv[i] == rv[i]);
                }
            }
        }
    }
    assert(views(v@).subrange(0, v.len() as int) =~= views(v@));
    r
}

// ---------------------------------------------------------------- строки бэклога

/// Ключ строки бэклога: место направления и строка целиком.
pub type RowKey = (nat, Seq<char>);

/// Порядок строк бэклога: по месту направления, затем по строке целиком.
pub open spec fn key_lt(a: RowKey, b: RowKey) -> bool {
    if a.0 != b.0 {
        a.0 < b.0
    } else {
        seq_lt(a.1, b.1)
    }
}

/// Ключи упорядочены.
pub open spec fn keys_sorted(s: Seq<RowKey>) -> bool {
    forall|i: int, j: int| 0 <= i < j < s.len() ==> !key_lt(#[trigger] s[j], #[trigger] s[i])
}

/// Ключ в исполняемом виде.
pub open spec fn key_view(k: (usize, Vec<char>)) -> RowKey {
    (k.0 as nat, k.1@)
}

/// Ключи набора.
pub open spec fn key_views(s: Seq<(usize, Vec<char>)>) -> Seq<RowKey> {
    s.map_values(|k: (usize, Vec<char>)| key_view(k))
}

pub proof fn lemma_key_lt_irreflexive(a: RowKey)
    ensures
        !key_lt(a, a),
{
    lemma_seq_lt_irreflexive(a.1);
}

pub proof fn lemma_key_lt_trans(a: RowKey, b: RowKey, c: RowKey)
    requires
        key_lt(a, b),
        key_lt(b, c),
    ensures
        key_lt(a, c),
{
    if a.0 == b.0 && b.0 == c.0 {
        lemma_seq_lt_trans(a.1, b.1, c.1);
    }
}

pub proof fn lemma_key_lt_total(a: RowKey, b: RowKey)
    ensures
        a == b || key_lt(a, b) || key_lt(b, a),
{
    lemma_seq_lt_total(a.1, b.1);
}

fn key_less(a: &(usize, Vec<char>), b: &(usize, Vec<char>)) -> (r: bool)
    ensures
        r == key_lt(key_view(*a), key_view(*b)),
{
    if a.0 != b.0 {
        a.0 < b.0
    } else {
        lt_chars(&a.1, &b.1)
    }
}

/// Строки бэклога по ключу; равные остаются в исходном порядке.
pub fn sort_rows(v: Vec<(usize, Vec<char>)>) -> (r: Vec<(usize, Vec<char>)>)
    ensures
        key_views(r@).to_multiset() == key_views(v@).to_multiset(),
        keys_sorted(key_views(r@)),
{
    let mut r: Vec<(usize, Vec<char>)> = Vec::new();
    let mut src = v;
    let ghost all = key_views(src@);
    let mut n: usize = 0;
    assert(key_views(r@) =~= all.subrange(0, 0));
    while n < src.len()
        invariant
            all == key_views(src@),
            n <= src.len(),
            key_views(r@).to_multiset() == all.subrange(0, n as int).to_multiset(),
            keys_sorted(key_views(r@)),
        decreases src.len() - n,
    {
        let x = (src[n].0, crate::text::copy(&src[n].1));
        assert(key_view(x) == all[n as int]);
        let ghost rv = key_views(r@);
        let mut p: usize = 0;
        while p < r.len() && !key_less(&x, &r[p])
            invariant
                rv == key_views(r@),
                p <= r.len(),
                forall|k: int| 0 <= k < p ==> !key_lt(key_view(x), #[trigger] rv[k]),
            decreases r.len() - p,
        {
            p += 1;
        }
        r.insert(p, x);
        proof {
            let nv = key_views(r@);
            let kx = key_view(x);
            assert(nv =~= rv.insert(p as int, kx));
            lemma_insert_multiset(rv, p as int, kx);
            let pre = all.subrange(0, n as int);
            assert(all.subrange(0, n + 1) =~= pre.push(kx));
            vstd::seq_lib::to_multiset_build(pre, kx);
            assert forall|i: int, j: int| 0 <= i < j < nv.len() implies !key_lt(
                #[trigger] nv[j],
                #[trigger] nv[i],
            ) by {
                if i < p && j == p {
                } else if i < p && j > p {
                    assert(nv[j] == rv[j - 1]);
                } else if i == p && j > p {
                    assert(nv[j] == rv[j - 1]);
                    if key_lt(nv[j], kx) {
                        lemma_key_lt_trans(nv[j], kx, rv[p as int]);
                        if j - 1 == p {
                            lemma_key_lt_irreflexive(rv[p as int]);
                        } else {
                            assert(!key_lt(rv[j - 1], rv[p as int]));
                        }
                    }
                } else if i > p {
                    assert(nv[j] == rv[j - 1]);
                    assert(nv[i] == rv[i - 1]);
                } else {
                    assert(nv[j] == rv[j]);
                    assert(nv[i] == rv[i]);
                }
            }
        }
        n += 1;
    }
    assert(all.subrange(0, src.len() as int) =~= all);
    r
}

/// Упорядоченная последовательность ключей определяется своим набором: две упорядоченные
/// перестановки одного набора совпадают. Поэтому текст BACKLOG.md однозначен.
pub proof fn law_sorted_keys_unique(s: Seq<RowKey>, t: Seq<RowKey>)
    requires
        keys_sorted(s),
        keys_sorted(t),
        s.to_multiset() == t.to_multiset(),
    ensures
        s == t,
    decreases s.len(),
{
    broadcast use vstd::seq_lib::group_to_multiset_ensures;

    assert(s.to_multiset().len() == s.len());
    assert(t.to_multiset().len() == t.len());
    if s.len() == 0 {
        assert(s =~= t);
    } else {
        let x = s[0];
        let y = t[0];
        assert(s.contains(x));
        assert(s.to_multiset().count(x) > 0);
        assert(t.contains(x));
        let k = choose|k: int| 0 <= k < t.len() && t[k] == x;
        assert(t.to_multiset().count(y) > 0);
        assert(s.contains(y));
        let m = choose|m: int| 0 <= m < s.len() && s[m] == y;
        if k > 0 {
            assert(!key_lt(t[k], t[0]));
        } else {
            lemma_key_lt_irreflexive(x);
        }
        if m > 0 {
            assert(!key_lt(s[m], s[0]));
        } else {
            lemma_key_lt_irreflexive(y);
        }
        lemma_key_lt_total(x, y);
        assert(x == y);
        vstd::seq_lib::to_multiset_remove(s, 0);
        vstd::seq_lib::to_multiset_remove(t, 0);
        assert(s.remove(0) =~= s.drop_first());
        assert(t.remove(0) =~= t.drop_first());
        let s1 = s.drop_first();
        let t1 = t.drop_first();
        assert(keys_sorted(s1)) by {
            assert forall|i: int, j: int| 0 <= i < j < s1.len() implies !key_lt(
                #[trigger] s1[j],
                #[trigger] s1[i],
            ) by {
                assert(s1[j] == s[j + 1] && s1[i] == s[i + 1]);
            }
        }
        assert(keys_sorted(t1)) by {
            assert forall|i: int, j: int| 0 <= i < j < t1.len() implies !key_lt(
                #[trigger] t1[j],
                #[trigger] t1[i],
            ) by {
                assert(t1[j] == t[j + 1] && t1[i] == t[i + 1]);
            }
        }
        law_sorted_keys_unique(s1, t1);
        assert(s =~= seq![x] + s1);
        assert(t =~= seq![y] + t1);
    }
}

} // verus!
