//! Пути как строки с `/`: склейка, компоненты, очистка от `.` и `..`, предки.
use vstd::prelude::*;

use crate::text::{
    chars_of, copy, ends_with, extend, join, join_with, same, split_by, split_on, string_of, strs,
    views,
};

verus! {

/// Путь начинается от корня.
pub open spec fn rooted(p: Seq<char>) -> bool {
    p.len() > 0 && p[0] == '/'
}

/// Значимый кусок пути: не пустой (между `//` или в конце) и не `.`.
pub open spec fn significant(c: Seq<char>) -> bool {
    c.len() > 0 && c != "."@
}

/// Значимые куски среди первых `n` кусков.
pub open spec fn comps_upto(ps: Seq<Seq<char>>, n: int) -> Seq<Seq<char>>
    decreases n,
{
    if n <= 0 {
        Seq::empty()
    } else {
        let prev = comps_upto(ps, n - 1);
        if significant(ps[n - 1]) {
            prev.push(ps[n - 1])
        } else {
            prev
        }
    }
}

/// Компоненты пути, как их видит `Path::components` для путей без ведущего `./`:
/// имена и `..`, без пустых кусков и `.`.
pub open spec fn comps(p: Seq<char>) -> Seq<Seq<char>> {
    comps_upto(split_on(p, '/'), split_on(p, '/').len() as int)
}

/// Два пути равны покомпонентно, как у `Path == Path`.
pub open spec fn same_path(a: Seq<char>, b: Seq<char>) -> bool {
    rooted(a) == rooted(b) && comps(a) == comps(b)
}

/// Путь из признака корня и компонентов.
pub open spec fn render(root: bool, cs: Seq<Seq<char>>) -> Seq<char> {
    if root {
        "/"@ + join(cs, "/"@)
    } else {
        join(cs, "/"@)
    }
}

/// `PathBuf::join`: путь от корня заменяет `a` целиком, относительный дописывается
/// через разделитель, если его ещё нет.
pub open spec fn path_join(a: Seq<char>, b: Seq<char>) -> Seq<char> {
    if rooted(b) {
        b
    } else if a.len() == 0 || ends_with(a, "/"@) {
        a + b
    } else {
        a + "/"@ + b
    }
}

/// Первые `n` компонентов после снятия `..` вместе с предыдущим компонентом.
pub open spec fn cleaned_upto(cs: Seq<Seq<char>>, n: int) -> Seq<Seq<char>>
    decreases n,
{
    if n <= 0 {
        Seq::empty()
    } else {
        let prev = cleaned_upto(cs, n - 1);
        if cs[n - 1] == ".."@ {
            if prev.len() > 0 {
                prev.drop_last()
            } else {
                prev
            }
        } else {
            prev.push(cs[n - 1])
        }
    }
}

/// Путь без `.` и `..`: `..` снимает предыдущий компонент, выше корня не поднимается.
pub open spec fn cleaned(p: Seq<char>) -> Seq<char> {
    render(rooted(p), cleaned_upto(comps(p), comps(p).len() as int))
}

/// Предки пути, как их перечисляет `Path::ancestors`, в записи без лишних `/` и `.`:
/// сам путь, затем каждый раз на компонент короче — до корня у пути от корня
/// и до пустого пути у относительного.
pub open spec fn ancestors_of(p: Seq<char>) -> Seq<Seq<char>> {
    let cs = comps(p);
    Seq::new(cs.len() + 1, |i: int| render(rooted(p), cs.take(cs.len() - i)))
}

/// Абсолютный путь без `.` и `..`; относительный берётся от `cwd`.
pub open spec fn absolute_of(p: Seq<char>, cwd: Seq<char>) -> Seq<char> {
    if rooted(p) {
        cleaned(p)
    } else {
        cleaned(path_join(cwd, p))
    }
}

pub fn comps_v(p: &Vec<char>) -> (r: Vec<Vec<char>>)
    ensures
        views(r@) == comps(p@),
{
    let ps = split_by(p, '/');
    let dot = chars_of(".");
    let mut r: Vec<Vec<char>> = Vec::new();
    for i in 0..ps.len()
        invariant
            views(ps@) == split_on(p@, '/'),
            views(ps@).len() == ps.len(),
            dot@ == "."@,
            views(r@) == comps_upto(views(ps@), i as int),
    {
        let c = &ps[i];
        assert(views(ps@)[i as int] == c@);
        let ghost old = r@;
        if c.len() > 0 && !same(c, &dot) {
            let cc = copy(c);
            r.push(cc);
            assert(views(r@) =~= views(old).push(cc@));
        }
    }
    r
}

fn render_v(root: bool, cs: &Vec<Vec<char>>) -> (r: Vec<char>)
    ensures
        r@ == render(root, views(cs@)),
{
    let slash = chars_of("/");
    let body = join_with(cs, &slash);
    if root {
        let mut r = copy(&slash);
        extend(&mut r, &body);
        r
    } else {
        body
    }
}

/// Первые `n` компонентов.
fn first_comps(cs: &Vec<Vec<char>>, n: usize) -> (r: Vec<Vec<char>>)
    requires
        n <= cs.len(),
    ensures
        views(r@) == views(cs@).take(n as int),
{
    let mut r: Vec<Vec<char>> = Vec::new();
    for k in 0..n
        invariant
            n <= cs.len(),
            views(r@) == views(cs@).take(k as int),
    {
        let c = copy(&cs[k]);
        let ghost old = r@;
        r.push(c);
        assert(views(r@) =~= views(old).push(c@));
        assert(views(cs@).take(k + 1) =~= views(cs@).take(k as int).push(c@));
    }
    r
}

/// Предки пути, от него самого вверх: `/a/b` даёт `/a/b`, `/a`, `/`.
pub fn ancestors(p: &str) -> (r: Vec<String>)
    ensures
        strs(r@) == ancestors_of(p@),
{
    let v = chars_of(p);
    let root = v.len() > 0 && v[0] == '/';
    let cs = comps_v(&v);
    let ghost all = comps(p@);
    assert(views(cs@).len() == cs.len());
    let mut r: Vec<String> = Vec::new();
    let whole = first_comps(&cs, cs.len());
    r.push(string_of(&render_v(root, &whole)));
    assert(strs(r@) =~= ancestors_of(p@).take(1));
    for i in 0..cs.len()
        invariant
            views(cs@) == all,
            all == comps(p@),
            views(cs@).len() == cs.len(),
            root == rooted(p@),
            strs(r@) == ancestors_of(p@).take(i + 1),
    {
        let n = cs.len() - 1 - i;
        let pre = first_comps(&cs, n);
        let a = string_of(&render_v(root, &pre));
        let ghost old = strs(r@);
        r.push(a);
        assert(strs(r@) =~= old.push(a@));
        assert(ancestors_of(p@).take(i + 2) =~= ancestors_of(p@).take(i + 1).push(a@));
    }
    assert(ancestors_of(p@).take(cs.len() + 1) =~= ancestors_of(p@));
    r
}

/// Два пути равны покомпонентно.
pub fn same_paths(a: &str, b: &str) -> (r: bool)
    ensures
        r == same_path(a@, b@),
{
    let va = chars_of(a);
    let vb = chars_of(b);
    let ra = va.len() > 0 && va[0] == '/';
    let rb = vb.len() > 0 && vb[0] == '/';
    if ra != rb {
        return false;
    }
    let ca = comps_v(&va);
    let cb = comps_v(&vb);
    assert(views(ca@).len() == ca.len() && views(cb@).len() == cb.len());
    if ca.len() != cb.len() {
        return false;
    }
    for i in 0..ca.len()
        invariant
            ca.len() == cb.len(),
            views(ca@) == comps(a@),
            views(cb@) == comps(b@),
            forall|k: int| 0 <= k < i ==> views(ca@)[k] == views(cb@)[k],
    {
        if !same(&ca[i], &cb[i]) {
            assert(views(ca@)[i as int] != views(cb@)[i as int]);
            return false;
        }
    }
    assert(views(ca@) =~= views(cb@));
    true
}

/// Путь начинается от корня.
pub fn is_absolute(p: &str) -> (b: bool)
    ensures
        b == rooted(p@),
{
    let v = chars_of(p);
    v.len() > 0 && v[0] == '/'
}

/// `PathBuf::join`.
pub fn join_path(a: &str, b: &str) -> (r: String)
    ensures
        r@ == path_join(a@, b@),
{
    if is_absolute(b) {
        return string_of(&chars_of(b));
    }
    let mut v = chars_of(a);
    let slash = chars_of("/");
    let need = v.len() > 0 && !crate::text::has_suffix(&v, &slash);
    if need {
        extend(&mut v, &slash);
    }
    extend(&mut v, &chars_of(b));
    string_of(&v)
}

/// Путь без `.` и `..`.
pub fn clean(p: &Vec<char>) -> (r: Vec<char>)
    ensures
        r@ == cleaned(p@),
{
    let cs = comps_v(p);
    let dots = chars_of("..");
    let mut out: Vec<Vec<char>> = Vec::new();
    for i in 0..cs.len()
        invariant
            views(cs@) == comps(p@),
            views(cs@).len() == cs.len(),
            dots@ == ".."@,
            views(out@) == cleaned_upto(views(cs@), i as int),
    {
        let c = &cs[i];
        assert(views(cs@)[i as int] == c@);
        let ghost old = out@;
        if same(c, &dots) {
            if out.len() > 0 {
                out.pop();
                assert(views(out@) =~= views(old).drop_last());
            }
        } else {
            let cc = copy(c);
            out.push(cc);
            assert(views(out@) =~= views(old).push(cc@));
        }
    }
    render_v(p.len() > 0 && p[0] == '/', &out)
}

/// Абсолютный путь без `.` и `..`. Относительный берётся от `cwd`; симлинки не разрешаются.
pub fn absolute(p: &str, cwd: &str) -> (r: String)
    ensures
        r@ == absolute_of(p@, cwd@),
{
    if is_absolute(p) {
        string_of(&clean(&chars_of(p)))
    } else {
        let j = join_path(cwd, p);
        string_of(&clean(&chars_of(j.as_str())))
    }
}

// ---------------------------------------------------------------- законы

proof fn lemma_comps_upto_clean(ps: Seq<Seq<char>>, n: int)
    requires
        0 <= n <= ps.len(),
        forall|i: int| 0 <= i < ps.len() ==> !(#[trigger] ps[i]).contains('/'),
    ensures
        forall|i: int|
            0 <= i < comps_upto(ps, n).len() ==> significant(#[trigger] comps_upto(ps, n)[i])
                && !comps_upto(ps, n)[i].contains('/'),
    decreases n,
{
    if n > 0 {
        lemma_comps_upto_clean(ps, n - 1);
        let prev = comps_upto(ps, n - 1);
        let cur = comps_upto(ps, n);
        assert forall|i: int| 0 <= i < cur.len() implies significant(#[trigger] cur[i]) && !cur[i].contains(
            '/',
        ) by {
            if i < prev.len() {
                assert(cur[i] == prev[i]);
            }
        }
    }
}

proof fn lemma_comps_clean(p: Seq<char>)
    ensures
        forall|i: int|
            0 <= i < comps(p).len() ==> significant(#[trigger] comps(p)[i]) && !comps(p)[i].contains('/'),
{
    crate::text::lemma_split_no_sep(p, '/');
    let ps = split_on(p, '/');
    lemma_comps_upto_clean(ps, ps.len() as int);
}

proof fn lemma_cleaned_upto_clean(cs: Seq<Seq<char>>, n: int)
    requires
        0 <= n <= cs.len(),
        forall|i: int| 0 <= i < cs.len() ==> significant(#[trigger] cs[i]) && !cs[i].contains('/'),
    ensures
        forall|i: int|
            0 <= i < cleaned_upto(cs, n).len() ==> significant(#[trigger] cleaned_upto(cs, n)[i])
                && !cleaned_upto(cs, n)[i].contains('/') && cleaned_upto(cs, n)[i] != ".."@,
    decreases n,
{
    if n > 0 {
        lemma_cleaned_upto_clean(cs, n - 1);
        let prev = cleaned_upto(cs, n - 1);
        let cur = cleaned_upto(cs, n);
        assert forall|i: int| 0 <= i < cur.len() implies significant(#[trigger] cur[i]) && !cur[i].contains(
            '/',
        ) && cur[i] != ".."@ by {
            if i < prev.len() {
                assert(cur[i] == prev[i]);
            }
        }
    }
}

proof fn lemma_cleaned_upto_plain(cs: Seq<Seq<char>>, n: int)
    requires
        0 <= n <= cs.len(),
        forall|i: int| 0 <= i < cs.len() ==> #[trigger] cs[i] != ".."@,
    ensures
        cleaned_upto(cs, n) == cs.take(n),
    decreases n,
{
    if n > 0 {
        lemma_cleaned_upto_plain(cs, n - 1);
        assert(cs.take(n) =~= cs.take(n - 1).push(cs[n - 1]));
    } else {
        assert(cs.take(0) =~= Seq::<Seq<char>>::empty());
    }
}

proof fn lemma_comps_upto_lead_empty(cs: Seq<Seq<char>>, n: int)
    requires
        0 <= n <= cs.len(),
        forall|i: int| 0 <= i < cs.len() ==> significant(#[trigger] cs[i]),
    ensures
        comps_upto(seq![Seq::<char>::empty()] + cs, n + 1) == cs.take(n),
    decreases n,
{
    let ps = seq![Seq::<char>::empty()] + cs;
    if n > 0 {
        lemma_comps_upto_lead_empty(cs, n - 1);
        assert(ps[n] == cs[n - 1]);
        assert(cs.take(n) =~= cs.take(n - 1).push(cs[n - 1]));
    } else {
        assert(ps[0] == Seq::<char>::empty());
        assert(comps_upto(ps, 0) =~= Seq::<Seq<char>>::empty());
        assert(cs.take(0) =~= Seq::<Seq<char>>::empty());
    }
}

proof fn lemma_comps_render_rooted(cs: Seq<Seq<char>>)
    requires
        forall|i: int| 0 <= i < cs.len() ==> significant(#[trigger] cs[i]) && !cs[i].contains('/'),
    ensures
        comps(render(true, cs)) == cs,
        rooted(render(true, cs)),
{
    reveal_strlit("/");
    assert("/"@ =~= seq!['/']);
    let body = join(cs, seq!['/']);
    let r = render(true, cs);
    assert(r =~= Seq::<char>::empty() + seq!['/'] + body);
    crate::text::lemma_split_concat(Seq::<char>::empty(), body, '/');
    assert(split_on(Seq::<char>::empty(), '/') =~= seq![Seq::<char>::empty()]);
    if cs.len() > 0 {
        crate::text::lemma_split_join(cs, '/');
        let ps = seq![Seq::<char>::empty()] + cs;
        assert(split_on(r, '/') =~= ps);
        lemma_comps_upto_lead_empty(cs, cs.len() as int);
        assert(cs.take(cs.len() as int) =~= cs);
    } else {
        assert(body =~= Seq::<char>::empty());
        assert(split_on(body, '/') =~= seq![Seq::<char>::empty()]);
        let ps = split_on(r, '/');
        assert(ps =~= seq![Seq::<char>::empty(), Seq::<char>::empty()]);
        assert(ps[0] == Seq::<char>::empty() && ps[1] == Seq::<char>::empty());
        assert(!significant(ps[0]) && !significant(ps[1]));
        assert(comps_upto(ps, 0) =~= Seq::<Seq<char>>::empty());
        assert(comps_upto(ps, 1) =~= Seq::<Seq<char>>::empty());
        assert(comps_upto(ps, 2) =~= Seq::<Seq<char>>::empty());
    }
    assert(r[0] == '/');
}

/// Абсолютный путь — от корня и без `.` и `..` (если от корня сам путь или текущий каталог);
/// повторная очистка его уже не меняет.
pub proof fn law_absolute_is_clean(p: Seq<char>, cwd: Seq<char>)
    requires
        rooted(p) || rooted(cwd),
    ensures
        rooted(absolute_of(p, cwd)),
        forall|i: int|
            0 <= i < comps(absolute_of(p, cwd)).len() ==> significant(
                #[trigger] comps(absolute_of(p, cwd))[i],
            ) && comps(absolute_of(p, cwd))[i] != ".."@,
        cleaned(absolute_of(p, cwd)) == absolute_of(p, cwd),
{
    let q = if rooted(p) {
        p
    } else {
        path_join(cwd, p)
    };
    assert(rooted(q)) by {
        if !rooted(p) {
            assert(q[0] == cwd[0]);
        }
    }
    assert(absolute_of(p, cwd) == cleaned(q));
    let cs = comps(q);
    lemma_comps_clean(q);
    let c = cleaned_upto(cs, cs.len() as int);
    lemma_cleaned_upto_clean(cs, cs.len() as int);
    lemma_comps_render_rooted(c);
    let r = render(true, c);
    assert(cleaned(q) == r);
    lemma_cleaned_upto_plain(c, c.len() as int);
    assert(c.take(c.len() as int) =~= c);
}

} // verus!
