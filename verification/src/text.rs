//! Строки как последовательности символов: пробелы, обрезка, строки файла, склейка.
use vstd::prelude::*;

verus! {

// ---------------------------------------------------------------- модель

/// Пробельный символ в смысле Unicode White_Space, как его понимает `char::is_whitespace`.
pub open spec fn is_ws(c: char) -> bool {
    ||| c == '\t'
    ||| c == '\n'
    ||| c == '\u{0B}'
    ||| c == '\u{0C}'
    ||| c == '\r'
    ||| c == ' '
    ||| c == '\u{85}'
    ||| c == '\u{A0}'
    ||| c == '\u{1680}'
    ||| ('\u{2000}' <= c && c <= '\u{200A}')
    ||| c == '\u{2028}'
    ||| c == '\u{2029}'
    ||| c == '\u{202F}'
    ||| c == '\u{205F}'
    ||| c == '\u{3000}'
}

/// Строка без ведущих пробельных символов.
pub open spec fn trim_start(s: Seq<char>) -> Seq<char>
    decreases s.len(),
{
    if s.len() > 0 && is_ws(s[0]) {
        trim_start(s.drop_first())
    } else {
        s
    }
}

/// Строка без хвостовых пробельных символов.
pub open spec fn trim_end(s: Seq<char>) -> Seq<char>
    decreases s.len(),
{
    if s.len() > 0 && is_ws(s.last()) {
        trim_end(s.drop_last())
    } else {
        s
    }
}

/// Строка без пробельных символов по краям.
pub open spec fn trim(s: Seq<char>) -> Seq<char> {
    trim_end(trim_start(s))
}

/// Строка пуста или состоит из одних пробельных символов.
pub open spec fn is_blank(s: Seq<char>) -> bool {
    trim(s).len() == 0
}

/// `p` — начало `s`.
pub open spec fn starts_with(s: Seq<char>, p: Seq<char>) -> bool {
    p.len() <= s.len() && s.subrange(0, p.len() as int) == p
}

/// `p` — конец `s`.
pub open spec fn ends_with(s: Seq<char>, p: Seq<char>) -> bool {
    p.len() <= s.len() && s.subrange(s.len() - p.len(), s.len() as int) == p
}

/// `p` стоит в `s` с позиции `i`.
pub open spec fn occurs_at(s: Seq<char>, p: Seq<char>, i: int) -> bool {
    0 <= i && i + p.len() <= s.len() && s.subrange(i, i + p.len()) == p
}

/// `p` где-то встречается в `s`.
pub open spec fn contains(s: Seq<char>, p: Seq<char>) -> bool {
    exists|i: int| occurs_at(s, p, i)
}

/// Куски строки между разделителями `d`, как у `split(d)`: всегда хотя бы один.
pub open spec fn split_on(s: Seq<char>, d: char) -> Seq<Seq<char>>
    decreases s.len(),
{
    if s.len() == 0 {
        seq![Seq::<char>::empty()]
    } else {
        let p = split_on(s.drop_last(), d);
        if s.last() == d {
            p.push(Seq::<char>::empty())
        } else {
            p.update(p.len() - 1, p.last().push(s.last()))
        }
    }
}

/// Куски между переводами строки.
pub open spec fn pieces(s: Seq<char>) -> Seq<Seq<char>> {
    split_on(s, '\n')
}

/// Число одинаковых символов `c` в начале строки.
pub open spec fn lead_count(s: Seq<char>, c: char) -> nat
    decreases s.len(),
{
    if s.len() > 0 && s[0] == c {
        1 + lead_count(s.drop_first(), c)
    } else {
        0
    }
}

/// Кусок, за которым шёл перевод строки, теряет `\r` перед ним.
pub open spec fn strip_cr(l: Seq<char>) -> Seq<char> {
    if l.len() > 0 && l.last() == '\r' {
        l.drop_last()
    } else {
        l
    }
}

/// Строки текста, как у `str::lines`: разделитель `\n` или `\r\n`, последний перевод строки необязателен.
pub open spec fn lines(s: Seq<char>) -> Seq<Seq<char>> {
    let p = pieces(s);
    let done = p.drop_last().map_values(|l: Seq<char>| strip_cr(l));
    if p.last().len() == 0 {
        done
    } else {
        done.push(p.last())
    }
}

/// Содержимое каждой строки-`String` из набора.
pub open spec fn strs(v: Seq<String>) -> Seq<Seq<char>> {
    v.map_values(|s: String| s@)
}

/// Содержимое каждой строки из набора.
pub open spec fn views(ls: Seq<Vec<char>>) -> Seq<Seq<char>> {
    ls.map_values(|l: Vec<char>| l@)
}

/// Склейка строк через разделитель.
pub open spec fn join(ls: Seq<Seq<char>>, sep: Seq<char>) -> Seq<char>
    decreases ls.len(),
{
    if ls.len() == 0 {
        Seq::<char>::empty()
    } else if ls.len() == 1 {
        ls[0]
    } else {
        join(ls.drop_last(), sep) + sep + ls.last()
    }
}

/// Замена всех непересекающихся вхождений `pat` слева направо, как у `str::replace`.
pub open spec fn replace(s: Seq<char>, pat: Seq<char>, to: Seq<char>) -> Seq<char>
    recommends
        pat.len() > 0,
    decreases s.len(),
{
    if s.len() == 0 || pat.len() == 0 {
        s
    } else if starts_with(s, pat) {
        to + replace(s.subrange(pat.len() as int, s.len() as int), pat, to)
    } else {
        seq![s[0]] + replace(s.drop_first(), pat, to)
    }
}

/// Строчная форма строки по правилам Unicode, как её даёт `str::to_lowercase`.
pub uninterp spec fn lowercase(s: Seq<char>) -> Seq<char>;

/// Десятичная запись числа, как у `format!("{}", n)`.
pub open spec fn decimal(n: nat) -> Seq<char>
    decreases n,
{
    if n < 10 {
        seq![digit_char(n)]
    } else {
        decimal(n / 10) + seq![digit_char(n % 10)]
    }
}

/// Цифра числа от 0 до 9.
pub open spec fn digit_char(d: nat) -> char {
    if d == 0 {
        '0'
    } else if d == 1 {
        '1'
    } else if d == 2 {
        '2'
    } else if d == 3 {
        '3'
    } else if d == 4 {
        '4'
    } else if d == 5 {
        '5'
    } else if d == 6 {
        '6'
    } else if d == 7 {
        '7'
    } else if d == 8 {
        '8'
    } else {
        '9'
    }
}

// ---------------------------------------------------------------- леммы

pub proof fn lemma_trim_start_at(s: Seq<char>, i: int)
    requires
        0 <= i <= s.len(),
        forall|k: int| 0 <= k < i ==> is_ws(#[trigger] s[k]),
        i == s.len() || !is_ws(s[i]),
    ensures
        trim_start(s) == s.subrange(i, s.len() as int),
    decreases i,
{
    if i == 0 {
        assert(s.subrange(0, s.len() as int) =~= s);
    } else {
        assert(is_ws(s[0]));
        let t = s.drop_first();
        assert forall|k: int| 0 <= k < i - 1 implies is_ws(#[trigger] t[k]) by {
            assert(t[k] == s[k + 1]);
        }
        if i - 1 < t.len() {
            assert(t[i - 1] == s[i]);
        }
        lemma_trim_start_at(t, i - 1);
        assert(t.subrange(i - 1, t.len() as int) =~= s.subrange(i, s.len() as int));
    }
}

pub proof fn lemma_trim_end_at(s: Seq<char>, j: int)
    requires
        0 <= j <= s.len(),
        forall|k: int| j <= k < s.len() ==> is_ws(#[trigger] s[k]),
        j == 0 || !is_ws(s[j - 1]),
    ensures
        trim_end(s) == s.subrange(0, j),
    decreases s.len() - j,
{
    if j == s.len() {
        assert(s.subrange(0, j) =~= s);
    } else {
        assert(is_ws(s.last()));
        let t = s.drop_last();
        assert forall|k: int| j <= k < t.len() implies is_ws(#[trigger] t[k]) by {
            assert(t[k] == s[k]);
        }
        if j > 0 {
            assert(t[j - 1] == s[j - 1]);
        }
        lemma_trim_end_at(t, j);
        assert(t.subrange(0, j) =~= s.subrange(0, j));
    }
}

pub proof fn lemma_split_nonempty(s: Seq<char>, d: char)
    ensures
        split_on(s, d).len() >= 1,
    decreases s.len(),
{
    if s.len() > 0 {
        lemma_split_nonempty(s.drop_last(), d);
    }
}

/// Первый кусок — начало строки до первого разделителя; если кусков больше одного, за ним стоит разделитель.
pub proof fn lemma_split_first(s: Seq<char>, d: char)
    ensures
        split_on(s, d).len() >= 1,
        split_on(s, d)[0].len() <= s.len(),
        split_on(s, d)[0] == s.subrange(0, split_on(s, d)[0].len() as int),
        split_on(s, d).len() == 1 ==> split_on(s, d)[0] == s,
        split_on(s, d).len() > 1 ==> split_on(s, d)[0].len() < s.len() && s[split_on(s, d)[0].len() as int] == d,
    decreases s.len(),
{
    if s.len() == 0 {
        assert(s.subrange(0, 0) =~= s);
    } else {
        let t = s.drop_last();
        lemma_split_first(t, d);
        let q = split_on(t, d);
        let k = q[0].len() as int;
        assert(s.subrange(0, k) =~= t.subrange(0, k));
        if s.last() != d && q.len() == 1 {
            assert(split_on(s, d)[0] =~= s);
            assert(s.subrange(0, s.len() as int) =~= s);
        }
        if q.len() > 1 {
            assert(s[k] == t[k]);
        }
        if s.last() == d && q.len() == 1 {
            assert(q[0] == t);
        }
    }
}

/// Разделитель между двумя строками разрезает их ровно по нему.
pub proof fn lemma_split_concat(x: Seq<char>, y: Seq<char>, d: char)
    ensures
        split_on(x + seq![d] + y, d) == split_on(x, d) + split_on(y, d),
    decreases y.len(),
{
    lemma_split_nonempty(x, d);
    if y.len() == 0 {
        assert(x + seq![d] + y =~= (x + seq![d]));
        assert((x + seq![d]).drop_last() =~= x);
    } else {
        let y1 = y.drop_last();
        lemma_split_concat(x, y1, d);
        lemma_split_nonempty(y1, d);
        assert((x + seq![d] + y).drop_last() =~= x + seq![d] + y1);
        let a = split_on(x, d);
        let b = split_on(y1, d);
        if y.last() == d {
            assert((a + b).push(Seq::<char>::empty()) =~= a + b.push(Seq::<char>::empty()));
        } else {
            assert((a + b).update((a + b).len() - 1, (a + b).last().push(y.last())) =~= a + b.update(
                b.len() - 1,
                b.last().push(y.last()),
            ));
        }
    }
}

/// Строка без разделителя — один кусок.
pub proof fn lemma_split_single(x: Seq<char>, d: char)
    requires
        !x.contains(d),
    ensures
        split_on(x, d) == seq![x],
    decreases x.len(),
{
    if x.len() > 0 {
        let t = x.drop_last();
        assert(!t.contains(d)) by {
            if t.contains(d) {
                let k = choose|k: int| 0 <= k < t.len() && t[k] == d;
                assert(x[k] == d);
            }
        }
        lemma_split_single(t, d);
        assert(x[x.len() - 1] == x.last());
        assert(x.last() != d);
        assert(t.push(x.last()) =~= x);
        assert(seq![t].update(0, t.push(x.last())) =~= seq![x]);
    } else {
        assert(x =~= Seq::<char>::empty());
    }
}

/// Куски склейки через разделитель — сами строки, если разделителя в них нет.
pub proof fn lemma_split_join(ls: Seq<Seq<char>>, d: char)
    requires
        ls.len() >= 1,
        forall|i: int| 0 <= i < ls.len() ==> !(#[trigger] ls[i]).contains(d),
    ensures
        split_on(join(ls, seq![d]), d) == ls,
    decreases ls.len(),
{
    if ls.len() == 1 {
        lemma_split_single(ls[0], d);
        assert(seq![ls[0]] =~= ls);
    } else {
        let init = ls.drop_last();
        lemma_split_join(init, d);
        lemma_split_concat(join(init, seq![d]), ls.last(), d);
        lemma_split_single(ls.last(), d);
        assert(init + seq![ls.last()] =~= ls);
    }
}

/// Ни в одной строке текста нет перевода строки.
pub proof fn lemma_lines_no_newline(s: Seq<char>)
    ensures
        forall|i: int| 0 <= i < lines(s).len() ==> !(#[trigger] lines(s)[i]).contains('\n'),
{
    lemma_split_no_sep(s, '\n');
    let p = pieces(s);
    lemma_split_nonempty(s, '\n');
    assert forall|i: int| 0 <= i < lines(s).len() implies !(#[trigger] lines(s)[i]).contains('\n') by {
        if i < p.len() - 1 {
            let l = p[i];
            assert(lines(s)[i] == strip_cr(l));
            if strip_cr(l).contains('\n') {
                let k = choose|k: int| 0 <= k < strip_cr(l).len() && strip_cr(l)[k] == '\n';
                assert(l[k] == '\n');
            }
        } else {
            assert(lines(s)[i] == p.last());
        }
    }
}

/// В кусках нет разделителя.
pub proof fn lemma_split_no_sep(s: Seq<char>, d: char)
    ensures
        forall|i: int| 0 <= i < split_on(s, d).len() ==> !(#[trigger] split_on(s, d)[i]).contains(d),
    decreases s.len(),
{
    if s.len() > 0 {
        let t = s.drop_last();
        lemma_split_no_sep(t, d);
        lemma_split_nonempty(t, d);
        let q = split_on(t, d);
        if s.last() != d {
            let last = q.last().push(s.last());
            assert(!last.contains(d)) by {
                if last.contains(d) {
                    let k = choose|k: int| 0 <= k < last.len() && last[k] == d;
                    assert(q.last()[k] == d);
                }
            }
        } else {
            assert(!Seq::<char>::empty().contains(d));
        }
    }
}

/// Текст из строк, каждая с переводом строки, читается обратно теми же строками
/// (у строк, кончавшихся на `\r`, он снимается вместе с `\n`).
pub proof fn lemma_lines_of_joined(ls: Seq<Seq<char>>)
    requires
        ls.len() >= 1,
        forall|i: int| 0 <= i < ls.len() ==> !(#[trigger] ls[i]).contains('\n'),
    ensures
        lines(join(ls, "\n"@) + "\n"@) == ls.map_values(|l: Seq<char>| strip_cr(l)),
{
    reveal_strlit("\n");
    assert("\n"@ =~= seq!['\n']);
    let j = join(ls, seq!['\n']);
    lemma_split_join(ls, '\n');
    assert(j + seq!['\n'] =~= j + seq!['\n'] + Seq::<char>::empty());
    lemma_split_concat(j, Seq::<char>::empty(), '\n');
    let p = pieces(j + seq!['\n']);
    assert(p =~= ls + seq![Seq::<char>::empty()]);
    assert(p.drop_last() =~= ls);
}

pub proof fn lemma_lead_count_at(s: Seq<char>, c: char, n: int)
    requires
        0 <= n <= s.len(),
        forall|k: int| 0 <= k < n ==> #[trigger] s[k] == c,
        n == s.len() || s[n] != c,
    ensures
        lead_count(s, c) == n,
    decreases n,
{
    if n > 0 {
        let t = s.drop_first();
        assert forall|k: int| 0 <= k < n - 1 implies #[trigger] t[k] == c by {
            assert(t[k] == s[k + 1]);
        }
        if n - 1 < t.len() {
            assert(t[n - 1] == s[n]);
        }
        lemma_lead_count_at(t, c, n - 1);
    }
}

pub proof fn lemma_join_push(ls: Seq<Seq<char>>, sep: Seq<char>, x: Seq<char>)
    ensures
        join(ls.push(x), sep) == if ls.len() == 0 {
            x
        } else {
            join(ls, sep) + sep + x
        },
{
    assert(ls.push(x).drop_last() =~= ls);
}

// ---------------------------------------------------------------- исполнение

/// `String::push`: дописывает символ в конец строки.
#[verifier::external_body]
fn push_char(s: &mut String, c: char)
    ensures
        final(s)@ == old(s)@.push(c),
{
    s.push(c);
}

/// `str::to_lowercase`: строчная форма строки. Что она такое, здесь не расписано:
/// контракт только называет результат `lowercase` от аргумента.
#[verifier::external_body]
pub(crate) fn to_lower(s: &str) -> (r: String)
    ensures
        r@ == lowercase(s@),
{
    s.to_lowercase()
}

fn digit_v(d: usize) -> (c: char)
    requires
        d < 10,
    ensures
        c == digit_char(d as nat),
{
    if d == 0 {
        '0'
    } else if d == 1 {
        '1'
    } else if d == 2 {
        '2'
    } else if d == 3 {
        '3'
    } else if d == 4 {
        '4'
    } else if d == 5 {
        '5'
    } else if d == 6 {
        '6'
    } else if d == 7 {
        '7'
    } else if d == 8 {
        '8'
    } else {
        '9'
    }
}

/// Десятичная запись числа.
pub fn decimal_of(n: usize) -> (r: Vec<char>)
    ensures
        r@ == decimal(n as nat),
    decreases n,
{
    if n < 10 {
        let mut r: Vec<char> = Vec::new();
        r.push(digit_v(n));
        assert(r@ =~= seq![digit_char(n as nat)]);
        r
    } else {
        let mut r = decimal_of(n / 10);
        r.push(digit_v(n % 10));
        r
    }
}

/// Строка из символов.
pub fn string_of(v: &Vec<char>) -> (s: String)
    ensures
        s@ == v@,
{
    let mut s = String::new();
    for i in 0..v.len()
        invariant
            s@ == v@.subrange(0, i as int),
    {
        push_char(&mut s, v[i]);
        assert(v@.subrange(0, i + 1) =~= v@.subrange(0, i as int).push(v@[i as int]));
    }
    assert(v@.subrange(0, v.len() as int) =~= v@);
    s
}

/// Символы строки в порядке следования.
pub fn chars_of(s: &str) -> (v: Vec<char>)
    ensures
        v@ == s@,
{
    let mut v: Vec<char> = Vec::new();
    for c in it: s.chars()
        invariant
            v@ == it.seq().take(it.index() as int),
            it.seq() == s@,
    {
        v.push(c);
    }
    v
}

/// Пробельный символ Unicode.
pub fn is_space(c: char) -> (b: bool)
    ensures
        b == is_ws(c),
{
    c == '\t' || c == '\n' || c == '\u{0B}' || c == '\u{0C}' || c == '\r' || c == ' ' || c
        == '\u{85}' || c == '\u{A0}' || c == '\u{1680}' || ('\u{2000}' <= c && c <= '\u{200A}')
        || c == '\u{2028}' || c == '\u{2029}' || c == '\u{202F}' || c == '\u{205F}' || c
        == '\u{3000}'
}

/// Копия отрезка `[from, to)`.
pub fn slice(v: &Vec<char>, from: usize, to: usize) -> (r: Vec<char>)
    requires
        from <= to <= v.len(),
    ensures
        r@ == v@.subrange(from as int, to as int),
{
    let mut r: Vec<char> = Vec::new();
    let mut i = from;
    while i < to
        invariant
            from <= i <= to <= v.len(),
            r@ == v@.subrange(from as int, i as int),
        decreases to - i,
    {
        r.push(v[i]);
        assert(v@.subrange(from as int, i + 1) =~= v@.subrange(from as int, i as int).push(
            v@[i as int],
        ));
        i += 1;
    }
    r
}

/// Копия строки символов.
pub fn copy(v: &Vec<char>) -> (r: Vec<char>)
    ensures
        r@ == v@,
{
    let r = slice(v, 0, v.len());
    assert(v@.subrange(0, v.len() as int) =~= v@);
    r
}

/// Дописывает `w` в конец `v`.
pub fn extend(v: &mut Vec<char>, w: &Vec<char>)
    ensures
        final(v)@ == old(v)@ + w@,
{
    let mut tail = copy(w);
    v.append(&mut tail);
}

/// Начало содержательной части: первый непробельный символ.
pub fn trim_start_index(v: &Vec<char>) -> (i: usize)
    ensures
        i <= v.len(),
        trim_start(v@) == v@.subrange(i as int, v.len() as int),
{
    let mut i: usize = 0;
    while i < v.len() && is_space(v[i])
        invariant
            i <= v.len(),
            forall|k: int| 0 <= k < i ==> is_ws(#[trigger] v@[k]),
        decreases v.len() - i,
    {
        i += 1;
    }
    proof {
        lemma_trim_start_at(v@, i as int);
    }
    i
}

/// Конец содержательной части: за последним непробельным символом.
pub fn trim_end_index(v: &Vec<char>) -> (j: usize)
    ensures
        j <= v.len(),
        trim_end(v@) == v@.subrange(0, j as int),
{
    let mut j: usize = v.len();
    while j > 0 && is_space(v[j - 1])
        invariant
            j <= v.len(),
            forall|k: int| j <= k < v.len() ==> is_ws(#[trigger] v@[k]),
        decreases j,
    {
        j -= 1;
    }
    proof {
        lemma_trim_end_at(v@, j as int);
    }
    j
}

/// Без ведущих пробельных символов.
pub fn trimmed_start(v: &Vec<char>) -> (r: Vec<char>)
    ensures
        r@ == trim_start(v@),
{
    let i = trim_start_index(v);
    slice(v, i, v.len())
}

/// Без хвостовых пробельных символов.
pub fn trimmed_end(v: &Vec<char>) -> (r: Vec<char>)
    ensures
        r@ == trim_end(v@),
{
    let j = trim_end_index(v);
    slice(v, 0, j)
}

/// Без пробельных символов по краям.
pub fn trimmed(v: &Vec<char>) -> (r: Vec<char>)
    ensures
        r@ == trim(v@),
{
    let s = trimmed_start(v);
    trimmed_end(&s)
}

/// Пуста или из одних пробелов.
pub fn blank(v: &Vec<char>) -> (b: bool)
    ensures
        b == is_blank(v@),
{
    let t = trimmed(v);
    t.len() == 0
}

/// Совпадение `p` с `v` начиная с позиции `i`.
pub fn matches_at(v: &Vec<char>, p: &Vec<char>, i: usize) -> (b: bool)
    requires
        i <= v.len(),
    ensures
        b == occurs_at(v@, p@, i as int),
{
    if p.len() > v.len() - i {
        return false;
    }
    let mut k: usize = 0;
    while k < p.len()
        invariant
            i + p.len() <= v.len(),
            k <= p.len(),
            forall|m: int| 0 <= m < k ==> v@[i + m] == p@[m],
        decreases p.len() - k,
    {
        if v[i + k] != p[k] {
            assert(v@.subrange(i as int, i + p.len())[k as int] != p@[k as int]);
            return false;
        }
        k += 1;
    }
    assert(v@.subrange(i as int, i + p.len()) =~= p@);
    true
}

/// `v` начинается с `p`.
pub fn has_prefix(v: &Vec<char>, p: &Vec<char>) -> (b: bool)
    ensures
        b == starts_with(v@, p@),
{
    matches_at(v, p, 0)
}

/// `v` кончается на `p`.
pub fn has_suffix(v: &Vec<char>, p: &Vec<char>) -> (b: bool)
    ensures
        b == ends_with(v@, p@),
{
    if p.len() > v.len() {
        return false;
    }
    matches_at(v, p, v.len() - p.len())
}

/// Первое вхождение `p` в `v`, если оно есть.
pub fn find(v: &Vec<char>, p: &Vec<char>) -> (r: Option<usize>)
    ensures
        r matches Some(i) ==> occurs_at(v@, p@, i as int) && forall|k: int|
            0 <= k < i ==> !occurs_at(v@, p@, k),
        r is None ==> !contains(v@, p@),
{
    let mut i: usize = 0;
    loop
        invariant
            i <= v.len(),
            forall|k: int| 0 <= k < i ==> !occurs_at(v@, p@, k),
        ensures
            forall|k: int| 0 <= k <= v.len() ==> !occurs_at(v@, p@, k),
        decreases v.len() - i,
    {
        if matches_at(v, p, i) {
            return Some(i);
        }
        if i == v.len() {
            break;
        }
        i += 1;
    }
    None
}

/// `p` встречается в `v`.
pub fn includes(v: &Vec<char>, p: &Vec<char>) -> (b: bool)
    ensures
        b == contains(v@, p@),
{
    find(v, p).is_some()
}

/// Посимвольное равенство.
pub fn same(a: &Vec<char>, b: &Vec<char>) -> (r: bool)
    ensures
        r == (a@ == b@),
{
    if a.len() != b.len() {
        return false;
    }
    let r = matches_at(a, b, 0);
    proof {
        if r {
            assert(a@.subrange(0, a@.len() as int) =~= a@);
        } else {
            assert(a@.subrange(0, b@.len() as int) =~= a@);
        }
    }
    r
}

/// Строки текста, как у `str::lines`.
pub fn lines_of(v: &Vec<char>) -> (ls: Vec<Vec<char>>)
    ensures
        views(ls@) == lines(v@),
{
    let mut done: Vec<Vec<char>> = Vec::new();
    let mut cur: Vec<char> = Vec::new();
    let ghost mut raw: Seq<Seq<char>> = seq![];
    for i in 0..v.len()
        invariant
            pieces(v@.subrange(0, i as int)) == raw.push(cur@),
            views(done@) == raw.map_values(|l: Seq<char>| strip_cr(l)),
    {
        let ghost pre = v@.subrange(0, i as int);
        assert(v@.subrange(0, i + 1).drop_last() =~= pre);
        let c = v[i];
        if c == '\n' {
            let mut line = cur;
            if line.len() > 0 && line[line.len() - 1] == '\r' {
                line.pop();
            }
            let ghost old_done = done@;
            let ghost old_raw = raw;
            proof {
                raw = raw.push(cur@);
            }
            assert(line@ == strip_cr(cur@));
            done.push(line);
            assert(views(done@) =~= views(old_done).push(line@));
            assert(raw.map_values(|l: Seq<char>| strip_cr(l)) =~= old_raw.map_values(
                |l: Seq<char>| strip_cr(l),
            ).push(strip_cr(cur@)));
            cur = Vec::new();
            assert(views(done@) =~= raw.map_values(|l: Seq<char>| strip_cr(l)));
        } else {
            cur.push(c);
            assert(pieces(v@.subrange(0, i + 1)) =~= raw.push(cur@));
        }
    }
    assert(v@.subrange(0, v.len() as int) =~= v@);
    let ghost p = pieces(v@);
    assert(p.drop_last() =~= raw);
    if cur.len() > 0 {
        done.push(cur);
        assert(views(done@) =~= lines(v@));
    } else {
        assert(views(done@) =~= lines(v@));
    }
    done
}

/// Куски между разделителями `d`, как у `split(d)`.
pub fn split_by(v: &Vec<char>, d: char) -> (ps: Vec<Vec<char>>)
    ensures
        views(ps@) == split_on(v@, d),
{
    let mut done: Vec<Vec<char>> = Vec::new();
    let mut cur: Vec<char> = Vec::new();
    for i in 0..v.len()
        invariant
            split_on(v@.subrange(0, i as int), d) == views(done@).push(cur@),
    {
        assert(v@.subrange(0, i + 1).drop_last() =~= v@.subrange(0, i as int));
        let c = v[i];
        if c == d {
            let ghost old_done = done@;
            let piece = cur;
            done.push(piece);
            cur = Vec::new();
            assert(views(done@) =~= views(old_done).push(piece@));
        } else {
            cur.push(c);
            assert(split_on(v@.subrange(0, i + 1), d) =~= views(done@).push(cur@));
        }
    }
    assert(v@.subrange(0, v.len() as int) =~= v@);
    let ghost old_done = done@;
    done.push(cur);
    assert(views(done@) =~= views(old_done).push(cur@));
    done
}

/// Число одинаковых символов `c` в начале строки.
pub fn count_lead(v: &Vec<char>, c: char) -> (n: usize)
    ensures
        n == lead_count(v@, c),
        n <= v.len(),
{
    let mut n: usize = 0;
    while n < v.len() && v[n] == c
        invariant
            n <= v.len(),
            forall|k: int| 0 <= k < n ==> #[trigger] v@[k] == c,
        decreases v.len() - n,
    {
        n += 1;
    }
    proof {
        lemma_lead_count_at(v@, c, n as int);
    }
    n
}

/// Склейка строк через разделитель.
pub fn join_with(ls: &Vec<Vec<char>>, sep: &Vec<char>) -> (r: Vec<char>)
    ensures
        r@ == join(views(ls@), sep@),
{
    let mut r: Vec<char> = Vec::new();
    for i in 0..ls.len()
        invariant
            r@ == join(views(ls@).subrange(0, i as int), sep@),
    {
        let ghost before = views(ls@).subrange(0, i as int);
        proof {
            lemma_join_push(before, sep@, views(ls@)[i as int]);
            assert(views(ls@).subrange(0, i + 1) =~= before.push(views(ls@)[i as int]));
        }
        if i > 0 {
            extend(&mut r, sep);
        }
        extend(&mut r, &ls[i]);
    }
    assert(views(ls@).subrange(0, ls.len() as int) =~= views(ls@));
    r
}

/// Замена всех вхождений непустого `pat` на `to`.
pub fn replace_all(v: &Vec<char>, pat: &Vec<char>, to: &Vec<char>) -> (r: Vec<char>)
    requires
        pat.len() > 0,
    ensures
        r@ == replace(v@, pat@, to@),
{
    let mut r: Vec<char> = Vec::new();
    let mut i: usize = 0;
    assert(v@.subrange(0, v.len() as int) =~= v@);
    assert(r@ + v@ =~= v@);
    while i < v.len()
        invariant
            pat.len() > 0,
            i <= v.len(),
            r@ + replace(v@.subrange(i as int, v.len() as int), pat@, to@) == replace(
                v@,
                pat@,
                to@,
            ),
        decreases v.len() - i,
    {
        let ghost rest = v@.subrange(i as int, v.len() as int);
        if matches_at(v, pat, i) {
            assert(starts_with(rest, pat@)) by {
                assert(rest.subrange(0, pat@.len() as int) =~= v@.subrange(
                    i as int,
                    i + pat@.len(),
                ));
            }
            assert(rest.subrange(pat@.len() as int, rest.len() as int) =~= v@.subrange(
                i + pat@.len(),
                v.len() as int,
            ));
            extend(&mut r, to);
            i += pat.len();
            assert(r@ + replace(v@.subrange(i as int, v.len() as int), pat@, to@) =~= replace(
                v@,
                pat@,
                to@,
            ));
        } else {
            assert(!starts_with(rest, pat@)) by {
                if starts_with(rest, pat@) {
                    assert(rest.subrange(0, pat@.len() as int) =~= v@.subrange(
                        i as int,
                        i + pat@.len(),
                    ));
                }
            }
            assert(rest.drop_first() =~= v@.subrange(i + 1, v.len() as int));
            r.push(v[i]);
            i += 1;
            assert(r@ + replace(v@.subrange(i as int, v.len() as int), pat@, to@) =~= replace(
                v@,
                pat@,
                to@,
            ));
        }
    }
    assert(v@.subrange(v.len() as int, v.len() as int) =~= Seq::<char>::empty());
    assert(r@ + Seq::<char>::empty() =~= r@);
    r
}

} // verus!
