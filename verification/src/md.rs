//! Разбор и правка markdown записи: фронтматтер, секции, таблица бэклога,
//! нормализация заголовков во входящем тексте.
use vstd::prelude::*;

use crate::text::{
    blank, chars_of, contains, copy, count_lead, extend, has_prefix, includes, is_blank, is_space,
    is_ws, join, join_with, lead_count, lines, lines_of, lowercase, replace, replace_all, same,
    slice, split_by, split_on, starts_with, string_of, strs, to_lower, trim, trim_end,
    trim_end_index, trim_start, trim_start_index, trimmed, trimmed_end, trimmed_start, views,
};

verus! {

/// Что делать с заголовками в добавляемом тексте.
#[derive(Clone, Copy, PartialEq, Eq, Debug, Structural)]
pub enum Headings {
    /// сдвинуть вглубь, чтобы они легли под секцию записи
    Shift,
    /// превратить в жирную строку
    Bold,
    /// выбросить строку заголовка
    Strip,
}

impl Default for Headings {
    fn default() -> (h: Self)
        ensures
            h == Headings::Shift,
    {
        Headings::Shift
    }
}

/// Режим по имени из командной строки.
pub open spec fn headings_named(s: Seq<char>) -> Option<Headings> {
    if s == "shift"@ {
        Some(Headings::Shift)
    } else if s == "bold"@ {
        Some(Headings::Bold)
    } else if s == "strip"@ {
        Some(Headings::Strip)
    } else {
        None
    }
}

/// Отказ для незнакомого режима.
pub open spec fn headings_error(s: Seq<char>) -> Seq<char> {
    "--headings принимает shift, bold или strip, а не `"@ + s + "`"@
}

impl Headings {
    pub fn parse(s: &str) -> (r: Result<Self, String>)
        ensures
            match headings_named(s@) {
                Some(h) => r == Ok::<Headings, String>(h),
                None => r matches Err(e) && e@ == headings_error(s@),
            },
    {
        let v = chars_of(s);
        if same(&v, &chars_of("shift")) {
            Ok(Headings::Shift)
        } else if same(&v, &chars_of("bold")) {
            Ok(Headings::Bold)
        } else if same(&v, &chars_of("strip")) {
            Ok(Headings::Strip)
        } else {
            let mut e = chars_of("--headings принимает shift, bold или strip, а не `");
            extend(&mut e, &v);
            extend(&mut e, &chars_of("`"));
            Err(string_of(&e))
        }
    }
}

// ---------------------------------------------------------------- примитивы

/// `## Заголовок` → `(2, "Заголовок")`: от одной до шести `#` с начала строки,
/// затем конец строки или пробел. Отступ не допускается.
pub open spec fn heading_of(l: Seq<char>) -> Option<(nat, Seq<char>)> {
    let n = lead_count(l, '#');
    let rest = l.subrange(n as int, l.len() as int);
    if n == 0 || n > 6 {
        None
    } else if rest.len() == 0 {
        Some((n, Seq::<char>::empty()))
    } else if rest[0] != ' ' {
        None
    } else {
        Some((n, trim(rest)))
    }
}

/// Заголовок второго уровня: его текст.
pub open spec fn level2(l: Seq<char>) -> Option<Seq<char>> {
    match heading_of(l) {
        Some((n, t)) => if n == 2 {
            Some(t)
        } else {
            None
        },
        None => None,
    }
}

/// Строка-ограждение блока кода.
pub open spec fn is_fence(l: Seq<char>) -> bool {
    starts_with(trim_start(l), "```"@) || starts_with(trim_start(l), "~~~"@)
}

/// Перед строкой `i` открыт блок кода: выше нечётное число ограждений.
pub open spec fn in_code(ls: Seq<Seq<char>>, i: int) -> bool
    decreases i,
{
    if i <= 0 {
        false
    } else {
        in_code(ls, i - 1) != is_fence(ls[i - 1])
    }
}

/// Строка `i` — обычный текст вне блоков кода.
pub open spec fn prose(ls: Seq<Seq<char>>, i: int) -> bool {
    !is_fence(ls[i]) && !in_code(ls, i)
}

proof fn lemma_lead_count_le(s: Seq<char>, c: char)
    ensures
        lead_count(s, c) <= s.len(),
    decreases s.len(),
{
    if s.len() > 0 && s[0] == c {
        lemma_lead_count_le(s.drop_first(), c);
    }
}

/// Заголовок строки: уровень и границы текста в ней.
fn heading_parts(l: &Vec<char>) -> (r: Option<(usize, usize, usize)>)
    ensures
        match r {
            None => heading_of(l@) is None,
            Some((n, a, b)) => a <= b <= l.len() && heading_of(l@) == Some(
                (n as nat, l@.subrange(a as int, b as int)),
            ),
        },
{
    let n = count_lead(l, '#');
    let ghost rest = l@.subrange(n as int, l.len() as int);
    if n == 0 || n > 6 {
        return None;
    }
    if n == l.len() {
        assert(rest =~= Seq::<char>::empty());
        assert(l@.subrange(n as int, n as int) =~= Seq::<char>::empty());
        return Some((n, n, n));
    }
    if l[n] != ' ' {
        return None;
    }
    let r = slice(l, n, l.len());
    let a = trim_start_index(&r);
    let s = slice(&r, a, r.len());
    let b = trim_end_index(&s);
    proof {
        assert(trim(rest) == s@.subrange(0, b as int));
        assert(s@.subrange(0, b as int) =~= l@.subrange(n + a, n + a + b));
    }
    Some((n, n + a, n + a + b))
}

/// `## Заголовок` → `(2, "Заголовок")`. Отступ не допускается: это код, а не заголовок.
pub fn heading(line: &str) -> (r: Option<(usize, &str)>)
    ensures
        match r {
            None => heading_of(line@) is None,
            Some((n, t)) => heading_of(line@) == Some((n as nat, t@)),
        },
{
    let v = chars_of(line);
    match heading_parts(&v) {
        None => None,
        Some((n, a, b)) => Some((n, line.substring_char(a, b))),
    }
}

/// Уровень и текст заголовка строки.
fn heading_v(l: &Vec<char>) -> (r: Option<(usize, Vec<char>)>)
    ensures
        match r {
            None => heading_of(l@) is None,
            Some((n, t)) => heading_of(l@) == Some((n as nat, t@)),
        },
{
    match heading_parts(l) {
        None => None,
        Some((n, a, b)) => Some((n, slice(l, a, b))),
    }
}

/// Текст заголовка второго уровня.
fn level2_v(l: &Vec<char>) -> (r: Option<Vec<char>>)
    ensures
        match r {
            None => level2(l@) is None,
            Some(t) => level2(l@) == Some(t@),
        },
{
    match heading_v(l) {
        Some((n, t)) => if n == 2 {
            Some(t)
        } else {
            None
        },
        None => None,
    }
}

fn fence_v(l: &Vec<char>) -> (b: bool)
    ensures
        b == is_fence(l@),
{
    let t = trimmed_start(l);
    has_prefix(&t, &chars_of("```")) || has_prefix(&t, &chars_of("~~~"))
}

// ---------------------------------------------------------------- фронтматтер

/// Позиция за ближайшим переводом строки начиная с `i`, либо конец.
pub open spec fn next_nl(s: Seq<char>, i: int) -> int
    decreases s.len() - i,
{
    if i >= s.len() {
        s.len() as int
    } else if s[i] == '\n' {
        i + 1
    } else {
        next_nl(s, i + 1)
    }
}

pub proof fn lemma_next_nl(s: Seq<char>, i: int)
    requires
        0 <= i,
    ensures
        i < s.len() ==> i < next_nl(s, i) <= s.len(),
        i >= s.len() ==> next_nl(s, i) == s.len(),
    decreases s.len() - i,
{
    if i < s.len() && s[i] != '\n' {
        lemma_next_nl(s, i + 1);
    }
}

/// Конец строки-закрытия `---` среди строк `s`, начиная с позиции `i`.
pub open spec fn fm_close(s: Seq<char>, i: int) -> Option<int>
    decreases s.len() - i,
{
    if i < 0 || i >= s.len() {
        None
    } else {
        let e = next_nl(s, i);
        proof {
            lemma_next_nl(s, i);
        }
        if trim_end(s.subrange(i, e)) == "---"@ {
            Some(e)
        } else {
            fm_close(s, e)
        }
    }
}

/// Начало тела записи: за BOM и закрытым фронтматтером, если они есть.
pub open spec fn body_start(t: Seq<char>) -> int {
    let b: int = if t.len() > 0 && t[0] == '\u{feff}' {
        1
    } else {
        0
    };
    let u = t.subrange(b, t.len() as int);
    let o: int = if starts_with(u, "---\n"@) {
        "---\n"@.len() as int
    } else if starts_with(u, "---\r\n"@) {
        "---\r\n"@.len() as int
    } else {
        -1
    };
    if o < 0 {
        b
    } else {
        match fm_close(u, o) {
            Some(e) => b + e,
            None => b,
        }
    }
}

fn next_nl_v(s: &Vec<char>, i: usize) -> (e: usize)
    requires
        i <= s.len(),
    ensures
        e == next_nl(s@, i as int),
{
    let mut j = i;
    proof {
        lemma_next_nl(s@, i as int);
    }
    while j < s.len() && s[j] != '\n'
        invariant
            i <= j <= s.len(),
            next_nl(s@, j as int) == next_nl(s@, i as int),
        decreases s.len() - j,
    {
        j += 1;
    }
    if j < s.len() {
        j + 1
    } else {
        j
    }
}

fn body_start_v(t: &Vec<char>) -> (k: usize)
    ensures
        k as int == body_start(t@),
        k <= t.len(),
{
    let b: usize = if t.len() > 0 && t[0] == '\u{feff}' {
        1
    } else {
        0
    };
    let u = slice(t, b, t.len());
    let o: usize = if has_prefix(&u, &chars_of("---\n")) {
        chars_of("---\n").len()
    } else if has_prefix(&u, &chars_of("---\r\n")) {
        chars_of("---\r\n").len()
    } else {
        return b;
    };
    let dashes = chars_of("---");
    let mut i = o;
    assert(body_start(t@) == match fm_close(u@, o as int) {
        Some(e) => b + e,
        None => b as int,
    });
    while i < u.len()
        invariant
            o <= i <= u.len(),
            b <= t.len(),
            u@ == t@.subrange(b as int, t.len() as int),
            body_start(t@) == match fm_close(u@, o as int) {
                Some(e) => b + e,
                None => b as int,
            },
            fm_close(u@, o as int) == fm_close(u@, i as int),
            dashes@ == "---"@,
        decreases u.len() - i,
    {
        let e = next_nl_v(&u, i);
        proof {
            lemma_next_nl(u@, i as int);
        }
        let chunk = slice(&u, i, e);
        if same(&trimmed_end(&chunk), &dashes) {
            assert(fm_close(u@, i as int) == Some(e as int));
            assert(e <= u.len());
            return b + e;
        }
        i = e;
    }
    b
}

/// Отрезает YAML-фронтматтер, если он есть. Незакрытый `---` фронтматтером не считается.
pub fn strip_frontmatter(text: &str) -> (r: &str)
    ensures
        0 <= body_start(text@) <= text@.len(),
        r@ == text@.subrange(body_start(text@), text@.len() as int),
{
    let v = chars_of(text);
    let k = body_start_v(&v);
    text.substring_char(k, v.len())
}

/// Значение поля фронтматтера среди строк `i..`: до закрывающей `---`.
pub open spec fn front_scan(ls: Seq<Seq<char>>, prefix: Seq<char>, i: int) -> Option<Seq<char>>
    decreases ls.len() - i,
{
    if i < 0 || i >= ls.len() {
        None
    } else if trim(ls[i]) == "---"@ {
        None
    } else if starts_with(ls[i], prefix) {
        let v = trim(ls[i].subrange(prefix.len() as int, ls[i].len() as int));
        if v.len() == 0 {
            None
        } else {
            Some(v)
        }
    } else {
        front_scan(ls, prefix, i + 1)
    }
}

/// Значение поля `key` во фронтматтере, который открывается первой же строкой `---`.
pub open spec fn front_value(text: Seq<char>, key: Seq<char>) -> Option<Seq<char>> {
    let ls = lines(text);
    if ls.len() == 0 || trim(ls[0]) != "---"@ {
        None
    } else {
        front_scan(ls, key + ":"@, 1)
    }
}

/// Значение поля YAML-фронтматтера в шапке файла.
pub fn front(text: &str, key: &str) -> (r: Option<String>)
    ensures
        match r {
            None => front_value(text@, key@) is None,
            Some(s) => front_value(text@, key@) == Some(s@),
        },
{
    let ls = lines_of(&chars_of(text));
    let dashes = chars_of("---");
    if ls.len() == 0 || !same(&trimmed(&ls[0]), &dashes) {
        return None;
    }
    let mut prefix = chars_of(key);
    extend(&mut prefix, &chars_of(":"));
    let mut i: usize = 1;
    while i < ls.len()
        invariant
            1 <= i <= ls.len(),
            views(ls@).len() == ls.len(),
            front_value(text@, key@) == front_scan(views(ls@), prefix@, i as int),
            views(ls@) == lines(text@),
            prefix@ == key@ + ":"@,
            dashes@ == "---"@,
        decreases ls.len() - i,
    {
        let l = &ls[i];
        assert(views(ls@)[i as int] == l@);
        if same(&trimmed(l), &dashes) {
            return None;
        }
        if has_prefix(l, &prefix) {
            let v = trimmed(&slice(l, prefix.len(), l.len()));
            if v.len() == 0 {
                return None;
            }
            return Some(string_of(&v));
        }
        i += 1;
    }
    None
}

/// Поиск первой содержательной строки секции среди строк `i..`.
pub open spec fn lead_scan(ls: Seq<Seq<char>>, name: Seq<char>, i: int, inside: bool) -> Option<
    Seq<char>,
>
    decreases ls.len() - i,
{
    if i < 0 || i >= ls.len() {
        None
    } else if starts_with(ls[i], "## "@) {
        if inside {
            None
        } else {
            lead_scan(
                ls,
                name,
                i + 1,
                trim(ls[i].subrange("## "@.len() as int, ls[i].len() as int)) == name,
            )
        }
    } else if !inside {
        lead_scan(ls, name, i + 1, false)
    } else if trim(ls[i]).len() == 0 || starts_with(trim(ls[i]), "<!--"@) {
        lead_scan(ls, name, i + 1, true)
    } else {
        Some(trim(ls[i]))
    }
}

/// Первая содержательная строка секции; HTML-комментарии пропускаются.
pub fn section_lead(text: &str, name: &str) -> (r: Option<String>)
    ensures
        match r {
            None => lead_scan(lines(text@), name@, 0, false) is None,
            Some(s) => lead_scan(lines(text@), name@, 0, false) == Some(s@),
        },
{
    let ls = lines_of(&chars_of(text));
    let nm = chars_of(name);
    let head = chars_of("## ");
    let comment = chars_of("<!--");
    let mut inside = false;
    let mut i: usize = 0;
    while i < ls.len()
        invariant
            i <= ls.len(),
            views(ls@) == lines(text@),
            views(ls@).len() == ls.len(),
            lead_scan(lines(text@), name@, 0, false) == lead_scan(
                views(ls@),
                name@,
                i as int,
                inside,
            ),
            nm@ == name@,
            head@ == "## "@,
            comment@ == "<!--"@,
        decreases ls.len() - i,
    {
        let l = &ls[i];
        assert(views(ls@)[i as int] == l@);
        if has_prefix(l, &head) {
            if inside {
                return None;
            }
            let h = trimmed(&slice(l, head.len(), l.len()));
            inside = same(&h, &nm);
            i += 1;
            continue;
        }
        if !inside {
            i += 1;
            continue;
        }
        let t = trimmed(l);
        if t.len() == 0 || has_prefix(&t, &comment) {
            i += 1;
            continue;
        }
        return Some(string_of(&t));
    }
    None
}

// ---------------------------------------------------------------- секции

/// Заголовки второго уровня вне блоков кода среди первых `i` строк.
pub open spec fn titles_upto(ls: Seq<Seq<char>>, i: int) -> Seq<Seq<char>>
    decreases i,
{
    if i <= 0 {
        Seq::<Seq<char>>::empty()
    } else {
        let prev = titles_upto(ls, i - 1);
        match level2(ls[i - 1]) {
            Some(t) => if prose(ls, i - 1) {
                prev.push(t)
            } else {
                prev
            },
            None => prev,
        }
    }
}

/// Заголовки секций второго уровня записи, в порядке следования.
pub open spec fn section_titles(text: Seq<char>) -> Seq<Seq<char>> {
    titles_upto(lines(text), lines(text).len() as int)
}

/// Заголовки секций второго уровня, в порядке следования.
pub fn sections(text: &str) -> (r: Vec<String>)
    ensures
        strs(r@) == section_titles(text@),
{
    let ls = lines_of(&chars_of(text));
    let mut out: Vec<String> = Vec::new();
    let mut fence = false;
    for i in 0..ls.len()
        invariant
            views(ls@) == lines(text@),
            views(ls@).len() == ls.len(),
            fence == in_code(views(ls@), i as int),
            strs(out@) == titles_upto(views(ls@), i as int),
    {
        let l = &ls[i];
        assert(views(ls@)[i as int] == l@);
        let ghost old_out = out@;
        if fence_v(l) {
            fence = !fence;
        } else if !fence {
            if let Some(t) = level2_v(l) {
                out.push(string_of(&t));
                assert(strs(out@) =~= strs(old_out).push(t@));
            }
        }
    }
    out
}

// ---------------------------------------------------------------- таблица бэклога

/// Строка таблицы «Кандидаты в бэклог».
#[derive(Debug)]
pub struct BacklogRow {
    /// номер строки в записи, с единицы
    pub line: usize,
    /// строка таблицы без хвостовых `|`, пробелов и табуляций
    pub text: String,
    /// первая ячейка без пробелов по краям
    pub direction: String,
    /// четвёртая ячейка без пробелов по краям; пусто — кандидат ещё открыт
    pub status: String,
}

impl View for BacklogRow {
    type V = (nat, Seq<char>, Seq<char>, Seq<char>);

    open spec fn view(&self) -> Self::V {
        (self.line as nat, self.text@, self.direction@, self.status@)
    }
}

/// Символ, который `trim_end_matches(['|', ' ', '\t'])` снимает с хвоста.
pub open spec fn is_edge(c: char) -> bool {
    c == '|' || c == ' ' || c == '\t'
}

/// Строка без хвостовых `|`, пробелов и табуляций.
pub open spec fn trim_pipes(s: Seq<char>) -> Seq<char>
    decreases s.len(),
{
    if s.len() > 0 && is_edge(s.last()) {
        trim_pipes(s.drop_last())
    } else {
        s
    }
}

/// Строка — заглушка или разделитель: кроме `|` и пробелов в ней только `-` и `:`.
pub open spec fn is_rule(s: Seq<char>) -> bool {
    forall|k: int| 0 <= k < s.len() ==> {
        let c = #[trigger] s[k];
        c == '|' || is_ws(c) || c == '-' || c == ':'
    }
}

/// Строка (уже без хвостовых пробелов) — строка данных таблицы.
pub open spec fn is_data_row(t: Seq<char>) -> bool {
    starts_with(t, "|"@) && !contains(t, "Направление"@) && !is_rule(t)
}

/// Ячейка `k` таблицы без пробелов по краям; нет такой — пусто.
pub open spec fn cell_at(t: Seq<char>, k: int) -> Seq<char> {
    let cs = split_on(t, '|');
    if k < cs.len() {
        trim(cs[k])
    } else {
        Seq::<char>::empty()
    }
}

/// Строка таблицы в записи под номером `n`.
pub open spec fn row_model(l: Seq<char>, n: nat) -> (nat, Seq<char>, Seq<char>, Seq<char>) {
    let t = trim_pipes(trim_end(l));
    (n, t, cell_at(t, 1), cell_at(t, 4))
}

/// Строки таблицы в секциях «Кандидаты в бэклог» среди строк `i..`.
pub open spec fn rows_scan(ls: Seq<Seq<char>>, i: int, inside: bool) -> Seq<
    (nat, Seq<char>, Seq<char>, Seq<char>),
>
    decreases ls.len() - i,
{
    if i < 0 || i >= ls.len() {
        Seq::empty()
    } else if starts_with(ls[i], "## "@) {
        rows_scan(ls, i + 1, contains(ls[i], "Кандидаты в бэклог"@))
    } else if inside && is_data_row(trim_end(ls[i])) {
        seq![row_model(ls[i], (i + 1) as nat)] + rows_scan(ls, i + 1, true)
    } else {
        rows_scan(ls, i + 1, inside)
    }
}

/// Строки таблиц кандидатов записи.
pub open spec fn backlog_of(text: Seq<char>) -> Seq<(nat, Seq<char>, Seq<char>, Seq<char>)> {
    rows_scan(lines(text), 0, false)
}

pub proof fn lemma_trim_pipes_at(s: Seq<char>, j: int)
    requires
        0 <= j <= s.len(),
        forall|k: int| j <= k < s.len() ==> is_edge(#[trigger] s[k]),
        j == 0 || !is_edge(s[j - 1]),
    ensures
        trim_pipes(s) == s.subrange(0, j),
    decreases s.len() - j,
{
    if j == s.len() {
        assert(s.subrange(0, j) =~= s);
    } else {
        let t = s.drop_last();
        assert forall|k: int| j <= k < t.len() implies is_edge(#[trigger] t[k]) by {
            assert(t[k] == s[k]);
        }
        if j > 0 {
            assert(t[j - 1] == s[j - 1]);
        }
        lemma_trim_pipes_at(t, j);
        assert(t.subrange(0, j) =~= s.subrange(0, j));
    }
}

fn trim_pipes_v(v: &Vec<char>) -> (r: Vec<char>)
    ensures
        r@ == trim_pipes(v@),
{
    let mut j: usize = v.len();
    while j > 0 && (v[j - 1] == '|' || v[j - 1] == ' ' || v[j - 1] == '\t')
        invariant
            j <= v.len(),
            forall|k: int| j <= k < v.len() ==> is_edge(#[trigger] v@[k]),
        decreases j,
    {
        j -= 1;
    }
    proof {
        lemma_trim_pipes_at(v@, j as int);
    }
    slice(v, 0, j)
}

fn rule_v(v: &Vec<char>) -> (b: bool)
    ensures
        b == is_rule(v@),
{
    for k in 0..v.len()
        invariant
            forall|m: int| 0 <= m < k ==> {
                let c = #[trigger] v@[m];
                c == '|' || is_ws(c) || c == '-' || c == ':'
            },
    {
        let c = v[k];
        if !(c == '|' || is_space(c) || c == '-' || c == ':') {
            return false;
        }
    }
    true
}

fn cell_at_v(t: &Vec<char>, k: usize) -> (r: Vec<char>)
    ensures
        r@ == cell_at(t@, k as int),
{
    let cs = split_by(t, '|');
    if k < cs.len() {
        assert(views(cs@)[k as int] == cs@[k as int]@);
        trimmed(&cs[k])
    } else {
        Vec::new()
    }
}

/// Строки таблицы из секции «Кандидаты в бэклог», без шапки, разделителя и пустых.
pub fn backlog_rows(text: &str) -> (rows: Vec<BacklogRow>)
    ensures
        rows@.map_values(|r: BacklogRow| r@) == backlog_of(text@),
{
    let ls = lines_of(&chars_of(text));
    let head = chars_of("## ");
    let marker = chars_of("Кандидаты в бэклог");
    let pipe = chars_of("|");
    let title = chars_of("Направление");
    let mut rows: Vec<BacklogRow> = Vec::new();
    let mut inside = false;
    for i in 0..ls.len()
        invariant
            views(ls@) == lines(text@),
            views(ls@).len() == ls.len(),
            rows@.map_values(|r: BacklogRow| r@) + rows_scan(views(ls@), i as int, inside)
                == backlog_of(text@),
            head@ == "## "@,
            marker@ == "Кандидаты в бэклог"@,
            pipe@ == "|"@,
            title@ == "Направление"@,
    {
        let l = &ls[i];
        assert(views(ls@)[i as int] == l@);
        let ghost before = rows@;
        if has_prefix(l, &head) {
            inside = includes(l, &marker);
        } else if inside {
            let line = trimmed_end(l);
            if has_prefix(&line, &pipe) && !includes(&line, &title) && !rule_v(&line) {
                let t = trim_pipes_v(&line);
                let direction = cell_at_v(&t, 1);
                let status = cell_at_v(&t, 4);
                let row = BacklogRow {
                    line: i + 1,
                    text: string_of(&t),
                    direction: string_of(&direction),
                    status: string_of(&status),
                };
                rows.push(row);
                assert(rows@.map_values(|r: BacklogRow| r@) =~= before.map_values(
                    |r: BacklogRow| r@,
                ).push(row_model(l@, (i + 1) as nat)));
                assert(rows@.map_values(|r: BacklogRow| r@) + rows_scan(
                    views(ls@),
                    i + 1,
                    inside,
                ) =~= before.map_values(|r: BacklogRow| r@) + rows_scan(
                    views(ls@),
                    i as int,
                    inside,
                ));
            }
        }
    }
    assert(rows@.map_values(|r: BacklogRow| r@) + rows_scan(views(ls@), ls.len() as int, inside)
        =~= rows@.map_values(|r: BacklogRow| r@));
    rows
}

// ---------------------------------------------------------------- поиск секции

/// Запрос после синонимов: латинские и русские имена секций сводятся к общей основе.
pub open spec fn alias_of(q: Seq<char>) -> Seq<char> {
    if q == "summary"@ || q == "итог"@ || q == "итоги"@ {
        "итог"@
    } else if q == "context"@ || q == "контекст"@ {
        "контекст"@
    } else if q == "findings"@ || q == "finding"@ || q == "находки"@ || q == "находка"@ {
        "находк"@
    } else if q == "artifacts"@ || q == "artifact"@ || q == "артефакты"@ || q == "артефакт"@ {
        "артефакт"@
    } else if q == "backlog"@ || q == "бэклог"@ || q == "беклог"@ || q == "кандидаты"@ {
        "кандидат"@
    } else if q == "questions"@ || q == "вопросы"@ || q == "вопрос"@ {
        "вопрос"@
    } else {
        q
    }
}

/// Из первых `n` секций те, чья строчная форма содержит `needle`.
pub open spec fn matching(all: Seq<Seq<char>>, low: Seq<Seq<char>>, needle: Seq<char>, n: int) -> Seq<
    Seq<char>,
>
    decreases n,
{
    if n <= 0 {
        Seq::empty()
    } else {
        let p = matching(all, low, needle, n - 1);
        if contains(low[n - 1], needle) {
            p.push(all[n - 1])
        } else {
            p
        }
    }
}

/// Ответ на запрос секции по списку секций, их строчным формам и запросу после синонимов.
pub open spec fn pick_result(
    all: Seq<Seq<char>>,
    low: Seq<Seq<char>>,
    needle: Seq<char>,
    query: Seq<char>,
) -> Result<Seq<char>, Seq<char>> {
    let hits = matching(all, low, needle, all.len() as int);
    if hits.len() == 1 {
        Ok(hits[0])
    } else if hits.len() == 0 {
        Err("нет секции по запросу `"@ + query + "`. Есть: "@ + join(all, ", "@))
    } else {
        Err("`"@ + query + "` подходит нескольким секциям: "@ + join(hits, ", "@))
    }
}

fn one_of(v: &Vec<char>, a: &str, b: &str, c: &str, d: &str) -> (r: bool)
    ensures
        r == (v@ == a@ || v@ == b@ || v@ == c@ || v@ == d@),
{
    same(v, &chars_of(a)) || same(v, &chars_of(b)) || same(v, &chars_of(c)) || same(
        v,
        &chars_of(d),
    )
}

fn alias(query: &str) -> (r: Vec<char>)
    ensures
        r@ == alias_of(lowercase(query@)),
{
    let q = chars_of(to_lower(query).as_str());
    if one_of(&q, "summary", "итог", "итоги", "итоги") {
        chars_of("итог")
    } else if one_of(&q, "context", "контекст", "контекст", "контекст") {
        chars_of("контекст")
    } else if one_of(&q, "findings", "finding", "находки", "находка") {
        chars_of("находк")
    } else if one_of(&q, "artifacts", "artifact", "артефакты", "артефакт") {
        chars_of("артефакт")
    } else if one_of(&q, "backlog", "бэклог", "беклог", "кандидаты") {
        chars_of("кандидат")
    } else if one_of(&q, "questions", "вопросы", "вопрос", "вопрос") {
        chars_of("вопрос")
    } else {
        q
    }
}

fn join_strings(v: &Vec<String>, sep: &Vec<char>) -> (r: Vec<char>)
    ensures
        r@ == join(strs(v@), sep@),
{
    let mut ls: Vec<Vec<char>> = Vec::new();
    for i in 0..v.len()
        invariant
            views(ls@) == strs(v@).subrange(0, i as int),
    {
        let ghost old = ls@;
        let c = chars_of(v[i].as_str());
        ls.push(c);
        assert(views(ls@) =~= views(old).push(c@));
        assert(strs(v@).subrange(0, i + 1) =~= strs(v@).subrange(0, i as int).push(v@[i as int]@));
    }
    assert(strs(v@).subrange(0, v.len() as int) =~= strs(v@));
    join_with(&ls, sep)
}

/// Выбор секции: `all` — секции записи, `lowered` — их строчные формы в том же порядке,
/// `needle` — запрос после синонимов, `query` — запрос как его ввели.
pub fn pick_section(all: &Vec<String>, lowered: &Vec<String>, needle: &str, query: &str) -> (r:
    Result<String, String>)
    requires
        all.len() == lowered.len(),
    ensures
        match pick_result(strs(all@), strs(lowered@), needle@, query@) {
            Ok(s) => r matches Ok(x) && x@ == s,
            Err(e) => r matches Err(x) && x@ == e,
        },
{
    let nd = chars_of(needle);
    let mut hits: Vec<String> = Vec::new();
    for i in 0..all.len()
        invariant
            all.len() == lowered.len(),
            nd@ == needle@,
            strs(hits@) == matching(strs(all@), strs(lowered@), needle@, i as int),
    {
        let ghost old = hits@;
        if includes(&chars_of(lowered[i].as_str()), &nd) {
            hits.push(all[i].clone());
            assert(strs(hits@) =~= strs(old).push(all@[i as int]@));
        }
    }
    let q = chars_of(query);
    if hits.len() == 1 {
        Ok(hits[0].clone())
    } else if hits.len() == 0 {
        let mut e = chars_of("нет секции по запросу `");
        extend(&mut e, &q);
        extend(&mut e, &chars_of("`. Есть: "));
        extend(&mut e, &join_strings(all, &chars_of(", ")));
        Err(string_of(&e))
    } else {
        let mut e = chars_of("`");
        extend(&mut e, &q);
        extend(&mut e, &chars_of("` подходит нескольким секциям: "));
        extend(&mut e, &join_strings(&hits, &chars_of(", ")));
        Err(string_of(&e))
    }
}

/// Строчные формы строк, по одной на каждую.
pub open spec fn lowered_all(v: Seq<Seq<char>>) -> Seq<Seq<char>> {
    v.map_values(|s: Seq<char>| lowercase(s))
}

/// Короткий запрос → точное имя секции. Понимает подстроки и латинские синонимы.
pub fn resolve_section(text: &str, query: &str) -> (r: Result<String, String>)
    ensures
        match pick_result(
            section_titles(text@),
            lowered_all(section_titles(text@)),
            alias_of(lowercase(query@)),
            query@,
        ) {
            Ok(s) => r matches Ok(x) && x@ == s,
            Err(e) => r matches Err(x) && x@ == e,
        },
{
    let all = sections(text);
    let mut lowered: Vec<String> = Vec::new();
    for i in 0..all.len()
        invariant
            strs(lowered@) == lowered_all(strs(all@)).subrange(0, i as int),
    {
        let ghost old = lowered@;
        let low = to_lower(all[i].as_str());
        lowered.push(low);
        assert(strs(lowered@) =~= strs(old).push(low@));
        assert(lowered_all(strs(all@)).subrange(0, i + 1) =~= lowered_all(strs(all@)).subrange(
            0,
            i as int,
        ).push(lowercase(all@[i as int]@)));
    }
    assert(lowered_all(strs(all@)).subrange(0, all.len() as int) =~= lowered_all(strs(all@)));
    let needle = string_of(&alias(query));
    pick_section(&all, &lowered, needle.as_str(), query)
}

// ---------------------------------------------------------------- нормализация входа

/// Наименьший уровень заголовка вне кода среди первых `n` строк.
pub open spec fn min_level(ls: Seq<Seq<char>>, n: int) -> Option<nat>
    decreases n,
{
    if n <= 0 {
        None
    } else {
        let p = min_level(ls, n - 1);
        match heading_of(ls[n - 1]) {
            Some((k, _t)) => if prose(ls, n - 1) {
                match p {
                    Some(m) => Some(if k < m {
                        k
                    } else {
                        m
                    }),
                    None => Some(k),
                }
            } else {
                p
            },
            None => p,
        }
    }
}

/// Насколько сдвинуть заголовки, чтобы самый верхний встал на `base`; вверх не поднимаем.
pub open spec fn shift_by(ls: Seq<Seq<char>>, base: nat) -> nat {
    match min_level(ls, ls.len() as int) {
        None => 0,
        Some(m) => if base > m {
            (base - m) as nat
        } else {
            0
        },
    }
}

/// `k` решёток подряд.
pub open spec fn hashes(k: nat) -> Seq<char> {
    Seq::new(k, |_i: int| '#')
}

/// Во что превращается строка `i` входа: `None` — строка выбрасывается.
pub open spec fn mapped_line(ls: Seq<Seq<char>>, i: int, mode: Headings, delta: nat) -> Option<
    Seq<char>,
> {
    if !prose(ls, i) {
        Some(ls[i])
    } else {
        match heading_of(ls[i]) {
            None => Some(ls[i]),
            Some((n, t)) => match mode {
                Headings::Shift => {
                    let lvl: nat = if n + delta < 6 {
                        (n + delta) as nat
                    } else {
                        6
                    };
                    Some(hashes(lvl) + " "@ + t)
                },
                Headings::Bold => if t.len() == 0 {
                    None
                } else {
                    Some("**"@ + t + "**"@)
                },
                Headings::Strip => None,
            },
        }
    }
}

/// Первые `n` строк входа после обработки заголовков.
pub open spec fn mapped_upto(ls: Seq<Seq<char>>, mode: Headings, delta: nat, n: int) -> Seq<
    Seq<char>,
>
    decreases n,
{
    if n <= 0 {
        Seq::empty()
    } else {
        let p = mapped_upto(ls, mode, delta, n - 1);
        match mapped_line(ls, n - 1, mode, delta) {
            Some(l) => p.push(l),
            None => p,
        }
    }
}

/// Строка `j` остаётся: она не вторая подряд пустая строка вне кода.
pub open spec fn keeps(out: Seq<Seq<char>>, j: int) -> bool {
    !(prose(out, j) && is_blank(out[j]) && j > 0 && prose(out, j - 1) && is_blank(out[j - 1]))
}

/// Первые `n` строк без повторных пустых строк вне кода.
pub open spec fn collapse_upto(out: Seq<Seq<char>>, n: int) -> Seq<Seq<char>>
    decreases n,
{
    if n <= 0 {
        Seq::empty()
    } else {
        let p = collapse_upto(out, n - 1);
        if keeps(out, n - 1) {
            p.push(out[n - 1])
        } else {
            p
        }
    }
}

/// Без пустых строк в начале.
pub open spec fn drop_blank_front(s: Seq<Seq<char>>) -> Seq<Seq<char>>
    decreases s.len(),
{
    if s.len() > 0 && is_blank(s[0]) {
        drop_blank_front(s.drop_first())
    } else {
        s
    }
}

/// Без пустых строк в конце.
pub open spec fn drop_blank_back(s: Seq<Seq<char>>) -> Seq<Seq<char>>
    decreases s.len(),
{
    if s.len() > 0 && is_blank(s.last()) {
        drop_blank_back(s.drop_last())
    } else {
        s
    }
}

/// Строки входа после снятия фронтматтера, обработки заголовков и пустых строк.
pub open spec fn normalized_lines(input: Seq<char>, mode: Headings, base: nat) -> Seq<Seq<char>> {
    let body = input.subrange(body_start(input), input.len() as int);
    let ls = lines(body);
    let out = mapped_upto(ls, mode, shift_by(ls, base), ls.len() as int);
    drop_blank_back(drop_blank_front(collapse_upto(out, out.len() as int)))
}

/// Вход, готовый к вставке.
pub open spec fn normalized(input: Seq<char>, mode: Headings, base: nat) -> Seq<char> {
    join(normalized_lines(input, mode, base), "\n"@)
}

pub proof fn lemma_drop_front_at(s: Seq<Seq<char>>, a: int)
    requires
        0 <= a <= s.len(),
        forall|k: int| 0 <= k < a ==> is_blank(#[trigger] s[k]),
        a == s.len() || !is_blank(s[a]),
    ensures
        drop_blank_front(s) == s.subrange(a, s.len() as int),
    decreases a,
{
    if a == 0 {
        assert(s.subrange(0, s.len() as int) =~= s);
    } else {
        let t = s.drop_first();
        assert(is_blank(s[0]));
        assert forall|k: int| 0 <= k < a - 1 implies is_blank(#[trigger] t[k]) by {
            assert(t[k] == s[k + 1]);
        }
        if a - 1 < t.len() {
            assert(t[a - 1] == s[a]);
        }
        lemma_drop_front_at(t, a - 1);
        assert(t.subrange(a - 1, t.len() as int) =~= s.subrange(a, s.len() as int));
    }
}

pub proof fn lemma_drop_back_at(s: Seq<Seq<char>>, b: int)
    requires
        0 <= b <= s.len(),
        forall|k: int| b <= k < s.len() ==> is_blank(#[trigger] s[k]),
        b == 0 || !is_blank(s[b - 1]),
    ensures
        drop_blank_back(s) == s.subrange(0, b),
    decreases s.len() - b,
{
    if b == s.len() {
        assert(s.subrange(0, b) =~= s);
    } else {
        let t = s.drop_last();
        assert(is_blank(s.last()));
        assert forall|k: int| b <= k < t.len() implies is_blank(#[trigger] t[k]) by {
            assert(t[k] == s[k]);
        }
        if b > 0 {
            assert(t[b - 1] == s[b - 1]);
        }
        lemma_drop_back_at(t, b);
        assert(t.subrange(0, b) =~= s.subrange(0, b));
    }
}

fn hashes_v(k: usize) -> (r: Vec<char>)
    ensures
        r@ == hashes(k as nat),
{
    let mut r: Vec<char> = Vec::new();
    for i in 0..k
        invariant
            r@ == hashes(i as nat),
    {
        r.push('#');
        assert(r@ =~= hashes((i + 1) as nat));
    }
    r
}

/// Схлопывает подряд идущие пустые строки вне блоков кода.
fn collapse_blanks(out: &Vec<Vec<char>>) -> (r: Vec<Vec<char>>)
    ensures
        views(r@) == collapse_upto(views(out@), out.len() as int),
{
    let ghost o = views(out@);
    let mut r: Vec<Vec<char>> = Vec::new();
    let mut fence = false;
    let mut prev_blank = false;
    for j in 0..out.len()
        invariant
            o == views(out@),
            o.len() == out.len(),
            fence == in_code(o, j as int),
            !fence ==> prev_blank == (j > 0 && prose(o, j - 1) && is_blank(o[j - 1])),
            views(r@) == collapse_upto(o, j as int),
    {
        let l = &out[j];
        assert(o[j as int] == l@);
        let ghost old = r@;
        if fence_v(l) {
            fence = !fence;
            prev_blank = false;
            r.push(copy(l));
            assert(views(r@) =~= views(old).push(l@));
        } else if fence {
            r.push(copy(l));
            assert(views(r@) =~= views(old).push(l@));
        } else {
            let b = blank(l);
            let drop = b && prev_blank;
            prev_blank = b;
            if !drop {
                r.push(copy(l));
                assert(views(r@) =~= views(old).push(l@));
            }
        }
    }
    r
}

/// Готовит внешний текст к вставке: снимает фронтматтер и приводит заголовки к `base` и глубже.
pub fn normalize(input: &str, mode: Headings, base: usize) -> (r: String)
    ensures
        r@ == normalized(input@, mode, base as nat),
{
    let body = chars_of(strip_frontmatter(input));
    let ls = lines_of(&body);
    let ghost lv = views(ls@);

    // наименьший уровень заголовка вне кода
    let mut min: Option<usize> = None;
    let mut fence = false;
    for i in 0..ls.len()
        invariant
            lv == views(ls@),
            lv.len() == ls.len(),
            fence == in_code(lv, i as int),
            match min {
                None => min_level(lv, i as int) is None,
                Some(m) => min_level(lv, i as int) == Some(m as nat),
            },
    {
        let l = &ls[i];
        assert(lv[i as int] == l@);
        if fence_v(l) {
            fence = !fence;
        } else if !fence {
            if let Some((n, _t)) = heading_v(l) {
                min = match min {
                    Some(m) => Some(if n < m {
                        n
                    } else {
                        m
                    }),
                    None => Some(n),
                };
            }
        }
    }
    let delta: usize = match min {
        None => 0,
        Some(m) => if base > m {
            base - m
        } else {
            0
        },
    };
    assert(delta as nat == shift_by(lv, base as nat));

    // заголовки по режиму
    let mut out: Vec<Vec<char>> = Vec::new();
    let mut fence = false;
    for i in 0..ls.len()
        invariant
            lv == views(ls@),
            lv.len() == ls.len(),
            fence == in_code(lv, i as int),
            views(out@) == mapped_upto(lv, mode, delta as nat, i as int),
    {
        let l = &ls[i];
        assert(lv[i as int] == l@);
        let ghost old = out@;
        let is_f = fence_v(l);
        let h = if !is_f && !fence {
            heading_v(l)
        } else {
            None
        };
        if is_f {
            fence = !fence;
            out.push(copy(l));
            assert(views(out@) =~= views(old).push(l@));
        } else if let Some((n, title)) = h {
            match mode {
                Headings::Shift => {
                    let lvl: usize = if delta < 6 && n + delta < 6 {
                        n + delta
                    } else {
                        6
                    };
                    let mut hd = hashes_v(lvl);
                    extend(&mut hd, &chars_of(" "));
                    extend(&mut hd, &title);
                    out.push(hd);
                    assert(views(out@) =~= views(old).push(hd@));
                },
                Headings::Bold => {
                    if title.len() > 0 {
                        let mut hd = chars_of("**");
                        extend(&mut hd, &title);
                        extend(&mut hd, &chars_of("**"));
                        out.push(hd);
                        assert(views(out@) =~= views(old).push(hd@));
                    }
                },
                Headings::Strip => {},
            }
        } else {
            out.push(copy(l));
            assert(views(out@) =~= views(old).push(l@));
        }
    }

    let kept = collapse_blanks(&out);
    let ghost kv = views(kept@);
    let mut a: usize = 0;
    while a < kept.len() && blank(&kept[a])
        invariant
            kv == views(kept@),
            kv.len() == kept.len(),
            a <= kept.len(),
            forall|k: int| 0 <= k < a ==> is_blank(#[trigger] kv[k]),
        decreases kept.len() - a,
    {
        assert(kv[a as int] == kept@[a as int]@);
        a += 1;
    }
    proof {
        if a < kept.len() {
            assert(kv[a as int] == kept@[a as int]@);
        }
        lemma_drop_front_at(kv, a as int);
    }
    let ghost fv = kv.subrange(a as int, kv.len() as int);
    let mut b: usize = kept.len();
    while b > a && blank(&kept[b - 1])
        invariant
            kv == views(kept@),
            kv.len() == kept.len(),
            a <= b <= kept.len(),
            fv == kv.subrange(a as int, kv.len() as int),
            forall|k: int| b <= k < kept.len() ==> is_blank(#[trigger] kv[k]),
        decreases b,
    {
        assert(kv[b - 1] == kept@[b - 1]@);
        b -= 1;
    }
    proof {
        if b > a {
            assert(kv[b - 1] == kept@[b - 1]@);
        }
        assert forall|k: int| b - a <= k < fv.len() implies is_blank(#[trigger] fv[k]) by {
            assert(fv[k] == kv[k + a]);
        }
        if b > a {
            assert(fv[b - a - 1] == kv[b - 1]);
        }
        lemma_drop_back_at(fv, b - a);
    }
    let mut lines_out: Vec<Vec<char>> = Vec::new();
    let mut k = a;
    while k < b
        invariant
            kv == views(kept@),
            kv.len() == kept.len(),
            a <= k <= b <= kept.len(),
            views(lines_out@) == kv.subrange(a as int, k as int),
        decreases b - k,
    {
        let ghost old = lines_out@;
        let c = copy(&kept[k]);
        lines_out.push(c);
        assert(views(lines_out@) =~= views(old).push(c@));
        assert(kv.subrange(a as int, k + 1) =~= kv.subrange(a as int, k as int).push(kv[k as int]));
        k += 1;
    }
    assert(fv.subrange(0, b - a) =~= kv.subrange(a as int, b as int));
    string_of(&join_with(&lines_out, &chars_of("\n")))
}

// ---------------------------------------------------------------- правка записи

/// Первая строка `i..` — заголовок секции `name` вне кода.
pub open spec fn section_start(ls: Seq<Seq<char>>, name: Seq<char>, i: int) -> Option<int>
    decreases ls.len() - i,
{
    if i < 0 || i >= ls.len() {
        None
    } else if prose(ls, i) && level2(ls[i]) == Some(name) {
        Some(i)
    } else {
        section_start(ls, name, i + 1)
    }
}

/// Конец секции: первый заголовок второго уровня вне кода среди строк `j..`, иначе конец текста.
pub open spec fn section_end(ls: Seq<Seq<char>>, j: int) -> int
    decreases ls.len() - j,
{
    if j < 0 || j >= ls.len() {
        ls.len() as int
    } else if prose(ls, j) && level2(ls[j]) is Some {
        j
    } else {
        section_end(ls, j + 1)
    }
}

/// Место вставки: от `at` назад через пустые строки, но не выше `lo`.
pub open spec fn back_over_blanks(ls: Seq<Seq<char>>, lo: int, at: int) -> int
    decreases at,
{
    if at > lo && at > 0 && is_blank(ls[at - 1]) {
        back_over_blanks(ls, lo, at - 1)
    } else {
        at
    }
}

/// Первая непустая строка среди `k..` начинается с `|`.
pub open spec fn first_is_row(bl: Seq<Seq<char>>, k: int) -> bool
    decreases bl.len() - k,
{
    if k < 0 || k >= bl.len() {
        false
    } else if !is_blank(bl[k]) {
        starts_with(bl[k], "|"@)
    } else {
        first_is_row(bl, k + 1)
    }
}

/// Строки записи после вставки блока в секцию, начатую строкой `start`.
pub open spec fn spliced(ls: Seq<Seq<char>>, start: int, bl: Seq<Seq<char>>) -> Seq<Seq<char>> {
    let end = section_end(ls, start + 1);
    let at = back_over_blanks(ls, start + 1, end);
    let glue = first_is_row(bl, 0) && at > start + 1 && starts_with(ls[at - 1], "|"@);
    let pre: Seq<Seq<char>> = if glue {
        Seq::empty()
    } else {
        seq![Seq::<char>::empty()]
    };
    let post: Seq<Seq<char>> = if end < ls.len() {
        seq![Seq::<char>::empty()]
    } else {
        Seq::empty()
    };
    ls.subrange(0, at) + pre + bl + post + ls.subrange(end, ls.len() as int)
}

/// Результат дописывания блока в секцию.
pub open spec fn appended(text: Seq<char>, section: Seq<char>, block: Seq<char>) -> Result<
    Seq<char>,
    Seq<char>,
> {
    let ls = lines(text);
    match section_start(ls, section, 0) {
        None => Err("в записи нет секции «"@ + section + "»"@),
        Some(start) => Ok(join(spliced(ls, start, lines(block)), "\n"@) + "\n"@),
    }
}

pub proof fn lemma_back_over_blanks(ls: Seq<Seq<char>>, lo: int, at: int)
    requires
        0 <= lo <= at <= ls.len(),
    ensures
        lo <= back_over_blanks(ls, lo, at) <= at,
        forall|k: int|
            back_over_blanks(ls, lo, at) <= k < at ==> is_blank(#[trigger] ls[k]),
    decreases at,
{
    if at > lo && at > 0 && is_blank(ls[at - 1]) {
        lemma_back_over_blanks(ls, lo, at - 1);
    }
}

pub proof fn lemma_section_end(ls: Seq<Seq<char>>, j: int)
    requires
        0 <= j,
    ensures
        j <= ls.len() ==> j <= section_end(ls, j) <= ls.len(),
    decreases ls.len() - j,
{
    if j < ls.len() && !(prose(ls, j) && level2(ls[j]) is Some) {
        lemma_section_end(ls, j + 1);
    }
}

pub proof fn lemma_section_start(ls: Seq<Seq<char>>, name: Seq<char>, i: int)
    requires
        0 <= i,
    ensures
        section_start(ls, name, i) matches Some(s) ==> i <= s < ls.len() && prose(ls, s) && level2(
            ls[s],
        ) == Some(name),
    decreases ls.len() - i,
{
    if i < ls.len() && !(prose(ls, i) && level2(ls[i]) == Some(name)) {
        lemma_section_start(ls, name, i + 1);
    }
}

/// Дописывает блок в конец секции. Строку таблицы приклеивает к таблице без пустой строки.
pub fn append_to_section(text: &str, section: &str, block: &str) -> (r: Result<String, String>)
    ensures
        match appended(text@, section@, block@) {
            Ok(s) => r matches Ok(x) && x@ == s,
            Err(e) => r matches Err(x) && x@ == e,
        },
{
    let ls = lines_of(&chars_of(text));
    let ghost lv = views(ls@);
    let name = chars_of(section);

    let mut start: usize = 0;
    let mut found = false;
    let mut fence = false;
    while start < ls.len()
        invariant_except_break
            !found,
        invariant
            lv == views(ls@),
            lv.len() == ls.len(),
            start <= ls.len(),
            name@ == section@,
            fence == in_code(lv, start as int),
            section_start(lv, section@, 0) == section_start(lv, section@, start as int),
        ensures
            section_start(lv, section@, 0) == section_start(lv, section@, start as int),
            found ==> start < ls.len() && prose(lv, start as int) && level2(lv[start as int])
                == Some(section@),
            !found ==> start == ls.len(),
        decreases ls.len() - start,
    {
        let l = &ls[start];
        assert(lv[start as int] == l@);
        if fence_v(l) {
            fence = !fence;
        } else if !fence {
            match level2_v(l) {
                Some(t) => {
                    if same(&t, &name) {
                        found = true;
                        break;
                    }
                },
                None => {},
            }
        }
        start += 1;
    }
    if !found {
        assert(section_start(lv, section@, start as int) is None);
        let mut e = chars_of("в записи нет секции «");
        extend(&mut e, &name);
        extend(&mut e, &chars_of("»"));
        return Err(string_of(&e));
    }
    assert(section_start(lv, section@, 0) == Some(start as int));
    proof {
        lemma_section_start(lv, section@, 0);
    }

    // конец секции — следующий заголовок второго уровня вне кода
    let mut end = start + 1;
    let mut fence = false;
    while end < ls.len()
        invariant
            lv == views(ls@),
            lv.len() == ls.len(),
            start < end <= ls.len(),
            prose(lv, start as int),
            fence == in_code(lv, end as int),
            section_end(lv, start + 1) == section_end(lv, end as int),
        ensures
            start < end <= ls.len(),
            section_end(lv, start + 1) == end as int,
        decreases ls.len() - end,
    {
        let l = &ls[end];
        assert(lv[end as int] == l@);
        if fence_v(l) {
            fence = !fence;
        } else if !fence && level2_v(l).is_some() {
            break;
        }
        end += 1;
    }
    assert(section_end(lv, start + 1) == end as int);

    // отступаем назад через хвостовые пустые строки секции
    let mut at = end;
    while at > start + 1 && blank(&ls[at - 1])
        invariant
            lv == views(ls@),
            lv.len() == ls.len(),
            start + 1 <= at <= end <= ls.len(),
            back_over_blanks(lv, start + 1, end as int) == back_over_blanks(lv, start + 1, at as int),
        decreases at,
    {
        assert(lv[at - 1] == ls@[at - 1]@);
        at -= 1;
    }
    proof {
        if at > start + 1 {
            assert(lv[at - 1] == ls@[at - 1]@);
        }
    }
    assert(back_over_blanks(lv, start + 1, end as int) == at as int);

    let bl = lines_of(&chars_of(block));
    let ghost bv = views(bl@);
    let mut k: usize = 0;
    while k < bl.len() && blank(&bl[k])
        invariant
            bv == views(bl@),
            bv.len() == bl.len(),
            k <= bl.len(),
            first_is_row(bv, 0) == first_is_row(bv, k as int),
        decreases bl.len() - k,
    {
        assert(bv[k as int] == bl@[k as int]@);
        k += 1;
    }
    let pipe = chars_of("|");
    let starts_row = k < bl.len() && has_prefix(&bl[k], &pipe);
    proof {
        if k < bl.len() {
            assert(bv[k as int] == bl@[k as int]@);
        }
    }
    assert(starts_row == first_is_row(bv, 0));
    let after_row = at > start + 1 && has_prefix(&ls[at - 1], &pipe);
    proof {
        if at > start + 1 {
            assert(lv[at - 1] == ls@[at - 1]@);
        }
    }

    let mut out: Vec<Vec<char>> = Vec::new();
    for i in 0..at
        invariant
            lv == views(ls@),
            lv.len() == ls.len(),
            at <= ls.len(),
            views(out@) == lv.subrange(0, i as int),
    {
        let ghost old = out@;
        let c = copy(&ls[i]);
        out.push(c);
        assert(views(out@) =~= views(old).push(c@));
        assert(lv.subrange(0, i + 1) =~= lv.subrange(0, i as int).push(lv[i as int]));
    }
    let ghost pre: Seq<Seq<char>> = if starts_row && after_row {
        Seq::empty()
    } else {
        seq![Seq::<char>::empty()]
    };
    if !(starts_row && after_row) {
        let ghost old = out@;
        let e: Vec<char> = Vec::new();
        out.push(e);
        assert(views(out@) =~= views(old).push(e@));
    }
    assert(views(out@) =~= lv.subrange(0, at as int) + pre);
    for i in 0..bl.len()
        invariant
            bv == views(bl@),
            bv.len() == bl.len(),
            views(out@) == lv.subrange(0, at as int) + pre + bv.subrange(0, i as int),
    {
        let ghost old = out@;
        let c = copy(&bl[i]);
        out.push(c);
        assert(views(out@) =~= views(old).push(c@));
        assert(bv.subrange(0, i + 1) =~= bv.subrange(0, i as int).push(bv[i as int]));
    }
    assert(bv.subrange(0, bl.len() as int) =~= bv);
    let ghost post: Seq<Seq<char>> = if end < ls.len() {
        seq![Seq::<char>::empty()]
    } else {
        Seq::empty()
    };
    if end < ls.len() {
        let ghost old = out@;
        let e: Vec<char> = Vec::new();
        out.push(e);
        assert(views(out@) =~= views(old).push(e@));
    }
    assert(views(out@) =~= lv.subrange(0, at as int) + pre + bv + post);
    let mut i = end;
    while i < ls.len()
        invariant
            lv == views(ls@),
            lv.len() == ls.len(),
            end <= i <= ls.len(),
            views(out@) == lv.subrange(0, at as int) + pre + bv + post + lv.subrange(
                end as int,
                i as int,
            ),
        decreases ls.len() - i,
    {
        let ghost old = out@;
        let c = copy(&ls[i]);
        out.push(c);
        assert(views(out@) =~= views(old).push(c@));
        assert(lv.subrange(end as int, i + 1) =~= lv.subrange(end as int, i as int).push(
            lv[i as int],
        ));
        i += 1;
    }
    assert(views(out@) == spliced(lv, start as int, bv));
    let mut joined = join_with(&out, &chars_of("\n"));
    extend(&mut joined, &chars_of("\n"));
    Ok(string_of(&joined))
}

/// Дописывание в секцию ничего не теряет: строки результата — строки записи до места вставки,
/// затем блок (с пустой строкой перед ним, если он не продолжает таблицу), затем строки записи
/// от конца секции. Выпадают только пустые строки в хвосте секции. Нет секции — нет и правки.
pub proof fn law_append_keeps_content(text: Seq<char>, section: Seq<char>, block: Seq<char>)
    ensures
        match appended(text, section, block) {
            Err(_) => section_start(lines(text), section, 0) is None,
            Ok(r) => {
                let ls = lines(text);
                let start = section_start(ls, section, 0)->0;
                let end = section_end(ls, start + 1);
                let at = back_over_blanks(ls, start + 1, end);
                &&& section_start(ls, section, 0) is Some
                &&& level2(ls[start]) == Some(section)
                &&& start < at <= end <= ls.len()
                &&& forall|k: int| at <= k < end ==> is_blank(#[trigger] ls[k])
                &&& lines(r) == spliced(ls, start, lines(block)).map_values(
                    |l: Seq<char>| crate::text::strip_cr(l),
                )
            },
        },
{
    let ls = lines(text);
    lemma_section_start(ls, section, 0);
    if let Some(start) = section_start(ls, section, 0) {
        let end = section_end(ls, start + 1);
        lemma_section_end(ls, start + 1);
        lemma_back_over_blanks(ls, start + 1, end);
        let bl = lines(block);
        let sp = spliced(ls, start, bl);
        crate::text::lemma_lines_no_newline(text);
        crate::text::lemma_lines_no_newline(block);
        let at = back_over_blanks(ls, start + 1, end);
        let glue = first_is_row(bl, 0) && at > start + 1 && starts_with(ls[at - 1], "|"@);
        let pre: Seq<Seq<char>> = if glue {
            Seq::empty()
        } else {
            seq![Seq::<char>::empty()]
        };
        let post: Seq<Seq<char>> = if end < ls.len() {
            seq![Seq::<char>::empty()]
        } else {
            Seq::empty()
        };
        let a = ls.subrange(0, at);
        let z = ls.subrange(end, ls.len() as int);
        assert(sp == a + pre + bl + post + z);
        assert(sp[0] == ls[0]);
        assert forall|i: int| 0 <= i < sp.len() implies !(#[trigger] sp[i]).contains('\n') by {
            if i < a.len() {
                assert(sp[i] == ls[i]);
            } else if i < a.len() + pre.len() {
                assert(sp[i] == Seq::<char>::empty());
            } else if i < a.len() + pre.len() + bl.len() {
                assert(sp[i] == bl[i - a.len() - pre.len()]);
            } else if i < a.len() + pre.len() + bl.len() + post.len() {
                assert(sp[i] == Seq::<char>::empty());
            } else {
                assert(sp[i] == ls[i - a.len() - pre.len() - bl.len() - post.len() + end]);
            }
        }
        crate::text::lemma_lines_of_joined(sp);
    }
}

proof fn lemma_trim_start_drop_ws(s: Seq<char>)
    requires
        s.len() > 0,
        is_ws(s.last()),
    ensures
        trim_start(s).len() > 0 ==> trim_start(s).last() == s.last(),
        trim_start(s.drop_last()) == if trim_start(s).len() > 0 {
            trim_start(s).drop_last()
        } else {
            trim_start(s)
        },
    decreases s.len(),
{
    if is_ws(s[0]) {
        if s.len() > 1 {
            let t = s.drop_first();
            lemma_trim_start_drop_ws(t);
            assert(t.last() == s.last());
            assert(trim_start(s) == trim_start(t));
            assert(s.drop_last().drop_first() =~= t.drop_last());
            assert(s.drop_last()[0] == s[0]);
        } else {
            assert(s.drop_first() =~= Seq::<char>::empty());
            assert(trim_start(s) == trim_start(s.drop_first()));
            assert(trim_start(Seq::<char>::empty()) =~= Seq::<char>::empty());
            assert(s.drop_last() =~= Seq::<char>::empty());
        }
    } else {
        assert(s.len() > 1);
        assert(s.drop_last()[0] == s[0]);
    }
}

proof fn lemma_trim_drop_ws(s: Seq<char>)
    requires
        s.len() > 0,
        is_ws(s.last()),
    ensures
        trim(s.drop_last()) == trim(s),
{
    lemma_trim_start_drop_ws(s);
}

proof fn lemma_fence_strip_cr(l: Seq<char>)
    ensures
        is_fence(crate::text::strip_cr(l)) == is_fence(l),
{
    reveal_strlit("```");
    reveal_strlit("~~~");
    if l.len() > 0 && l.last() == '\r' {
        lemma_trim_start_drop_ws(l);
        let u = trim_start(l);
        let v = trim_start(l.drop_last());
        if u.len() > 0 {
            assert(u.last() == '\r');
            assert(v == u.drop_last());
            if u.len() >= 3 {
                assert(u.subrange(0, 3)[2] == u[2]);
                if u.len() == 3 {
                    assert(u.subrange(0, 3)[2] == u.last());
                } else {
                    assert(v.subrange(0, 3) =~= u.subrange(0, 3));
                }
            }
        }
    }
}

proof fn lemma_lead_count_facts(s: Seq<char>, c: char)
    ensures
        lead_count(s, c) <= s.len(),
        forall|k: int| 0 <= k < lead_count(s, c) ==> #[trigger] s[k] == c,
        lead_count(s, c) < s.len() ==> s[lead_count(s, c) as int] != c,
    decreases s.len(),
{
    if s.len() > 0 && s[0] == c {
        let t = s.drop_first();
        lemma_lead_count_facts(t, c);
        assert forall|k: int| 0 <= k < lead_count(s, c) implies #[trigger] s[k] == c by {
            if k > 0 {
                assert(s[k] == t[k - 1]);
            }
        }
        if lead_count(s, c) < s.len() {
            assert(s[lead_count(s, c) as int] == t[lead_count(t, c) as int]);
        }
    }
}

proof fn lemma_level2_strip_cr(l: Seq<char>)
    requires
        level2(l) is Some,
    ensures
        level2(crate::text::strip_cr(l)) == level2(l),
{
    if l.len() > 0 && l.last() == '\r' {
        let n = lead_count(l, '#');
        lemma_lead_count_facts(l, '#');
        let rest = l.subrange(n as int, l.len() as int);
        let m = l.drop_last();
        assert(rest.len() > 0);
        assert(rest[0] == ' ');
        assert(rest.last() == '\r');
        assert(rest.len() >= 2);
        assert forall|k: int| 0 <= k < n implies #[trigger] m[k] == '#' by {
            assert(m[k] == l[k]);
        }
        assert(m[n as int] == l[n as int]);
        crate::text::lemma_lead_count_at(m, '#', n as int);
        let rest2 = m.subrange(n as int, m.len() as int);
        assert(rest2 =~= rest.drop_last());
        lemma_trim_drop_ws(rest);
        assert(rest2[0] == ' ');
    }
}

proof fn lemma_in_code_same_fences(a: Seq<Seq<char>>, b: Seq<Seq<char>>, i: int)
    requires
        0 <= i <= a.len(),
        i <= b.len(),
        forall|k: int| 0 <= k < i ==> is_fence(#[trigger] a[k]) == is_fence(b[k]),
    ensures
        in_code(a, i) == in_code(b, i),
    decreases i,
{
    if i > 0 {
        lemma_in_code_same_fences(a, b, i - 1);
        assert(is_fence(a[i - 1]) == is_fence(b[i - 1]));
    }
}

proof fn lemma_section_start_reaches(ls: Seq<Seq<char>>, name: Seq<char>, i: int, j: int)
    requires
        0 <= i <= j < ls.len(),
        prose(ls, j),
        level2(ls[j]) == Some(name),
    ensures
        section_start(ls, name, i) is Some,
    decreases j - i,
{
    if i < j && !(prose(ls, i) && level2(ls[i]) == Some(name)) {
        lemma_section_start_reaches(ls, name, i + 1, j);
    }
}

/// Дописанное не закрывает секцию: в ту же секцию можно сразу дописать ещё раз,
/// так что записи в секции копятся.
pub proof fn law_append_again(text: Seq<char>, section: Seq<char>, first: Seq<char>, second: Seq<char>)
    ensures
        match appended(text, section, first) {
            Ok(r) => (appended(r, section, second) is Ok),
            Err(_) => true,
        },
{
    law_append_keeps_content(text, section, first);
    if let Ok(r) = appended(text, section, first) {
        let ls = lines(text);
        lemma_section_start(ls, section, 0);
        let start = section_start(ls, section, 0)->0;
        let end = section_end(ls, start + 1);
        let at = back_over_blanks(ls, start + 1, end);
        let sp = spliced(ls, start, lines(first));
        let big = lines(r);
        assert(sp.subrange(0, at) =~= ls.subrange(0, at));
        assert forall|k: int| 0 <= k <= start implies #[trigger] big[k] == crate::text::strip_cr(ls[k]) by {
            assert(sp[k] == sp.subrange(0, at)[k]);
            assert(sp[k] == ls[k]);
        }
        assert forall|k: int| 0 <= k < start implies is_fence(#[trigger] big[k]) == is_fence(ls[k]) by {
            lemma_fence_strip_cr(ls[k]);
        }
        lemma_in_code_same_fences(big, ls, start);
        lemma_fence_strip_cr(ls[start]);
        lemma_level2_strip_cr(ls[start]);
        assert(prose(big, start));
        lemma_section_start_reaches(big, section, 0, start);
    }
}

proof fn lemma_min_level_le(ls: Seq<Seq<char>>, n: int, i: int)
    requires
        0 <= i < n <= ls.len(),
        prose(ls, i),
        heading_of(ls[i]) is Some,
    ensures
        min_level(ls, n) matches Some(m) && m <= (heading_of(ls[i])->0).0,
    decreases n,
{
    if i < n - 1 {
        lemma_min_level_le(ls, n - 1, i);
    }
}

/// Уровень, на который `shift` переносит заголовок уровня `n`, когда верхний заголовок
/// входа — уровня `m`: `n + (base - m)`, если `base` глубже `m`, иначе `n`; не глубже шестого.
pub open spec fn shifted_level(n: nat, m: nat, base: nat) -> nat {
    let d: nat = if base > m {
        (base - m) as nat
    } else {
        0
    };
    if n + d < 6 {
        (n + d) as nat
    } else {
        6
    }
}

/// В режиме `shift` заголовок уровня `n` вне кода встаёт ровно на уровень
/// `min(n + base.saturating_sub(m), 6)`, где `m` — уровень верхнего заголовка вне кода;
/// текст заголовка сохраняется. Поэтому он не поднимается выше своего уровня, не выше `base`
/// (пока `base` не больше шести) и не уходит глубже шестого.
pub proof fn law_shift_levels(ls: Seq<Seq<char>>, i: int, base: nat)
    requires
        0 <= i < ls.len(),
        prose(ls, i),
        heading_of(ls[i]) is Some,
    ensures
        ({
            let (n, t) = heading_of(ls[i])->0;
            &&& min_level(ls, ls.len() as int) matches Some(m) && m <= n && mapped_line(
                ls,
                i,
                Headings::Shift,
                shift_by(ls, base),
            ) == Some(hashes(shifted_level(n, m, base)) + " "@ + t)
            &&& exists|lvl: nat|
                {
                    &&& mapped_line(ls, i, Headings::Shift, shift_by(ls, base)) == Some(
                        hashes(lvl) + " "@ + t,
                    )
                    &&& n <= lvl <= 6
                    &&& (base <= 6 ==> base <= lvl)
                }
        }),
{
    lemma_min_level_le(ls, ls.len() as int, i);
    let (n, t) = heading_of(ls[i])->0;
    let d = shift_by(ls, base);
    let m = min_level(ls, ls.len() as int)->0;
    let lvl = shifted_level(n, m, base);
    assert(n <= 6);
    assert(mapped_line(ls, i, Headings::Shift, d) == Some(hashes(lvl) + " "@ + t));
}

/// Нормализованный вход не начинается и не кончается пустой строкой.
pub proof fn law_normalized_trimmed(input: Seq<char>, mode: Headings, base: nat)
    ensures
        ({
            let nl = normalized_lines(input, mode, base);
            nl.len() > 0 ==> !is_blank(nl[0]) && !is_blank(nl.last())
        }),
{
    let body = input.subrange(body_start(input), input.len() as int);
    let ls = lines(body);
    let out = mapped_upto(ls, mode, shift_by(ls, base), ls.len() as int);
    let c = collapse_upto(out, out.len() as int);
    lemma_drop_front_nonblank(c);
    lemma_drop_back_nonblank(drop_blank_front(c));
}

proof fn lemma_drop_front_nonblank(s: Seq<Seq<char>>)
    ensures
        drop_blank_front(s).len() > 0 ==> !is_blank(drop_blank_front(s)[0]),
        drop_blank_front(s).len() > 0 ==> drop_blank_front(s).last() == s.last(),
        drop_blank_front(s).len() <= s.len(),
    decreases s.len(),
{
    if s.len() > 0 && is_blank(s[0]) {
        lemma_drop_front_nonblank(s.drop_first());
    }
}

proof fn lemma_drop_back_nonblank(s: Seq<Seq<char>>)
    requires
        s.len() > 0 ==> !is_blank(s[0]),
    ensures
        drop_blank_back(s).len() > 0 ==> !is_blank(drop_blank_back(s).last()),
        drop_blank_back(s).len() > 0 ==> drop_blank_back(s)[0] == s[0],
    decreases s.len(),
{
    if s.len() > 0 && is_blank(s.last()) {
        let t = s.drop_last();
        if t.len() > 0 {
            assert(t[0] == s[0]);
        }
        lemma_drop_back_nonblank(t);
    }
}

/// Строка `j` — пустая строка вне блоков кода.
pub open spec fn blank_prose(ls: Seq<Seq<char>>, j: int) -> bool {
    prose(ls, j) && is_blank(ls[j])
}

/// Нигде нет двух пустых строк подряд вне блоков кода.
pub open spec fn no_blank_runs(ls: Seq<Seq<char>>) -> bool {
    forall|j: int| 1 <= j < ls.len() ==> !(#[trigger] blank_prose(ls, j) && blank_prose(ls, j - 1))
}

proof fn lemma_trim_end_keeps_head(u: Seq<char>)
    requires
        u.len() > 0,
        !is_ws(u[0]),
    ensures
        trim_end(u).len() > 0,
    decreases u.len(),
{
    if is_ws(u.last()) {
        let t = u.drop_last();
        assert(t[0] == u[0]);
        lemma_trim_end_keeps_head(t);
    }
}

proof fn lemma_blank_not_fence(l: Seq<char>)
    requires
        is_blank(l),
    ensures
        !is_fence(l),
{
    reveal_strlit("```");
    reveal_strlit("~~~");
    let u = trim_start(l);
    if is_fence(l) {
        assert(u.len() >= 3);
        assert(u.subrange(0, 3)[0] == u[0]);
        assert(u[0] == '`' || u[0] == '~');
        lemma_trim_end_keeps_head(u);
    }
}

proof fn lemma_in_code_push(ls: Seq<Seq<char>>, x: Seq<char>, i: int)
    requires
        0 <= i <= ls.len(),
    ensures
        in_code(ls.push(x), i) == in_code(ls, i),
    decreases i,
{
    if i > 0 {
        lemma_in_code_push(ls, x, i - 1);
        assert(ls.push(x)[i - 1] == ls[i - 1]);
    }
}

proof fn lemma_in_code_drop_first(ls: Seq<Seq<char>>, i: int)
    requires
        ls.len() > 0,
        !is_fence(ls[0]),
        0 <= i < ls.len(),
    ensures
        in_code(ls.drop_first(), i) == in_code(ls, i + 1),
    decreases i,
{
    if i > 0 {
        lemma_in_code_drop_first(ls, i - 1);
        assert(ls.drop_first()[i - 1] == ls[i]);
    } else {
        assert(!in_code(ls, 0));
        assert(in_code(ls, 1) == (in_code(ls, 0) != is_fence(ls[0])));
        assert(!in_code(ls.drop_first(), 0));
    }
}

proof fn lemma_collapse_runs(out: Seq<Seq<char>>, n: int)
    requires
        0 <= n <= out.len(),
    ensures
        ({
            let c = collapse_upto(out, n);
            &&& in_code(c, c.len() as int) == in_code(out, n)
            &&& no_blank_runs(c)
            &&& (c.len() > 0 && blank_prose(c, c.len() - 1)) == (n > 0 && blank_prose(out, n - 1))
        }),
    decreases n,
{
    if n > 0 {
        lemma_collapse_runs(out, n - 1);
        let p = collapse_upto(out, n - 1);
        let x = out[n - 1];
        if keeps(out, n - 1) {
            let c = p.push(x);
            assert(collapse_upto(out, n) == c);
            lemma_in_code_push(p, x, p.len() as int);
            assert(c[p.len() as int] == x);
            assert forall|j: int| 0 <= j <= p.len() implies in_code(c, j) == in_code(p, j) by {
                lemma_in_code_push(p, x, j);
            }
            assert forall|j: int| 0 <= j < p.len() implies blank_prose(c, j) == blank_prose(p, j) by {
                assert(c[j] == p[j]);
            }
            assert(blank_prose(c, p.len() as int) == blank_prose(out, n - 1));
            assert forall|j: int| 1 <= j < c.len() implies !(#[trigger] blank_prose(c, j) && blank_prose(
                c,
                j - 1,
            )) by {
                if j < p.len() {
                    assert(blank_prose(c, j) == blank_prose(p, j));
                    assert(blank_prose(c, j - 1) == blank_prose(p, j - 1));
                }
            }
        } else {
            assert(collapse_upto(out, n) == p);
            assert(blank_prose(out, n - 1));
            assert(!is_fence(x));
        }
    }
}

proof fn lemma_drop_front_runs(s: Seq<Seq<char>>)
    requires
        no_blank_runs(s),
    ensures
        no_blank_runs(drop_blank_front(s)),
    decreases s.len(),
{
    if s.len() > 0 && is_blank(s[0]) {
        let t = s.drop_first();
        lemma_blank_not_fence(s[0]);
        assert forall|j: int| 0 <= j < t.len() implies blank_prose(t, j) == blank_prose(s, j + 1) by {
            lemma_in_code_drop_first(s, j);
            assert(t[j] == s[j + 1]);
        }
        assert forall|j: int| 1 <= j < t.len() implies !(#[trigger] blank_prose(t, j) && blank_prose(
            t,
            j - 1,
        )) by {
            assert(blank_prose(t, j) == blank_prose(s, j + 1));
            assert(blank_prose(t, j - 1) == blank_prose(s, j));
        }
        lemma_drop_front_runs(t);
    }
}

proof fn lemma_drop_back_runs(s: Seq<Seq<char>>)
    requires
        no_blank_runs(s),
    ensures
        no_blank_runs(drop_blank_back(s)),
    decreases s.len(),
{
    if s.len() > 0 && is_blank(s.last()) {
        let t = s.drop_last();
        assert(s =~= t.push(s.last()));
        assert forall|j: int| 0 <= j < t.len() implies blank_prose(t, j) == blank_prose(s, j) by {
            lemma_in_code_push(t, s.last(), j);
            assert(t[j] == s[j]);
        }
        assert forall|j: int| 1 <= j < t.len() implies !(#[trigger] blank_prose(t, j) && blank_prose(
            t,
            j - 1,
        )) by {
            assert(blank_prose(t, j) == blank_prose(s, j));
            assert(blank_prose(t, j - 1) == blank_prose(s, j - 1));
        }
        lemma_drop_back_runs(t);
    }
}

/// В нормализованном входе нет двух пустых строк подряд вне блоков кода:
/// повторные пустые строки схлопываются, а внутри кода всё остаётся как было.
pub proof fn law_normalized_no_blank_runs(input: Seq<char>, mode: Headings, base: nat)
    ensures
        no_blank_runs(normalized_lines(input, mode, base)),
{
    let body = input.subrange(body_start(input), input.len() as int);
    let ls = lines(body);
    let out = mapped_upto(ls, mode, shift_by(ls, base), ls.len() as int);
    let c = collapse_upto(out, out.len() as int);
    lemma_collapse_runs(out, out.len() as int);
    lemma_drop_front_runs(c);
    lemma_drop_back_runs(drop_blank_front(c));
}

/// Ни в одной строке нет перевода строки.
pub open spec fn no_newlines(ls: Seq<Seq<char>>) -> bool {
    forall|i: int| 0 <= i < ls.len() ==> !(#[trigger] ls[i]).contains('\n')
}

proof fn lemma_concat_no(a: Seq<char>, b: Seq<char>, c: char)
    requires
        !a.contains(c),
        !b.contains(c),
    ensures
        !(a + b).contains(c),
{
    if (a + b).contains(c) {
        let k = choose|k: int| 0 <= k < (a + b).len() && (a + b)[k] == c;
        if k < a.len() {
            assert(a[k] == c);
        } else {
            assert(b[k - a.len()] == c);
        }
    }
}

proof fn lemma_subrange_no(a: Seq<char>, i: int, j: int, c: char)
    requires
        0 <= i <= j <= a.len(),
        !a.contains(c),
    ensures
        !a.subrange(i, j).contains(c),
{
    if a.subrange(i, j).contains(c) {
        let k = choose|k: int| 0 <= k < a.subrange(i, j).len() && a.subrange(i, j)[k] == c;
        assert(a[i + k] == c);
    }
}

proof fn lemma_trim_no(s: Seq<char>, c: char)
    requires
        !s.contains(c),
    ensures
        !trim_start(s).contains(c),
        !trim_end(s).contains(c),
        !trim(s).contains(c),
    decreases s.len(),
{
    if s.len() > 0 {
        lemma_subrange_no(s, 1, s.len() as int, c);
        assert(s.drop_first() =~= s.subrange(1, s.len() as int));
        lemma_subrange_no(s, 0, s.len() - 1, c);
        assert(s.drop_last() =~= s.subrange(0, s.len() - 1));
        lemma_trim_no(s.drop_first(), c);
        lemma_trim_no(s.drop_last(), c);
    }
    lemma_trim_end_no(trim_start(s), c);
}

proof fn lemma_trim_end_no(s: Seq<char>, c: char)
    requires
        !s.contains(c),
    ensures
        !trim_end(s).contains(c),
    decreases s.len(),
{
    if s.len() > 0 {
        lemma_subrange_no(s, 0, s.len() - 1, c);
        assert(s.drop_last() =~= s.subrange(0, s.len() - 1));
        lemma_trim_end_no(s.drop_last(), c);
    }
}

proof fn lemma_mapped_line_no(ls: Seq<Seq<char>>, i: int, mode: Headings, delta: nat)
    requires
        0 <= i < ls.len(),
        no_newlines(ls),
    ensures
        mapped_line(ls, i, mode, delta) matches Some(l) ==> !l.contains('\n'),
{
    let l = ls[i];
    assert(!l.contains('\n'));
    if let Some((n, t)) = heading_of(l) {
        lemma_lead_count_le(l, '#');
        let k = lead_count(l, '#');
        lemma_subrange_no(l, k as int, l.len() as int, '\n');
        lemma_trim_no(l.subrange(k as int, l.len() as int), '\n');
        assert(!t.contains('\n'));
        reveal_strlit(" ");
        reveal_strlit("**");
        let lvl: nat = if n + delta < 6 {
            (n + delta) as nat
        } else {
            6
        };
        assert(!hashes(lvl).contains('\n')) by {
            if hashes(lvl).contains('\n') {
                let j = choose|j: int| 0 <= j < hashes(lvl).len() && hashes(lvl)[j] == '\n';
                assert(hashes(lvl)[j] == '#');
            }
        }
        assert(!" "@.contains('\n')) by {
            if " "@.contains('\n') {
                let j = choose|j: int| 0 <= j < " "@.len() && " "@[j] == '\n';
                assert(" "@[0] == ' ');
            }
        }
        assert(!"**"@.contains('\n')) by {
            if "**"@.contains('\n') {
                let j = choose|j: int| 0 <= j < "**"@.len() && "**"@[j] == '\n';
                assert("**"@[0] == '*' && "**"@[1] == '*');
            }
        }
        lemma_concat_no(hashes(lvl), " "@, '\n');
        lemma_concat_no(hashes(lvl) + " "@, t, '\n');
        lemma_concat_no("**"@, t, '\n');
        lemma_concat_no("**"@ + t, "**"@, '\n');
    }
}

proof fn lemma_mapped_upto_no(ls: Seq<Seq<char>>, mode: Headings, delta: nat, n: int)
    requires
        0 <= n <= ls.len(),
        no_newlines(ls),
    ensures
        no_newlines(mapped_upto(ls, mode, delta, n)),
    decreases n,
{
    if n > 0 {
        lemma_mapped_upto_no(ls, mode, delta, n - 1);
        lemma_mapped_line_no(ls, n - 1, mode, delta);
        let p = mapped_upto(ls, mode, delta, n - 1);
        let q = mapped_upto(ls, mode, delta, n);
        assert forall|i: int| 0 <= i < q.len() implies !(#[trigger] q[i]).contains('\n') by {
            if i < p.len() {
                assert(q[i] == p[i]);
            }
        }
    }
}

proof fn lemma_collapse_no(out: Seq<Seq<char>>, n: int)
    requires
        0 <= n <= out.len(),
        no_newlines(out),
    ensures
        no_newlines(collapse_upto(out, n)),
    decreases n,
{
    if n > 0 {
        lemma_collapse_no(out, n - 1);
        let p = collapse_upto(out, n - 1);
        let q = collapse_upto(out, n);
        assert forall|i: int| 0 <= i < q.len() implies !(#[trigger] q[i]).contains('\n') by {
            if i < p.len() {
                assert(q[i] == p[i]);
            } else {
                assert(q[i] == out[n - 1]);
            }
        }
    }
}

proof fn lemma_drop_blank_no(s: Seq<Seq<char>>)
    requires
        no_newlines(s),
    ensures
        no_newlines(drop_blank_front(s)),
        no_newlines(drop_blank_back(s)),
    decreases s.len(),
{
    if s.len() > 0 {
        let f = s.drop_first();
        let b = s.drop_last();
        assert forall|i: int| 0 <= i < f.len() implies !(#[trigger] f[i]).contains('\n') by {
            assert(f[i] == s[i + 1]);
        }
        assert forall|i: int| 0 <= i < b.len() implies !(#[trigger] b[i]).contains('\n') by {
            assert(b[i] == s[i]);
        }
        lemma_drop_blank_no(f);
        lemma_drop_blank_no(b);
    }
}

proof fn lemma_join_last(ls: Seq<Seq<char>>, sep: Seq<char>)
    requires
        ls.len() > 0,
        ls.last().len() > 0,
    ensures
        join(ls, sep).len() > 0,
        join(ls, sep).last() == ls.last().last(),
{
    if ls.len() > 1 {
        let a = join(ls.drop_last(), sep) + sep;
        assert(join(ls, sep) == a + ls.last());
        assert((a + ls.last()).last() == ls.last().last());
    }
}

/// Нормализованный вход как текст: без перевода строки в конце; разрезанный по переводам
/// строки, он даёт ровно нормализованные строки — первая и последняя из них не пустые.
pub proof fn law_normalized_text(input: Seq<char>, mode: Headings, base: nat)
    ensures
        ({
            let nl = normalized_lines(input, mode, base);
            let t = normalized(input, mode, base);
            &&& t.len() == 0 || t.last() != '\n'
            &&& nl.len() == 0 ==> t.len() == 0
            &&& nl.len() > 0 ==> split_on(t, '\n') == nl
            &&& nl.len() > 0 ==> !is_blank(nl[0]) && !is_blank(nl.last())
        }),
{
    reveal_strlit("\n");
    assert("\n"@ =~= seq!['\n']);
    law_normalized_trimmed(input, mode, base);
    let body = input.subrange(body_start(input), input.len() as int);
    let ls = lines(body);
    crate::text::lemma_lines_no_newline(body);
    let out = mapped_upto(ls, mode, shift_by(ls, base), ls.len() as int);
    lemma_mapped_upto_no(ls, mode, shift_by(ls, base), ls.len() as int);
    let c = collapse_upto(out, out.len() as int);
    lemma_collapse_no(out, out.len() as int);
    lemma_drop_blank_no(c);
    lemma_drop_blank_no(drop_blank_front(c));
    let nl = normalized_lines(input, mode, base);
    assert(no_newlines(nl));
    if nl.len() > 0 {
        crate::text::lemma_split_join(nl, '\n');
        let last = nl.last();
        if last.len() == 0 {
            assert(trim(last) =~= Seq::<char>::empty());
        }
        lemma_join_last(nl, seq!['\n']);
        assert(nl[nl.len() - 1] == last);
        assert(!last.contains('\n'));
        if last.last() == '\n' {
            assert(last[last.len() - 1] == '\n');
        }
    }
}

/// `x` — одна из первых `n` секций, и её строчная форма содержит `needle`.
pub open spec fn hit_among(all: Seq<Seq<char>>, low: Seq<Seq<char>>, needle: Seq<char>, n: int, x: Seq<
    char,
>) -> bool {
    exists|j: int| 0 <= j < n && #[trigger] all[j] == x && contains(low[j], needle)
}

proof fn lemma_matching_in(all: Seq<Seq<char>>, low: Seq<Seq<char>>, needle: Seq<char>, n: int)
    requires
        0 <= n <= all.len(),
        low.len() == all.len(),
    ensures
        forall|k: int|
            0 <= k < matching(all, low, needle, n).len() ==> hit_among(
                all,
                low,
                needle,
                n,
                #[trigger] matching(all, low, needle, n)[k],
            ),
    decreases n,
{
    if n > 0 {
        lemma_matching_in(all, low, needle, n - 1);
        let p = matching(all, low, needle, n - 1);
        let q = matching(all, low, needle, n);
        assert forall|k: int| 0 <= k < q.len() implies hit_among(all, low, needle, n, #[trigger] q[k]) by {
            if k < p.len() {
                assert(q[k] == p[k]);
                assert(hit_among(all, low, needle, n - 1, p[k]));
                let j = choose|j: int| 0 <= j < n - 1 && #[trigger] all[j] == p[k] && contains(low[j], needle);
                assert(all[j] == q[k]);
            } else {
                assert(q.len() > p.len());
                assert(q[k] == all[n - 1]);
                assert(contains(low[n - 1], needle));
            }
        }
    } else {
        assert(matching(all, low, needle, n).len() == 0);
    }
}

/// Найденная секция — одна из секций записи, и её строчная форма содержит запрос после синонимов.
pub proof fn law_resolved_is_section(text: Seq<char>, query: Seq<char>)
    ensures
        pick_result(
            section_titles(text),
            lowered_all(section_titles(text)),
            alias_of(lowercase(query)),
            query,
        ) matches Ok(s) ==> exists|j: int|
            0 <= j < section_titles(text).len() && section_titles(text)[j] == s && contains(
                lowercase(s),
                alias_of(lowercase(query)),
            ),
{
    let all = section_titles(text);
    let low = lowered_all(all);
    let needle = alias_of(lowercase(query));
    lemma_matching_in(all, low, needle, all.len() as int);
    let hits = matching(all, low, needle, all.len() as int);
    if hits.len() == 1 {
        assert(hit_among(all, low, needle, all.len() as int, hits[0]));
        let j = choose|j: int| 0 <= j < all.len() && #[trigger] all[j] == hits[0] && contains(low[j], needle);
        assert(low[j] == lowercase(all[j]));
    }
}

/// Экранирует `|`, чтобы значение не развалило таблицу индекса.
pub fn cell(s: &str) -> (r: String)
    ensures
        r@ == replace(s@, "|"@, "\\|"@),
{
    let pipe = chars_of("|");
    proof {
        reveal_strlit("|");
    }
    string_of(&replace_all(&chars_of(s), &pipe, &chars_of("\\|")))
}

proof fn lemma_pipes_escaped(s: Seq<char>)
    ensures
        ({
            let r = replace(s, seq!['|'], seq!['\\', '|']);
            &&& r.len() > 0 ==> r[0] != '|'
            &&& forall|i: int| 0 < i < r.len() && r[i] == '|' ==> #[trigger] r[i - 1] == '\\'
        }),
    decreases s.len(),
{
    let p = seq!['|'];
    let e = seq!['\\', '|'];
    if s.len() > 0 {
        if starts_with(s, p) {
            let rest = s.subrange(1, s.len() as int);
            lemma_pipes_escaped(rest);
            let rr = replace(rest, p, e);
            let r = replace(s, p, e);
            assert(r == e + rr);
            assert(e[0] == '\\' && e[1] == '|');
            assert(r[0] == e[0]);
            assert forall|i: int| 0 < i < r.len() && r[i] == '|' implies #[trigger] r[i - 1] == '\\' by {
                if i >= 3 {
                    assert(r[i] == rr[i - 2] && r[i - 1] == rr[i - 3]);
                } else if i == 2 {
                    assert(r[i] == rr[0]);
                } else {
                    assert(r[i - 1] == e[0]);
                }
            }
        } else {
            let rest = s.drop_first();
            lemma_pipes_escaped(rest);
            let rr = replace(rest, p, e);
            let r = replace(s, p, e);
            assert(s[0] != '|') by {
                if s[0] == '|' {
                    assert(s.subrange(0, 1) =~= p);
                }
            }
            assert(r == seq![s[0]] + rr);
            assert forall|i: int| 0 < i < r.len() && r[i] == '|' implies #[trigger] r[i - 1] == '\\' by {
                assert(r[i] == rr[i - 1]);
                if i >= 2 {
                    assert(r[i - 1] == rr[i - 2]);
                }
            }
        }
    }
}

/// В ячейке индекса каждая `|` экранирована: перед ней стоит `\`.
pub proof fn law_cell_escapes_pipes(s: Seq<char>)
    ensures
        ({
            let r = replace(s, "|"@, "\\|"@);
            forall|i: int| 0 <= i < r.len() && r[i] == '|' ==> i > 0 && #[trigger] r[i - 1] == '\\'
        }),
{
    reveal_strlit("|");
    reveal_strlit("\\|");
    assert("|"@ =~= seq!['|']);
    assert("\\|"@ =~= seq!['\\', '|']);
    lemma_pipes_escaped(s);
}

// ---------------------------------------------------------------- законы о строках бэклога

/// Символ, из которых состоят строки-разделители таблицы: `|`, `-`, `:` и пробельные.
pub open spec fn separator_char(c: char) -> bool {
    c == '|' || c == '-' || c == ':' || is_ws(c)
}

proof fn lemma_trim_pipes_keeps(s: Seq<char>, w: int)
    requires
        0 <= w < s.len(),
        !separator_char(s[w]),
    ensures
        w < trim_pipes(s).len(),
        trim_pipes(s)[w] == s[w],
    decreases s.len(),
{
    if s.len() > 0 && is_edge(s.last()) {
        assert(w < s.len() - 1);
        lemma_trim_pipes_keeps(s.drop_last(), w);
    }
}

proof fn lemma_trim_end_keeps(s: Seq<char>, w: int)
    requires
        0 <= w < s.len(),
        !is_ws(s[w]),
    ensures
        w < trim_end(s).len(),
        trim_end(s)[w] == s[w],
    decreases s.len(),
{
    if s.len() > 0 && is_ws(s.last()) {
        assert(w < s.len() - 1);
        lemma_trim_end_keeps(s.drop_last(), w);
    }
}

/// В строке есть символ помимо `|`, `-`, `:` и пробельных.
pub open spec fn has_content(s: Seq<char>) -> bool {
    exists|w: int| 0 <= w < s.len() && !separator_char(#[trigger] s[w])
}

proof fn lemma_rows_scan_not_separators(ls: Seq<Seq<char>>, i: int, inside: bool)
    requires
        0 <= i,
    ensures
        forall|k: int|
            0 <= k < rows_scan(ls, i, inside).len() ==> has_content(
                (#[trigger] rows_scan(ls, i, inside)[k]).1,
            ),
    decreases ls.len() - i,
{
    if i < ls.len() {
        if starts_with(ls[i], "## "@) {
            let nxt = contains(ls[i], "Кандидаты в бэклог"@);
            lemma_rows_scan_not_separators(ls, i + 1, nxt);
            assert(rows_scan(ls, i, inside) == rows_scan(ls, i + 1, nxt));
        } else if inside && is_data_row(trim_end(ls[i])) {
            lemma_rows_scan_not_separators(ls, i + 1, true);
            let t = trim_end(ls[i]);
            let row = row_model(ls[i], (i + 1) as nat);
            assert(exists|w: int| 0 <= w < t.len() && !separator_char(#[trigger] t[w]));
            let w = choose|w: int| 0 <= w < t.len() && !separator_char(#[trigger] t[w]);
            lemma_trim_pipes_keeps(t, w);
            assert(row.1[w] == t[w]);
            assert(has_content(row.1));
            let rest = rows_scan(ls, i + 1, true);
            let all = rows_scan(ls, i, inside);
            assert(all == seq![row] + rest);
            assert forall|k: int| 0 <= k < all.len() implies has_content((#[trigger] all[k]).1) by {
                if k == 0 {
                    assert(all[0] == row);
                } else {
                    assert(all[k] == rest[k - 1]);
                }
            }
        } else {
            lemma_rows_scan_not_separators(ls, i + 1, inside);
            assert(rows_scan(ls, i, inside) == rows_scan(ls, i + 1, inside));
        }
    } else {
        assert(rows_scan(ls, i, inside).len() == 0);
    }
}

/// Разделитель таблицы — строка только из `|`, `-`, `:` и пробелов (с выравниванием вроде
/// `|:---|---:|` тоже) — никогда не становится кандидатом в бэклог: в тексте каждой строки
/// бэклога есть хотя бы один другой символ.
pub proof fn law_backlog_rows_not_separators(text: Seq<char>)
    ensures
        forall|k: int|
            0 <= k < backlog_of(text).len() ==> has_content((#[trigger] backlog_of(text)[k]).1),
{
    lemma_rows_scan_not_separators(lines(text), 0, false);
}

// ---------------------------------------------------------------- закон о склейке с таблицей

/// Первая непустая строка блока — строка `k`, и она начинается с `|`.
pub open spec fn first_nonblank_is_row(bl: Seq<Seq<char>>) -> bool {
    exists|k: int|
        0 <= k < bl.len() && !is_blank(#[trigger] bl[k]) && starts_with(bl[k], "|"@) && forall|
            j: int,
        |
            0 <= j < k ==> is_blank(#[trigger] bl[j])
}

proof fn lemma_first_is_row(bl: Seq<Seq<char>>, k: int)
    requires
        0 <= k,
        forall|j: int| 0 <= j < k && j < bl.len() ==> is_blank(#[trigger] bl[j]),
    ensures
        first_is_row(bl, k) ==> first_nonblank_is_row(bl),
        first_nonblank_is_row(bl) ==> first_is_row(bl, k),
    decreases bl.len() - k,
{
    if k < bl.len() {
        if is_blank(bl[k]) {
            lemma_first_is_row(bl, k + 1);
        } else {
            if first_nonblank_is_row(bl) {
                let m = choose|m: int|
                    0 <= m < bl.len() && !is_blank(#[trigger] bl[m]) && starts_with(bl[m], "|"@)
                        && forall|j: int| 0 <= j < m ==> is_blank(#[trigger] bl[j]);
                if m < k {
                } else if m > k {
                    assert(is_blank(bl[k]));
                }
            }
            if first_is_row(bl, k) {
                assert(forall|j: int| 0 <= j < k ==> is_blank(#[trigger] bl[j]));
            }
        }
    } else {
        if first_nonblank_is_row(bl) {
            let m = choose|m: int|
                0 <= m < bl.len() && !is_blank(#[trigger] bl[m]) && starts_with(bl[m], "|"@)
                    && forall|j: int| 0 <= j < m ==> is_blank(#[trigger] bl[j]);
            assert(is_blank(bl[m]));
        }
    }
}

/// Дописанный блок приклеивается к таблице без пустой строки, только если его первая
/// непустая строка — строка таблицы и перед местом вставки стоит строка таблицы; иначе
/// между прежним содержимым секции и блоком ровно одна пустая строка. Сам блок идёт
/// следом строка в строку.
pub proof fn law_append_glues_only_rows(text: Seq<char>, section: Seq<char>, block: Seq<char>)
    ensures
        match appended(text, section, block) {
            Err(_) => true,
            Ok(r) => {
                let ls = lines(text);
                let bl = lines(block);
                let start = section_start(ls, section, 0)->0;
                let at = back_over_blanks(ls, start + 1, section_end(ls, start + 1));
                let out = lines(r);
                let glued = first_nonblank_is_row(bl) && at > start + 1 && starts_with(
                    ls[at - 1],
                    "|"@,
                );
                &&& start < at
                &&& out[at - 1] == crate::text::strip_cr(ls[at - 1])
                &&& !glued ==> out[at] == Seq::<char>::empty() && forall|j: int|
                    0 <= j < bl.len() ==> out[at + 1 + j] == crate::text::strip_cr(
                        #[trigger] bl[j],
                    )
                &&& glued ==> forall|j: int|
                    0 <= j < bl.len() ==> out[at + j] == crate::text::strip_cr(#[trigger] bl[j])
            },
        },
{
    law_append_keeps_content(text, section, block);
    if let Ok(r) = appended(text, section, block) {
        let ls = lines(text);
        let bl = lines(block);
        let start = section_start(ls, section, 0)->0;
        let end = section_end(ls, start + 1);
        let at = back_over_blanks(ls, start + 1, end);
        lemma_first_is_row(bl, 0);
        lemma_section_start(ls, section, 0);
        lemma_section_end(ls, start + 1);
        lemma_back_over_blanks(ls, start + 1, end);
        let sp = spliced(ls, start, bl);
        let out = lines(r);
        let glue = first_is_row(bl, 0) && at > start + 1 && starts_with(ls[at - 1], "|"@);
        let pre: Seq<Seq<char>> = if glue {
            Seq::empty()
        } else {
            seq![Seq::<char>::empty()]
        };
        let post: Seq<Seq<char>> = if end < ls.len() {
            seq![Seq::<char>::empty()]
        } else {
            Seq::empty()
        };
        let a = ls.subrange(0, at);
        let z = ls.subrange(end, ls.len() as int);
        assert(sp == a + pre + bl + post + z);
        assert(out == sp.map_values(|l: Seq<char>| crate::text::strip_cr(l)));
        assert(a.len() == at);
        assert(sp[at - 1] == a[at - 1]);
        assert(sp[at - 1] == ls[at - 1]);
        if !glue {
            assert(sp[at] == Seq::<char>::empty());
            assert(crate::text::strip_cr(Seq::<char>::empty()) == Seq::<char>::empty());
            assert forall|j: int| 0 <= j < bl.len() implies out[at + 1 + j] == crate::text::strip_cr(
                #[trigger] bl[j],
            ) by {
                assert(sp[at + 1 + j] == bl[j]);
            }
        } else {
            assert forall|j: int| 0 <= j < bl.len() implies out[at + j] == crate::text::strip_cr(
                #[trigger] bl[j],
            ) by {
                assert(sp[at + j] == bl[j]);
            }
        }
    }
}

// ---------------------------------------------------------------- закон о верхнем заголовке

/// Строка `j` — заголовок вне кода уровня `k`.
pub open spec fn prose_heading_at(ls: Seq<Seq<char>>, j: int, k: nat) -> bool {
    &&& 0 <= j < ls.len()
    &&& prose(ls, j)
    &&& heading_of(ls[j]) is Some
    &&& (heading_of(ls[j])->0).0 == k
}

proof fn lemma_min_level_attained(ls: Seq<Seq<char>>, n: int)
    requires
        0 <= n <= ls.len(),
    ensures
        min_level(ls, n) matches Some(x) ==> exists|j: int|
            0 <= j < n && #[trigger] prose_heading_at(ls, j, x),
    decreases n,
{
    if n > 0 {
        lemma_min_level_attained(ls, n - 1);
        if let Some(x) = min_level(ls, n) {
            if let Some((k, _t)) = heading_of(ls[n - 1]) {
                if prose(ls, n - 1) && x == k {
                    assert(prose_heading_at(ls, n - 1, x));
                } else {
                    let y = min_level(ls, n - 1)->0;
                    assert(x == y);
                    let j = choose|j: int| 0 <= j < n - 1 && #[trigger] prose_heading_at(ls, j, y);
                    assert(prose_heading_at(ls, j, x));
                }
            } else {
                let j = choose|j: int| 0 <= j < n - 1 && #[trigger] prose_heading_at(ls, j, x);
                assert(prose_heading_at(ls, j, x));
            }
        }
    }
}

/// Сдвиг задаёт только текст вне блоков кода: если верхний заголовок вне кода — уровня `m`
/// (такой есть, и все заголовки вне кода не выше него), то заголовок уровня `n` вне кода
/// встаёт на `min(n + base.saturating_sub(m), 6)`, что бы ни стояло внутри блоков кода.
/// Сам верхний заголовок при `m <= base <= 6` встаёт ровно на уровень `base`.
pub proof fn law_shift_from_top(ls: Seq<Seq<char>>, i: int, base: nat, m: nat)
    requires
        0 <= i < ls.len(),
        prose(ls, i),
        heading_of(ls[i]) is Some,
        exists|j: int| #[trigger] prose_heading_at(ls, j, m),
        forall|j: int, k: nat| #[trigger] prose_heading_at(ls, j, k) ==> m <= k,
    ensures
        ({
            let (n, t) = heading_of(ls[i])->0;
            let d: nat = if base > m {
                (base - m) as nat
            } else {
                0
            };
            let lvl: nat = if n + d < 6 {
                (n + d) as nat
            } else {
                6
            };
            &&& mapped_line(ls, i, Headings::Shift, shift_by(ls, base)) == Some(
                hashes(lvl) + " "@ + t,
            )
            &&& (n == m && m <= base <= 6) ==> mapped_line(ls, i, Headings::Shift, shift_by(ls, base))
                == Some(hashes(base) + " "@ + t)
        }),
{
    let j = choose|j: int| #[trigger] prose_heading_at(ls, j, m);
    lemma_min_level_le(ls, ls.len() as int, j);
    lemma_min_level_attained(ls, ls.len() as int);
    let x = min_level(ls, ls.len() as int)->0;
    let j2 = choose|j2: int| 0 <= j2 < ls.len() && #[trigger] prose_heading_at(ls, j2, x);
    assert(m <= x);
    assert(x <= m);
    law_shift_levels(ls, i, base);
}

// ---------------------------------------------------------------- закон о синонимах секций

/// Секции второго уровня встроенного шаблона записи, по порядку.
pub open spec fn template_sections() -> Seq<Seq<char>> {
    seq!["Итог смены"@, "Контекст"@, "Находки"@, "Артефакты"@, "Кандидаты в бэклог"@, "Открытые вопросы"@]
}

/// Их строчные формы.
pub open spec fn template_sections_lower() -> Seq<Seq<char>> {
    seq!["итог смены"@, "контекст"@, "находки"@, "артефакты"@, "кандидаты в бэклог"@, "открытые вопросы"@]
}

/// `p` стоит в `s` с позиции `i`: посимвольно, начиная с `k`-го символа `p`.
pub open spec fn prefix_at(s: Seq<char>, p: Seq<char>, i: int, k: int) -> bool
    decreases p.len() - k,
{
    if k < 0 || k >= p.len() {
        true
    } else {
        0 <= i + k < s.len() && s[i + k] == p[k] && prefix_at(s, p, i, k + 1)
    }
}

/// `p` встречается в `s` с позиции `i` или дальше.
pub open spec fn occurs_from(s: Seq<char>, p: Seq<char>, i: int) -> bool
    decreases s.len() - i,
{
    if i < 0 || i + p.len() > s.len() {
        false
    } else {
        prefix_at(s, p, i, 0) || occurs_from(s, p, i + 1)
    }
}

proof fn lemma_prefix_at(s: Seq<char>, p: Seq<char>, i: int, k: int)
    requires
        crate::text::occurs_at(s, p, i),
        0 <= k,
    ensures
        prefix_at(s, p, i, k),
    decreases p.len() - k,
{
    if k < p.len() {
        assert(s.subrange(i, i + p.len())[k] == s[i + k]);
        lemma_prefix_at(s, p, i, k + 1);
    }
}

proof fn lemma_occurs_from(s: Seq<char>, p: Seq<char>, j: int, i: int)
    requires
        0 <= j <= i,
        crate::text::occurs_at(s, p, i),
    ensures
        occurs_from(s, p, j),
    decreases i - j,
{
    if j < i {
        lemma_occurs_from(s, p, j + 1, i);
    } else {
        lemma_prefix_at(s, p, i, 0);
    }
}

proof fn lemma_absent(s: Seq<char>, p: Seq<char>)
    requires
        !occurs_from(s, p, 0),
    ensures
        !contains(s, p),
{
    if contains(s, p) {
        let i = choose|i: int| crate::text::occurs_at(s, p, i);
        lemma_occurs_from(s, p, 0, i);
    }
}

proof fn lemma_matching_one(all: Seq<Seq<char>>, low: Seq<Seq<char>>, needle: Seq<char>, n: int, idx: int)
    requires
        0 <= n <= all.len(),
        low.len() == all.len(),
        0 <= idx < all.len(),
        contains(low[idx], needle),
        forall|k: int| 0 <= k < all.len() && k != idx ==> !contains(#[trigger] low[k], needle),
    ensures
        matching(all, low, needle, n) == if idx < n {
            seq![all[idx]]
        } else {
            Seq::<Seq<char>>::empty()
        },
    decreases n,
{
    if n > 0 {
        lemma_matching_one(all, low, needle, n - 1, idx);
        if n - 1 == idx {
            assert(Seq::<Seq<char>>::empty().push(all[idx]) =~= seq![all[idx]]);
        }
    }
}

proof fn lemma_unique_hit(all: Seq<Seq<char>>, low: Seq<Seq<char>>, needle: Seq<char>, query: Seq<char>, idx: int)
    requires
        low.len() == all.len(),
        0 <= idx < all.len(),
        contains(low[idx], needle),
        forall|k: int| 0 <= k < all.len() && k != idx ==> !contains(#[trigger] low[k], needle),
    ensures
        pick_result(all, low, needle, query) == Ok::<Seq<char>, Seq<char>>(all[idx]),
{
    lemma_matching_one(all, low, needle, all.len() as int, idx);
}

/// Каждый документированный синоним находит свою секцию: в записи с секциями встроенного
/// шаблона запрос, чья строчная форма — `summary`, `итог` или `итоги`, даёт «Итог смены»;
/// `context`/`контекст` — «Контекст»; `findings`, `finding`, `находки`, `находка` — «Находки»;
/// `artifacts`, `artifact`, `артефакты`, `артефакт` — «Артефакты»; `backlog`, `бэклог`,
/// `беклог`, `кандидаты` — «Кандидаты в бэклог»; `questions`, `вопросы`, `вопрос` —
/// «Открытые вопросы». `r` — ответ `resolve_section`; строчные формы заголовков даёт
/// `str::to_lowercase`.
pub proof fn law_aliases_resolve(text: Seq<char>, query: Seq<char>)
    requires
        section_titles(text) == template_sections(),
        lowered_all(template_sections()) == template_sections_lower(),
    ensures
        ({
            let q = lowercase(query);
            let r = pick_result(
                section_titles(text),
                lowered_all(section_titles(text)),
                alias_of(q),
                query,
            );
            &&& (q == "summary"@ || q == "итог"@ || q == "итоги"@) ==> r == Ok::<Seq<char>, Seq<char>>("Итог смены"@)
            &&& (q == "context"@ || q == "контекст"@) ==> r == Ok::<Seq<char>, Seq<char>>("Контекст"@)
            &&& (q == "findings"@ || q == "finding"@ || q == "находки"@ || q == "находка"@) ==> r == Ok::<Seq<char>, Seq<char>>("Находки"@)
            &&& (q == "artifacts"@ || q == "artifact"@ || q == "артефакты"@ || q == "артефакт"@) ==> r == Ok::<Seq<char>, Seq<char>>("Артефакты"@)
            &&& (q == "backlog"@ || q == "бэклог"@ || q == "беклог"@ || q == "кандидаты"@) ==> r == Ok::<Seq<char>, Seq<char>>("Кандидаты в бэклог"@)
            &&& (q == "questions"@ || q == "вопросы"@ || q == "вопрос"@) ==> r == Ok::<Seq<char>, Seq<char>>("Открытые вопросы"@)
        }),
{
    reveal_strlit("Итог смены");
    reveal_strlit("Контекст");
    reveal_strlit("Находки");
    reveal_strlit("Артефакты");
    reveal_strlit("Кандидаты в бэклог");
    reveal_strlit("Открытые вопросы");
    reveal_strlit("итог смены");
    reveal_strlit("контекст");
    reveal_strlit("находки");
    reveal_strlit("артефакты");
    reveal_strlit("кандидаты в бэклог");
    reveal_strlit("открытые вопросы");
    reveal_strlit("итог");
    reveal_strlit("контекст");
    reveal_strlit("находк");
    reveal_strlit("артефакт");
    reveal_strlit("кандидат");
    reveal_strlit("вопрос");
    let all = template_sections();
    let low = template_sections_lower();
    let q = lowercase(query);
    assert(low[0] == "итог смены"@ && low[1] == "контекст"@ && low[2] == "находки"@);
    assert(low[3] == "артефакты"@ && low[4] == "кандидаты в бэклог"@ && low[5] == "открытые вопросы"@);
    reveal_strlit("artifact");
    reveal_strlit("artifacts");
    reveal_strlit("backlog");
    reveal_strlit("context");
    reveal_strlit("finding");
    reveal_strlit("findings");
    reveal_strlit("questions");
    reveal_strlit("summary");
    reveal_strlit("артефакт");
    reveal_strlit("артефакты");
    reveal_strlit("беклог");
    reveal_strlit("бэклог");
    reveal_strlit("вопрос");
    reveal_strlit("вопросы");
    reveal_strlit("итог");
    reveal_strlit("итоги");
    reveal_strlit("кандидаты");
    reveal_strlit("контекст");
    reveal_strlit("находка");
    reveal_strlit("находки");
    assert("summary"@[0] == 's' && "summary"@.len() == 7);
    assert("итог"@[0] == 'и' && "итог"@.len() == 4);
    assert("итоги"@[0] == 'и' && "итоги"@.len() == 5);
    assert("context"@[0] == 'c' && "context"@.len() == 7);
    assert("контекст"@[0] == 'к' && "контекст"@.len() == 8);
    assert("findings"@[0] == 'f' && "findings"@.len() == 8);
    assert("finding"@[0] == 'f' && "finding"@.len() == 7);
    assert("находки"@[0] == 'н' && "находки"@.len() == 7);
    assert("находка"@[0] == 'н' && "находка"@.len() == 7);
    assert("artifacts"@[0] == 'a' && "artifacts"@.len() == 9);
    assert("artifact"@[0] == 'a' && "artifact"@.len() == 8);
    assert("артефакты"@[0] == 'а' && "артефакты"@.len() == 9);
    assert("артефакт"@[0] == 'а' && "артефакт"@.len() == 8);
    assert("backlog"@[0] == 'b' && "backlog"@.len() == 7);
    assert("бэклог"@[0] == 'б' && "бэклог"@.len() == 6);
    assert("беклог"@[0] == 'б' && "беклог"@.len() == 6);
    assert("кандидаты"@[0] == 'к' && "кандидаты"@.len() == 9);
    assert("questions"@[0] == 'q' && "questions"@.len() == 9);
    assert("вопросы"@[0] == 'в' && "вопросы"@.len() == 7);
    assert("вопрос"@[0] == 'в' && "вопрос"@.len() == 6);
    assert("находк"@[0] == 'н' && "находк"@.len() == 6);
    assert("кандидат"@[0] == 'к' && "кандидат"@.len() == 8);
    assert("находки"@[6] == 'и' && "находка"@[6] == 'а');
    assert("бэклог"@[1] == 'э' && "беклог"@[1] == 'е');
    if q == "summary"@ || q == "итог"@ || q == "итоги"@ {
        assert(alias_of(q) == "итог"@);
    }
    if q == "context"@ || q == "контекст"@ {
        assert(alias_of(q) == "контекст"@);
    }
    if q == "findings"@ || q == "finding"@ || q == "находки"@ || q == "находка"@ {
        assert(alias_of(q) == "находк"@);
    }
    if q == "artifacts"@ || q == "artifact"@ || q == "артефакты"@ || q == "артефакт"@ {
        assert(alias_of(q) == "артефакт"@);
    }
    if q == "backlog"@ || q == "бэклог"@ || q == "беклог"@ || q == "кандидаты"@ {
        assert(alias_of(q) == "кандидат"@);
    }
    if q == "questions"@ || q == "вопросы"@ || q == "вопрос"@ {
        assert(alias_of(q) == "вопрос"@);
    }
    reveal_with_fuel(occurs_from, 20);
    reveal_with_fuel(prefix_at, 3);
    if alias_of(q) == "итог"@ {
        assert("итог смены"@.subrange(0, 0 + "итог"@.len() as int) =~= "итог"@);
        assert(crate::text::occurs_at("итог смены"@, "итог"@, 0));
        lemma_absent("контекст"@, "итог"@);
        lemma_absent("находки"@, "итог"@);
        lemma_absent("артефакты"@, "итог"@);
        lemma_absent("кандидаты в бэклог"@, "итог"@);
        lemma_absent("открытые вопросы"@, "итог"@);
        lemma_unique_hit(all, low, alias_of(q), query, 0);
    }
    if alias_of(q) == "контекст"@ {
        assert("контекст"@.subrange(0, 0 + "контекст"@.len() as int) =~= "контекст"@);
        assert(crate::text::occurs_at("контекст"@, "контекст"@, 0));
        lemma_absent("итог смены"@, "контекст"@);
        lemma_absent("находки"@, "контекст"@);
        lemma_absent("артефакты"@, "контекст"@);
        lemma_absent("кандидаты в бэклог"@, "контекст"@);
        lemma_absent("открытые вопросы"@, "контекст"@);
        lemma_unique_hit(all, low, alias_of(q), query, 1);
    }
    if alias_of(q) == "находк"@ {
        assert("находки"@.subrange(0, 0 + "находк"@.len() as int) =~= "находк"@);
        assert(crate::text::occurs_at("находки"@, "находк"@, 0));
        lemma_absent("итог смены"@, "находк"@);
        lemma_absent("контекст"@, "находк"@);
        lemma_absent("артефакты"@, "находк"@);
        lemma_absent("кандидаты в бэклог"@, "находк"@);
        lemma_absent("открытые вопросы"@, "находк"@);
        lemma_unique_hit(all, low, alias_of(q), query, 2);
    }
    if alias_of(q) == "артефакт"@ {
        assert("артефакты"@.subrange(0, 0 + "артефакт"@.len() as int) =~= "артефакт"@);
        assert(crate::text::occurs_at("артефакты"@, "артефакт"@, 0));
        lemma_absent("итог смены"@, "артефакт"@);
        lemma_absent("контекст"@, "артефакт"@);
        lemma_absent("находки"@, "артефакт"@);
        lemma_absent("кандидаты в бэклог"@, "артефакт"@);
        lemma_absent("открытые вопросы"@, "артефакт"@);
        lemma_unique_hit(all, low, alias_of(q), query, 3);
    }
    if alias_of(q) == "кандидат"@ {
        assert("кандидаты в бэклог"@.subrange(0, 0 + "кандидат"@.len() as int) =~= "кандидат"@);
        assert(crate::text::occurs_at("кандидаты в бэклог"@, "кандидат"@, 0));
        lemma_absent("итог смены"@, "кандидат"@);
        lemma_absent("контекст"@, "кандидат"@);
        lemma_absent("находки"@, "кандидат"@);
        lemma_absent("артефакты"@, "кандидат"@);
        lemma_absent("открытые вопросы"@, "кандидат"@);
        lemma_unique_hit(all, low, alias_of(q), query, 4);
    }
    if alias_of(q) == "вопрос"@ {
        assert("открытые вопросы"@.subrange(9, 9 + "вопрос"@.len() as int) =~= "вопрос"@);
        assert(crate::text::occurs_at("открытые вопросы"@, "вопрос"@, 9));
        lemma_absent("итог смены"@, "вопрос"@);
        lemma_absent("контекст"@, "вопрос"@);
        lemma_absent("находки"@, "вопрос"@);
        lemma_absent("артефакты"@, "вопрос"@);
        lemma_absent("кандидаты в бэклог"@, "вопрос"@);
        lemma_unique_hit(all, low, alias_of(q), query, 5);
    }
}

} // verus!
