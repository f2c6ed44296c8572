//! Настройки журнала: `srelog.toml` в корне заметок, рядом с `oncall/`.
//!
//! TOML разбирается вручную и ровно настолько, насколько нужно одному ключу:
//! верхнеуровневый `directions`, массив строк. Переносы внутри массива, комментарии
//! и оба вида кавычек понимаются; другие ключи и всё ниже первой таблицы `[...]` пропускаются.
use vstd::prelude::*;

use crate::text::{
    chars_of, extend, has_prefix, lines, lines_of, same, slice, starts_with, string_of, strs, trim,
    trim_start, trimmed, trimmed_start, views,
};

verus! {

/// Имя файла в корне заметок.
pub const FILE: &'static str = "srelog.toml";

/// Настройки, которые кладёт `srelog init`, если своих ещё нет.
pub const BUILTIN: &'static str = "# Настройки журнала дежурств srelog.
#
# directions — направления кандидатов в бэклог в том порядке, в каком они идут в BACKLOG.md.
# Кандидат с направлением не из списка попадает в конец таблицы, а сборка предупреждает о нём.
# Пустой список или его отсутствие — направления не проверяются.
directions = [
  \"tooling\",  # утилиты дежурного
  \"access\",   # доступы и права
  \"infra\",    # инфраструктура
  \"dev\",      # доработки сервисов
]
";

#[derive(Debug, Default, PartialEq, Eq)]
pub struct Config {
    /// допустимые направления в порядке BACKLOG.md; пусто — направления не проверяются
    pub directions: Vec<String>,
}

impl View for Config {
    type V = Seq<Seq<char>>;

    open spec fn view(&self) -> Seq<Seq<char>> {
        strs(self.directions@)
    }
}

/// Место направления `d` среди `dirs[k..]`: номер первого совпадения, иначе длина списка.
pub open spec fn rank_from(dirs: Seq<Seq<char>>, d: Seq<char>, k: int) -> nat
    decreases dirs.len() - k,
{
    if k < 0 || k >= dirs.len() {
        dirs.len()
    } else if dirs[k] == d {
        k as nat
    } else {
        rank_from(dirs, d, k + 1)
    }
}

/// Место направления в списке: номер первого совпадения, незнакомые — после всех.
pub open spec fn rank_of(dirs: Seq<Seq<char>>, d: Seq<char>) -> nat {
    rank_from(dirs, d, 0)
}

/// Направления нет в непустом списке.
pub open spec fn unknown_in(dirs: Seq<Seq<char>>, d: Seq<char>) -> bool {
    dirs.len() > 0 && !dirs.contains(d)
}

impl Config {
    /// Место направления в BACKLOG.md: по списку, незнакомые после всех. Без списка место у всех одно.
    pub fn rank(&self, direction: &str) -> (r: usize)
        ensures
            r == rank_of(self@, direction@),
    {
        let d = chars_of(direction);
        let mut k: usize = 0;
        while k < self.directions.len()
            invariant
                k <= self.directions.len(),
                d@ == direction@,
                rank_of(self@, direction@) == rank_from(self@, direction@, k as int),
            decreases self.directions.len() - k,
        {
            assert(self@[k as int] == self.directions@[k as int]@);
            if same(&chars_of(self.directions[k].as_str()), &d) {
                return k;
            }
            k += 1;
        }
        k
    }

    /// Направления нет в списке. Когда списка нет, незнакомых не бывает.
    pub fn unknown(&self, direction: &str) -> (b: bool)
        ensures
            b == unknown_in(self@, direction@),
    {
        if self.directions.len() == 0 {
            return false;
        }
        let d = chars_of(direction);
        for k in 0..self.directions.len()
            invariant
                d@ == direction@,
                forall|m: int| 0 <= m < k ==> self@[m] != direction@,
        {
            assert(self@[k as int] == self.directions@[k as int]@);
            if same(&chars_of(self.directions[k].as_str()), &d) {
                return false;
            }
        }
        assert(!self@.contains(direction@));
        true
    }
}

/// Незнакомое направление стоит после всех знакомых, а знакомое — на месте своего первого вхождения.
/// Без списка место у всех одно, и незнакомых не бывает.
pub proof fn law_rank_unknown(dirs: Seq<Seq<char>>, d: Seq<char>)
    ensures
        dirs.len() == 0 ==> rank_of(dirs, d) == 0 && !unknown_in(dirs, d),
        rank_of(dirs, d) <= dirs.len(),
        rank_of(dirs, d) == dirs.len() <==> !dirs.contains(d),
        rank_of(dirs, d) < dirs.len() ==> dirs[rank_of(dirs, d) as int] == d,
        unknown_in(dirs, d) ==> forall|k: int| 0 <= k < dirs.len() ==> rank_of(dirs, dirs[k]) < rank_of(dirs, d),
{
    lemma_rank_from(dirs, d, 0);
    assert forall|k: int| 0 <= k < dirs.len() implies rank_of(dirs, dirs[k]) < dirs.len() by {
        lemma_rank_from(dirs, dirs[k], 0);
    }
}

proof fn lemma_rank_from(dirs: Seq<Seq<char>>, d: Seq<char>, k: int)
    requires
        0 <= k <= dirs.len(),
    ensures
        k <= rank_from(dirs, d, k) <= dirs.len(),
        rank_from(dirs, d, k) == dirs.len() <==> forall|m: int| k <= m < dirs.len() ==> dirs[m]
            != d,
        rank_from(dirs, d, k) < dirs.len() ==> dirs[rank_from(dirs, d, k) as int] == d,
    decreases dirs.len() - k,
{
    if k < dirs.len() && dirs[k] != d {
        lemma_rank_from(dirs, d, k + 1);
    }
}

// ---------------------------------------------------------------- разбор

/// Отказ: значение ключа — не массив.
pub open spec fn not_array() -> Seq<char> {
    "`directions` ждёт массив строк: `[\"infra\", \"dev\"]`"@
}

/// Конец слова без кавычек: первый из `,`, `]`, `#`, пробела или табуляции с позиции `i`.
pub open spec fn word_end(s: Seq<char>, i: int) -> int
    decreases s.len() - i,
{
    if i < 0 || i >= s.len() {
        s.len() as int
    } else if s[i] == ',' || s[i] == ']' || s[i] == '#' || s[i] == ' ' || s[i] == '\t' {
        i
    } else {
        word_end(s, i + 1)
    }
}

/// Строка в кавычках `quote` с позиции `i`: содержимое и позиция за закрывающей кавычкой.
/// В двойных кавычках понимаются `\"` и `\\`, в одинарных экранирования нет.
pub open spec fn quoted(s: Seq<char>, i: int, quote: char, acc: Seq<char>) -> Result<
    (Seq<char>, int),
    Seq<char>,
>
    decreases s.len() - i,
{
    if i < 0 || i >= s.len() {
        Err("строка не закрыта"@)
    } else if s[i] == quote {
        Ok((acc, i + 1))
    } else if s[i] == '\\' && quote == '"' {
        if i + 1 >= s.len() {
            Err("строка не закрыта"@)
        } else if s[i + 1] == '"' || s[i + 1] == '\\' {
            quoted(s, i + 2, quote, acc.push(s[i + 1]))
        } else {
            Err("экранирование `\\"@ + seq![s[i + 1]] + "` не поддерживается"@)
        }
    } else {
        quoted(s, i + 1, quote, acc.push(s[i]))
    }
}

pub proof fn lemma_quoted_pos(s: Seq<char>, i: int, quote: char, acc: Seq<char>)
    ensures
        quoted(s, i, quote, acc) matches Ok((_v, j)) ==> i < j <= s.len(),
    decreases s.len() - i,
{
    if 0 <= i < s.len() && s[i] != quote {
        if s[i] == '\\' && quote == '"' {
            if i + 1 < s.len() && (s[i + 1] == '"' || s[i + 1] == '\\') {
                lemma_quoted_pos(s, i + 2, quote, acc.push(s[i + 1]));
            }
        } else {
            lemma_quoted_pos(s, i + 1, quote, acc.push(s[i]));
        }
    }
}

/// Состояние массива: собранные строки, была ли `[`, ждём ли `,` или `]`.
pub type ArrayState = (Seq<Seq<char>>, bool, bool);

/// Очередная строка массива с позиции `i`: новое состояние и закрылся ли массив, либо отказ.
pub open spec fn feed_from(s: Seq<char>, i: int, st: ArrayState) -> Result<(ArrayState, bool), Seq<char>>
    decreases s.len() - i,
{
    let (items, open, comma) = st;
    if i < 0 || i >= s.len() {
        Ok((st, false))
    } else {
        let c = s[i];
        if c == ' ' || c == '\t' {
            feed_from(s, i + 1, st)
        } else if c == '#' {
            Ok((st, false))
        } else if c == '[' && !open {
            feed_from(s, i + 1, (items, true, comma))
        } else if !open {
            Err(not_array())
        } else if c == ']' {
            let tail = trim(s.subrange(i + 1, s.len() as int));
            if tail.len() > 0 && !starts_with(tail, "#"@) {
                Err("лишнее после `]`: `"@ + tail + "`"@)
            } else {
                Ok((st, true))
            }
        } else if c == ',' && comma {
            feed_from(s, i + 1, (items, open, false))
        } else if comma {
            Err("между элементами `directions` нужна запятая"@)
        } else if c == ',' {
            Err("лишняя запятая в `directions`"@)
        } else if c == '"' || c == '\'' {
            match quoted(s, i + 1, c, Seq::empty()) {
                Err(e) => Err(e),
                Ok((v, j)) => {
                    proof {
                        lemma_quoted_pos(s, i + 1, c, Seq::empty());
                    }
                    feed_from(s, j, (items.push(v), open, true))
                },
            }
        } else {
            Err("`"@ + s.subrange(i, word_end(s, i + 1)) + "` без кавычек: элементы `directions` — строки"@)
        }
    }
}

/// Строка верхнего уровня (без ведущих пробелов) задаёт `directions`: её значение после `=`.
pub open spec fn key_value(t: Seq<char>) -> Option<Seq<char>> {
    if starts_with(t, "directions"@) {
        let r = trim_start(t.subrange("directions"@.len() as int, t.len() as int));
        if starts_with(r, "="@) {
            Some(r.subrange(1, r.len() as int))
        } else {
            None
        }
    } else {
        None
    }
}

/// Разбор строк `i..`. `found` — уже прочитанный список; `arr` — незакрытый массив
/// и номер строки, где он начался.
pub open spec fn parse_lines(
    ls: Seq<Seq<char>>,
    i: int,
    found: Option<Seq<Seq<char>>>,
    arr: Option<(ArrayState, nat)>,
) -> Result<Seq<Seq<char>>, (nat, Seq<char>)>
    decreases ls.len() - i,
{
    if i < 0 || i >= ls.len() {
        match arr {
            Some((_st, start)) => Err((start, "массив `directions` не закрыт"@)),
            None => Ok(
                match found {
                    Some(d) => d,
                    None => Seq::empty(),
                },
            ),
        }
    } else {
        match arr {
            Some((st, start)) => match feed_from(ls[i], 0, st) {
                Err(e) => Err(((i + 1) as nat, e)),
                Ok((st2, true)) => parse_lines(ls, i + 1, Some(st2.0), None),
                Ok((st2, false)) => parse_lines(ls, i + 1, found, Some((st2, start))),
            },
            None => {
                let t = trim_start(ls[i]);
                if starts_with(t, "["@) {
                    Ok(
                        match found {
                            Some(d) => d,
                            None => Seq::empty(),
                        },
                    )
                } else {
                    match key_value(t) {
                        None => parse_lines(ls, i + 1, found, None),
                        Some(v) => if found is Some {
                            Err(((i + 1) as nat, "`directions` задан второй раз"@))
                        } else {
                            match feed_from(v, 0, (Seq::empty(), false, false)) {
                                Err(e) => Err(((i + 1) as nat, e)),
                                Ok((st2, true)) => parse_lines(ls, i + 1, Some(st2.0), None),
                                Ok((st2, false)) => parse_lines(
                                    ls,
                                    i + 1,
                                    found,
                                    Some((st2, (i + 1) as nat)),
                                ),
                            }
                        },
                    }
                }
            },
        }
    }
}

/// Разбор `srelog.toml`: список направлений или номер строки и причина отказа.
pub open spec fn parsed(text: Seq<char>) -> Result<Seq<Seq<char>>, (nat, Seq<char>)> {
    parse_lines(lines(text), 0, None, None)
}

/// Массив строк, который приходит построчно.
struct Array {
    items: Vec<String>,
    /// `[` уже была
    open: bool,
    /// после элемента ждём `,` или `]`
    comma: bool,
}

impl View for Array {
    type V = ArrayState;

    closed spec fn view(&self) -> ArrayState {
        (strs(self.items@), self.open, self.comma)
    }
}

/// Строка до закрывающей кавычки, начиная с позиции `i`. Возвращает содержимое и позицию за кавычкой.
fn string(s: &Vec<char>, i: usize, quote: char) -> (r: Result<(Vec<char>, usize), String>)
    requires
        i <= s.len(),
    ensures
        match quoted(s@, i as int, quote, Seq::empty()) {
            Ok((v, j)) => r matches Ok((w, k)) && w@ == v && k == j,
            Err(e) => r matches Err(x) && x@ == e,
        },
{
    let mut out: Vec<char> = Vec::new();
    let mut k = i;
    while k < s.len()
        invariant
            i <= k <= s.len(),
            quoted(s@, i as int, quote, Seq::empty()) == quoted(s@, k as int, quote, out@),
        ensures
            quoted(s@, i as int, quote, Seq::empty()) == Err::<(Seq<char>, int), Seq<char>>(
                "строка не закрыта"@,
            ),
        decreases s.len() - k,
    {
        let c = s[k];
        if c == quote {
            return Ok((out, k + 1));
        } else if c == '\\' && quote == '"' {
            if k + 1 >= s.len() {
                break;
            }
            let e = s[k + 1];
            if e == '"' || e == '\\' {
                out.push(e);
                k += 2;
            } else {
                let mut m = chars_of("экранирование `\\");
                m.push(e);
                extend(&mut m, &chars_of("` не поддерживается"));
                assert(m@ =~= "экранирование `\\"@ + seq![e] + "` не поддерживается"@);
                return Err(string_of(&m));
            }
        } else {
            out.push(c);
            k += 1;
        }
    }
    Err(string_of(&chars_of("строка не закрыта")))
}

impl Array {
    fn new() -> (a: Array)
        ensures
            a@ == (Seq::<Seq<char>>::empty(), false, false),
    {
        let a = Array { items: Vec::new(), open: false, comma: false };
        assert(strs(a.items@) =~= Seq::<Seq<char>>::empty());
        a
    }

    /// Разбирает очередную строку файла. `Ok(true)` — массив закрылся.
    fn feed(&mut self, line: &Vec<char>) -> (r: Result<bool, String>)
        ensures
            match feed_from(line@, 0, old(self)@) {
                Ok((st, closed)) => r == Ok::<bool, String>(closed) && final(self)@ == st,
                Err(e) => r matches Err(x) && x@ == e,
            },
    {
        let mut i: usize = 0;
        while i < line.len()
            invariant
                i <= line.len(),
                feed_from(line@, 0, old(self)@) == feed_from(line@, i as int, self@),
            decreases line.len() - i,
        {
            let c = line[i];
            if c == ' ' || c == '\t' {
                i += 1;
            } else if c == '#' {
                return Ok(false);
            } else if c == '[' && !self.open {
                self.open = true;
                i += 1;
            } else if !self.open {
                return Err(string_of(&chars_of("`directions` ждёт массив строк: `[\"infra\", \"dev\"]`")));
            } else if c == ']' {
                let tail = trimmed(&slice(line, i + 1, line.len()));
                if tail.len() > 0 && !has_prefix(&tail, &chars_of("#")) {
                    let mut m = chars_of("лишнее после `]`: `");
                    extend(&mut m, &tail);
                    extend(&mut m, &chars_of("`"));
                    return Err(string_of(&m));
                }
                return Ok(true);
            } else if c == ',' && self.comma {
                self.comma = false;
                i += 1;
            } else if self.comma {
                return Err(string_of(&chars_of("между элементами `directions` нужна запятая")));
            } else if c == ',' {
                return Err(string_of(&chars_of("лишняя запятая в `directions`")));
            } else if c == '"' || c == '\'' {
                proof {
                    lemma_quoted_pos(line@, i + 1, c, Seq::empty());
                }
                match string(line, i + 1, c) {
                    Err(e) => {
                        return Err(e);
                    },
                    Ok((v, j)) => {
                        let ghost old_items = self.items@;
                        let sv = string_of(&v);
                        self.items.push(sv);
                        assert(strs(self.items@) =~= strs(old_items).push(v@));
                        self.comma = true;
                        i = j;
                    },
                }
            } else {
                let mut e = i + 1;
                while e < line.len() && !(line[e] == ',' || line[e] == ']' || line[e] == '#'
                    || line[e] == ' ' || line[e] == '\t')
                    invariant
                        i < e <= line.len(),
                        word_end(line@, i + 1) == word_end(line@, e as int),
                    decreases line.len() - e,
                {
                    e += 1;
                }
                let mut m = chars_of("`");
                extend(&mut m, &slice(line, i, e));
                extend(&mut m, &chars_of("` без кавычек: элементы `directions` — строки"));
                return Err(string_of(&m));
            }
        }
        Ok(false)
    }
}

fn key_value_v(t: &Vec<char>) -> (r: Option<Vec<char>>)
    ensures
        match key_value(t@) {
            None => r is None,
            Some(v) => r matches Some(w) && w@ == v,
        },
{
    let key = chars_of("directions");
    if !has_prefix(t, &key) {
        return None;
    }
    let r = trimmed_start(&slice(t, key.len(), t.len()));
    if !has_prefix(&r, &chars_of("=")) {
        return None;
    }
    proof {
        reveal_strlit("=");
    }
    Some(slice(&r, 1, r.len()))
}

/// Разбирает `srelog.toml`. Ошибка — номер строки с единицы и что не так.
pub fn parse(text: &str) -> (r: Result<Config, (usize, String)>)
    ensures
        match parsed(text@) {
            Ok(d) => r matches Ok(c) && c@ == d,
            Err((n, e)) => r matches Err((m, x)) && m == n && x@ == e,
        },
{
    let ls = lines_of(&chars_of(text));
    let ghost lv = views(ls@);
    let mut found: Option<Vec<String>> = None;
    let mut arr: Option<(Array, usize)> = None;
    let bracket = chars_of("[");
    let mut i: usize = 0;
    let mut stop = false;
    while i < ls.len()
        invariant
            lv == views(ls@),
            lv.len() == ls.len(),
            i <= ls.len(),
            bracket@ == "["@,
            stop ==> i == ls.len(),
            stop ==> arr is None && parsed(text@) == Ok::<Seq<Seq<char>>, (nat, Seq<char>)>(
                match found {
                    Some(d) => strs(d@),
                    None => Seq::empty(),
                },
            ),
            !stop ==> parsed(text@) == parse_lines(
                lv,
                i as int,
                match found {
                    Some(d) => Some(strs(d@)),
                    None => None,
                },
                match arr {
                    Some((a, start)) => Some((a@, start as nat)),
                    None => None,
                },
            ),
        decreases ls.len() - i,
    {
        let l = &ls[i];
        assert(lv[i as int] == l@);
        match arr.take() {
            Some((mut a, start)) => {
                match a.feed(l) {
                    Err(e) => {
                        return Err((i + 1, e));
                    },
                    Ok(true) => {
                        found = Some(a.items);
                        arr = None;
                    },
                    Ok(false) => {
                        arr = Some((a, start));
                    },
                }
            },
            None => {
                let t = trimmed_start(l);
                // таблица: ключи ниже уже не верхнего уровня
                if has_prefix(&t, &bracket) {
                    stop = true;
                } else if let Some(v) = key_value_v(&t) {
                    if found.is_some() {
                        return Err((i + 1, string_of(&chars_of("`directions` задан второй раз"))));
                    }
                    // массив может тянуться на несколько строк: скармливаем их, пока не закроется
                    let mut a = Array::new();
                    match a.feed(&v) {
                        Err(e) => {
                            return Err((i + 1, e));
                        },
                        Ok(true) => {
                            found = Some(a.items);
                        },
                        Ok(false) => {
                            arr = Some((a, i + 1));
                        },
                    }
                }
            },
        }
        if stop {
            i = ls.len();
        } else {
            i += 1;
        }
    }
    if !stop {
        if let Some((_a, start)) = arr {
            return Err((start, string_of(&chars_of("массив `directions` не закрыт"))));
        }
    }
    let directions = match found {
        Some(d) => d,
        None => {
            let d: Vec<String> = Vec::new();
            assert(strs(d@) =~= Seq::<Seq<char>>::empty());
            d
        },
    };
    let c = Config { directions };
    assert(parsed(text@) == Ok::<Seq<Seq<char>>, (nat, Seq<char>)>(c@));
    Ok(c)
}

} // verus!
