//! Репозиторий заметок: записи смен, имена и пути, INDEX.md и BACKLOG.md,
//! подсказки про `SRELOG_ROOT`. Диск и окружение читает вызывающий: сюда приходят значения.
use vstd::prelude::*;

use crate::config::{parse, parsed, rank_of, unknown_in, Config, FILE};
use crate::md::{backlog_of, backlog_rows, cell, front, front_value, lead_scan, section_lead, BacklogRow};
use crate::order::{
    key_lt, seq_lt, key_view, key_views, keys_sorted, paths_sorted, sort_paths, sort_rows, RowKey,
};
use crate::paths::{
    absolute_of, ancestors, ancestors_of, cleaned, comps, comps_v, is_absolute, join_path,
    path_join, rooted, same_path,
};
use crate::text::{
    chars_of, copy, decimal, decimal_of, extend, join, join_with, lines, replace, replace_all, same,
    slice, split_by, split_on, starts_with, string_of, strs, trim, trimmed, views,
};

verus! {

/// Шаблон новой записи: используется, если в репозитории нет oncall/TEMPLATE.md.
pub const BUILTIN_TEMPLATE: &'static str = "---
date: {{DATE}}
engineer: {{ENGINEER}}
context: []
tags: []
---

# Дежурство {{DATE}}

## Итог смены

<!-- одна-две строки: что случилось за смену и чем кончилось -->

## Контекст

<!-- инциденты, тикеты, окружения -->

## Находки

## Артефакты

## Кандидаты в бэклог

| Направление | Что завести | Основание |
|-------------|-------------|-----------|

## Открытые вопросы
";

/// README каталога заметок: кладётся при `srelog init`, если своего ещё нет.
pub const BUILTIN_README: &'static str = "# Журнал дежурств

Здесь лежат записи смен: `ГГГГ/ГГГГ-ММ-ДД.md`, по одной на день.

- `srelog shift` заводит запись на сегодня из `TEMPLATE.md`;
- `srelog add [секция]` дописывает в неё то, что пришло на stdin;
- `srelog sync` пересобирает `INDEX.md` и `BACKLOG.md`.

`INDEX.md` и `BACKLOG.md` собираются из записей: правки вносите в сами записи.
Порядок направлений в `BACKLOG.md` задаёт `srelog.toml` в корне журнала.
";

/// Запись смены: путь к файлу и путь относительно `oncall/`, всегда через `/`.
pub struct Entry {
    pub path: String,
    /// путь относительно oncall/, всегда через `/`
    pub rel: String,
}

/// Корень журнала: каталог, в котором лежит `oncall/`.
pub struct Notes {
    pub root: String,
}

/// Что `init` сделал на диске.
#[derive(Debug, Default)]
pub struct InitReport {
    /// файлы, которых не было
    pub created: Vec<String>,
    /// генерируемые файлы, содержимое которых изменилось
    pub rebuilt: Vec<String>,
    /// предупреждения сборки BACKLOG.md
    pub warnings: Vec<String>,
}

impl InitReport {
    /// На диске ничего не поменялось. Предупреждения не в счёт: файлов они не трогают.
    pub fn is_empty(&self) -> (b: bool)
        ensures
            b == (self.created@.len() == 0 && self.rebuilt@.len() == 0),
    {
        self.created.len() == 0 && self.rebuilt.len() == 0
    }

    /// Отчёт как значения: созданные и пересобранные пути.
    pub open spec fn report(self) -> InitState {
        (strs(self.created@), strs(self.rebuilt@))
    }

    /// Стартовый файл или каталог: заводится, только если его ещё нет. Ответ — заводить ли.
    pub fn starter(&mut self, path: String, exists: bool) -> (write: bool)
        ensures
            write == !exists,
            (final(self).report(), write) == starter_step(old(self).report(), path@, exists),
            exists ==> strs(final(self).created@) == strs(old(self).created@),
            !exists ==> strs(final(self).created@) == strs(old(self).created@).push(path@),
            strs(final(self).rebuilt@) == strs(old(self).rebuilt@),
            strs(final(self).warnings@) == strs(old(self).warnings@),
    {
        if exists {
            return false;
        }
        let ghost before = strs(self.created@);
        self.created.push(path);
        assert(strs(self.created@) =~= before.push(path@));
        true
    }

    /// Генерируемый файл: `on_disk` — что сейчас лежит на диске (`None` — файла нет), `body` —
    /// новая сборка. Ровно то же не трогается (mtime не меняется), другое пересобирается,
    /// отсутствующее создаётся. Ответ — писать ли файл.
    pub fn generated(&mut self, path: String, on_disk: Option<&str>, body: &str) -> (write: bool)
        ensures
            write == !same_on_disk(on_disk, body),
            (final(self).report(), write) == generated_step(
                old(self).report(),
                path@,
                opt_seq(on_disk),
                body@,
            ),
            (on_disk is None) ==> strs(final(self).created@) == strs(old(self).created@).push(path@),
            (on_disk is Some) ==> strs(final(self).created@) == strs(old(self).created@),
            (on_disk is Some && !same_on_disk(on_disk, body)) ==> strs(final(self).rebuilt@)
                == strs(old(self).rebuilt@).push(path@),
            (on_disk is None || same_on_disk(on_disk, body)) ==> strs(final(self).rebuilt@)
                == strs(old(self).rebuilt@),
            strs(final(self).warnings@) == strs(old(self).warnings@),
    {
        match on_disk {
            None => {
                let ghost before = strs(self.created@);
                self.created.push(path);
                assert(strs(self.created@) =~= before.push(path@));
                true
            },
            Some(d) => {
                if same(&chars_of(d), &chars_of(body)) {
                    false
                } else {
                    let ghost before = strs(self.rebuilt@);
                    self.rebuilt.push(path);
                    assert(strs(self.rebuilt@) =~= before.push(path@));
                    true
                }
            },
        }
    }

    /// Что сообщить после `init`: созданное и пересобранное по строке на путь,
    /// а если на диске ничего не поменялось — одна строка об этом.
    pub fn summary(&self) -> (r: Vec<String>)
        ensures
            strs(r@) == summary_of(strs(self.created@), strs(self.rebuilt@)),
    {
        let mut r: Vec<String> = Vec::new();
        if self.is_empty() {
            r.push(string_of(&chars_of("журнал уже заведён, ничего не менял")));
            assert(strs(r@) =~= summary_of(strs(self.created@), strs(self.rebuilt@)));
            return r;
        }
        let ghost c = strs(self.created@);
        let ghost b = strs(self.rebuilt@);
        for i in 0..self.created.len()
            invariant
                c == strs(self.created@),
                strs(r@) == prefixed("создано: "@, c.take(i as int)),
        {
            let mut line = chars_of("создано: ");
            extend(&mut line, &chars_of(self.created[i].as_str()));
            let ghost before = strs(r@);
            r.push(string_of(&line));
            assert(strs(r@) =~= before.push(line@));
            assert(c.take(i + 1) =~= c.take(i as int).push(c[i as int]));
            assert(prefixed("создано: "@, c.take(i + 1)) =~= prefixed("создано: "@, c.take(i as int)).push(line@));
        }
        assert(c.take(c.len() as int) =~= c);
        let ghost head = strs(r@);
        for i in 0..self.rebuilt.len()
            invariant
                b == strs(self.rebuilt@),
                head == prefixed("создано: "@, c),
                strs(r@) == head + prefixed("пересобрано: "@, b.take(i as int)),
        {
            let mut line = chars_of("пересобрано: ");
            extend(&mut line, &chars_of(self.rebuilt[i].as_str()));
            let ghost before = strs(r@);
            r.push(string_of(&line));
            assert(strs(r@) =~= before.push(line@));
            assert(b.take(i + 1) =~= b.take(i as int).push(b[i as int]));
            assert(prefixed("пересобрано: "@, b.take(i + 1)) =~= prefixed("пересобрано: "@, b.take(i as int)).push(line@));
        }
        assert(b.take(b.len() as int) =~= b);
        r
    }
}

// ---------------------------------------------------------------- решения init

/// Отчёт `init` как значения: созданные и пересобранные пути.
pub type InitState = (Seq<Seq<char>>, Seq<Seq<char>>);

/// Шаг `init` для стартового файла или каталога `path`: заводится и попадает в «создано»,
/// только если его нет. Второе значение — пишется ли что-то на диск.
pub open spec fn starter_step(st: InitState, path: Seq<char>, exists: bool) -> (InitState, bool) {
    if exists {
        (st, false)
    } else {
        ((st.0.push(path), st.1), true)
    }
}

/// Шаг `init` для генерируемого файла: нет на диске — создаётся, там другое — пересобирается,
/// там ровно `body` — не трогается.
pub open spec fn generated_step(
    st: InitState,
    path: Seq<char>,
    on_disk: Option<Seq<char>>,
    body: Seq<char>,
) -> (InitState, bool) {
    match on_disk {
        None => ((st.0.push(path), st.1), true),
        Some(d) => if d == body {
            (st, false)
        } else {
            ((st.0, st.1.push(path)), true)
        },
    }
}

/// Первые `n` стартовых шагов: отчёт и записанные пути.
pub open spec fn starters_run(
    st: InitState,
    w: Seq<Seq<char>>,
    ss: Seq<(Seq<char>, bool)>,
    n: int,
) -> (InitState, Seq<Seq<char>>)
    decreases n,
{
    if n <= 0 {
        (st, w)
    } else {
        let (st1, w1) = starters_run(st, w, ss, n - 1);
        let (st2, wr) = starter_step(st1, ss[n - 1].0, ss[n - 1].1);
        (st2, if wr {
            w1.push(ss[n - 1].0)
        } else {
            w1
        })
    }
}

/// Первые `n` шагов по генерируемым файлам: отчёт и записанные пути.
pub open spec fn generated_run(
    st: InitState,
    w: Seq<Seq<char>>,
    gs: Seq<(Seq<char>, Option<Seq<char>>, Seq<char>)>,
    n: int,
) -> (InitState, Seq<Seq<char>>)
    decreases n,
{
    if n <= 0 {
        (st, w)
    } else {
        let (st1, w1) = generated_run(st, w, gs, n - 1);
        let (st2, wr) = generated_step(st1, gs[n - 1].0, gs[n - 1].1, gs[n - 1].2);
        (st2, if wr {
            w1.push(gs[n - 1].0)
        } else {
            w1
        })
    }
}

/// Один прогон `init` по тому, что лежит на диске, в его порядке: каталог `oncall/` и стартовые
/// файлы (путь и есть ли он), затем генерируемые файлы (путь, что на диске, новая сборка).
/// Результат — отчёт и пути, которые заводятся или пишутся.
pub open spec fn init_run(
    ss: Seq<(Seq<char>, bool)>,
    gs: Seq<(Seq<char>, Option<Seq<char>>, Seq<char>)>,
) -> (InitState, Seq<Seq<char>>) {
    let (st, w) = starters_run((Seq::empty(), Seq::empty()), Seq::empty(), ss, ss.len() as int);
    generated_run(st, w, gs, gs.len() as int)
}

/// Что остаётся на диске после удачного прогона: всё стартовое есть, генерируемые файлы
/// хранят свои сборки.
pub open spec fn after_run(
    ss: Seq<(Seq<char>, bool)>,
    gs: Seq<(Seq<char>, Option<Seq<char>>, Seq<char>)>,
) -> (Seq<(Seq<char>, bool)>, Seq<(Seq<char>, Option<Seq<char>>, Seq<char>)>) {
    (
        ss.map_values(|s: (Seq<char>, bool)| (s.0, true)),
        gs.map_values(|g: (Seq<char>, Option<Seq<char>>, Seq<char>)| (g.0, Some(g.2), g.2)),
    )
}

/// Генерируемые файлы среди первых `n`, чьё содержимое на диске не совпадает со сборкой.
pub open spec fn changed_upto(gs: Seq<(Seq<char>, Option<Seq<char>>, Seq<char>)>, n: int) -> Seq<
    Seq<char>,
>
    decreases n,
{
    if n <= 0 {
        Seq::empty()
    } else if gs[n - 1].1 == Some(gs[n - 1].2) {
        changed_upto(gs, n - 1)
    } else {
        changed_upto(gs, n - 1).push(gs[n - 1].0)
    }
}

proof fn lemma_starters_all_exist(st: InitState, w: Seq<Seq<char>>, ss: Seq<(Seq<char>, bool)>, n: int)
    requires
        0 <= n <= ss.len(),
        forall|k: int| 0 <= k < ss.len() ==> (#[trigger] ss[k]).1,
    ensures
        starters_run(st, w, ss, n) == (st, w),
    decreases n,
{
    if n > 0 {
        lemma_starters_all_exist(st, w, ss, n - 1);
        assert(ss[n - 1].1);
    }
}

proof fn lemma_generated_present(
    st: InitState,
    w: Seq<Seq<char>>,
    gs: Seq<(Seq<char>, Option<Seq<char>>, Seq<char>)>,
    n: int,
)
    requires
        0 <= n <= gs.len(),
        forall|k: int| 0 <= k < gs.len() ==> (#[trigger] gs[k]).1 is Some,
    ensures
        generated_run(st, w, gs, n) == ((st.0, st.1 + changed_upto(gs, n)), w + changed_upto(gs, n)),
    decreases n,
{
    if n > 0 {
        lemma_generated_present(st, w, gs, n - 1);
        assert(gs[n - 1].1 is Some);
        let c = changed_upto(gs, n - 1);
        if gs[n - 1].1 != Some(gs[n - 1].2) {
            assert((st.1 + c).push(gs[n - 1].0) =~= st.1 + c.push(gs[n - 1].0));
            assert((w + c).push(gs[n - 1].0) =~= w + c.push(gs[n - 1].0));
        }
    } else {
        assert(st.1 + Seq::<Seq<char>>::empty() =~= st.1);
        assert(w + Seq::<Seq<char>>::empty() =~= w);
    }
}

/// Повторный `init` над журналом, где всё стартовое уже есть, ничего не заводит и не пишет
/// поверх: созданного нет, пересобраны ровно те генерируемые файлы, чьё содержимое разошлось
/// со сборкой (например, правленный руками INDEX.md), и только они пишутся. Стартовые файлы,
/// даже правленные руками, не трогаются.
pub proof fn law_init_rerun(
    ss: Seq<(Seq<char>, bool)>,
    gs: Seq<(Seq<char>, Option<Seq<char>>, Seq<char>)>,
)
    requires
        forall|k: int| 0 <= k < ss.len() ==> (#[trigger] ss[k]).1,
        forall|k: int| 0 <= k < gs.len() ==> (#[trigger] gs[k]).1 is Some,
    ensures
        init_run(ss, gs) == (
            (Seq::<Seq<char>>::empty(), changed_upto(gs, gs.len() as int)),
            changed_upto(gs, gs.len() as int),
        ),
{
    let e = Seq::<Seq<char>>::empty();
    lemma_starters_all_exist((e, e), e, ss, ss.len() as int);
    lemma_generated_present((e, e), e, gs, gs.len() as int);
    assert(e + changed_upto(gs, gs.len() as int) =~= changed_upto(gs, gs.len() as int));
}

proof fn lemma_changed_none(gs: Seq<(Seq<char>, Option<Seq<char>>, Seq<char>)>, n: int)
    requires
        0 <= n <= gs.len(),
        forall|k: int| 0 <= k < gs.len() ==> (#[trigger] gs[k]).1 == Some(gs[k].2),
    ensures
        changed_upto(gs, n) == Seq::<Seq<char>>::empty(),
    decreases n,
{
    if n > 0 {
        lemma_changed_none(gs, n - 1);
        assert(gs[n - 1].1 == Some(gs[n - 1].2));
    }
}

/// Второй `init` подряд, после удачного первого, когда записи не менялись: на диске уже всё,
/// что заводит `init`, и генерируемые файлы хранят ровно свои сборки — поэтому отчёт пуст
/// и ничего не пишется.
pub proof fn law_init_twice(
    ss: Seq<(Seq<char>, bool)>,
    gs: Seq<(Seq<char>, Option<Seq<char>>, Seq<char>)>,
)
    ensures
        init_run(after_run(ss, gs).0, after_run(ss, gs).1) == (
            (Seq::<Seq<char>>::empty(), Seq::<Seq<char>>::empty()),
            Seq::<Seq<char>>::empty(),
        ),
{
    let (ss2, gs2) = after_run(ss, gs);
    assert forall|k: int| 0 <= k < ss2.len() implies (#[trigger] ss2[k]).1 by {}
    assert forall|k: int| 0 <= k < gs2.len() implies (#[trigger] gs2[k]).1 is Some by {}
    assert forall|k: int| 0 <= k < gs2.len() implies (#[trigger] gs2[k]).1 == Some(gs2[k].2) by {}
    law_init_rerun(ss2, gs2);
    lemma_changed_none(gs2, gs2.len() as int);
}

/// На диске уже ровно новая сборка.
pub open spec fn same_on_disk(on_disk: Option<&str>, body: &str) -> bool {
    match on_disk {
        Some(d) => d@ == body@,
        None => false,
    }
}

/// Каждая строка с приставкой.
pub open spec fn prefixed(head: Seq<char>, ls: Seq<Seq<char>>) -> Seq<Seq<char>> {
    ls.map_values(|l: Seq<char>| head + l)
}

/// Сообщение после `init` по созданным и пересобранным путям.
pub open spec fn summary_of(created: Seq<Seq<char>>, rebuilt: Seq<Seq<char>>) -> Seq<Seq<char>> {
    if created.len() == 0 && rebuilt.len() == 0 {
        seq!["журнал уже заведён, ничего не менял"@]
    } else {
        prefixed("создано: "@, created) + prefixed("пересобрано: "@, rebuilt)
    }
}

/// Собранный BACKLOG.md и сколько кандидатов легло в каждый раздел.
pub struct Backlog {
    pub text: String,
    /// без статуса, основная таблица
    pub open: usize,
    /// со статусом, раздел «Заведено и снято»
    pub closed: usize,
    /// незнакомые направления и сломанный srelog.toml; сборку они не останавливают
    pub warnings: Vec<String>,
}

// ---------------------------------------------------------------- даты и имена

/// Символ — ASCII-цифра.
pub open spec fn is_digit(c: char) -> bool {
    '0' <= c && c <= '9'
}

/// Дата вида `YYYY-MM-DD`: десять символов, дефисы на местах 4 и 7, остальные — цифры.
/// Проверка идёт по байтам; пройти её может только ASCII-строка, поэтому символы и байты здесь совпадают.
pub open spec fn date_ok(d: Seq<char>) -> bool {
    &&& d.len() == 10
    &&& d[4] == '-'
    &&& d[7] == '-'
    &&& forall|i: int| 0 <= i < 10 && i != 4 && i != 7 ==> is_digit(#[trigger] d[i])
}

/// Отказ для неверной даты.
pub open spec fn date_error(d: Seq<char>) -> Seq<char> {
    "дата должна быть YYYY-MM-DD, а не `"@ + d + "`"@
}

/// Проверяет, что дата записана как `YYYY-MM-DD`.
pub fn check_date(d: &str) -> (r: Result<(), String>)
    ensures
        date_ok(d@) ==> r is Ok,
        !date_ok(d@) ==> (r matches Err(e) && e@ == date_error(d@)),
{
    let v = chars_of(d);
    let mut ok = v.len() == 10 && v[4] == '-' && v[7] == '-';
    if ok {
        for i in 0..10
            invariant
                v@ == d@,
                v.len() == 10,
                ok ==> forall|k: int| 0 <= k < i && k != 4 && k != 7 ==> is_digit(#[trigger] v@[k]),
                !ok ==> !date_ok(d@),
        {
            if i != 4 && i != 7 && !('0' <= v[i] && v[i] <= '9') {
                ok = false;
            }
        }
    }
    if ok {
        Ok(())
    } else {
        let mut e = chars_of("дата должна быть YYYY-MM-DD, а не `");
        extend(&mut e, &v);
        extend(&mut e, &chars_of("`"));
        Err(string_of(&e))
    }
}

/// Имя файла записи: `YYYY-MM-DD.md`.
pub open spec fn entry_name_ok(name: Seq<char>) -> bool {
    name.len() == 13 && name.subrange(10, 13) == ".md"@ && date_ok(name.subrange(0, 10))
}

/// Имя файла записи: `YYYY-MM-DD.md`. Длина меряется в байтах, но подойти может только ASCII-имя.
pub fn is_entry_name(name: &str) -> (b: bool)
    ensures
        b == entry_name_ok(name@),
{
    let v = chars_of(name);
    if v.len() != 13 {
        return false;
    }
    let head = slice(&v, 0, 10);
    let tail = slice(&v, 10, 13);
    if !same(&tail, &chars_of(".md")) {
        return false;
    }
    check_date(string_of(&head).as_str()).is_ok()
}

/// Строка похожа на то, что даёт `chrono` по шаблону `%Y-%m-%d`: год из четырёх цифр
/// (или знак и не меньше четырёх цифр за пределами 0..=9999), затем `-ММ-ДД` цифрами.
pub open spec fn date_shaped(s: Seq<char>) -> bool {
    let n = s.len() as int;
    let y = s.subrange(0, n - 6);
    &&& n >= 10
    &&& s[n - 6] == '-'
    &&& s[n - 3] == '-'
    &&& is_digit(s[n - 5]) && is_digit(s[n - 4]) && is_digit(s[n - 2]) && is_digit(s[n - 1])
    &&& (y.len() == 4 && forall|i: int| 0 <= i < 4 ==> is_digit(#[trigger] y[i])) || (y.len() >= 5
        && (y[0] == '+' || y[0] == '-') && forall|i: int|
        1 <= i < y.len() ==> is_digit(#[trigger] y[i]))
}

/// `chrono::Local::now().format("%Y-%m-%d").to_string()`: сегодняшняя дата по местным часам.
/// Какая именно — зависит от часов машины; контракт говорит только о виде строки,
/// который задаёт форматирование `%Y`, `%m`, `%d` в исходниках chrono.
#[verifier::external_body]
pub fn today() -> (d: String)
    ensures
        date_shaped(d@),
{
    chrono::Local::now().format("%Y-%m-%d").to_string()
}

// ---------------------------------------------------------------- пути журнала

/// Длина символа в UTF-8.
pub open spec fn utf8_width(c: char) -> nat {
    if (c as u32) < 0x80 {
        1
    } else if (c as u32) < 0x800 {
        2
    } else if (c as u32) < 0x10000 {
        3
    } else {
        4
    }
}

/// Длина первых `k` символов в байтах UTF-8.
pub open spec fn bytes_upto(s: Seq<char>, k: int) -> nat
    decreases k,
{
    if k <= 0 || s.len() == 0 {
        0
    } else if k > s.len() {
        bytes_upto(s, s.len() as int)
    } else {
        bytes_upto(s, k - 1) + utf8_width(s[k - 1])
    }
}

/// Первые четыре байта даты — целые символы: столько символов их занимает.
pub open spec fn year_chars(d: Seq<char>) -> int {
    choose|k: int| 0 <= k <= d.len() && bytes_upto(d, k) == 4
}

impl Notes {
    /// Каталог записей.
    pub open spec fn oncall_of(root: Seq<char>) -> Seq<char> {
        path_join(root, "oncall"@)
    }

    /// Корень подходит, если в нём есть `oncall/` (это проверяет вызывающий).
    pub fn verify(root: String, has_oncall: bool) -> (r: Result<Notes, String>)
        ensures
            has_oncall ==> (r matches Ok(n) && n.root@ == root@),
            !has_oncall ==> (r matches Err(e) && e@ == "в "@ + root@
                + " нет каталога oncall/\nЗаведи журнал: srelog init "@ + root@),
    {
        if has_oncall {
            Ok(Notes { root })
        } else {
            let r = chars_of(root.as_str());
            let mut e = chars_of("в ");
            extend(&mut e, &r);
            extend(&mut e, &chars_of(" нет каталога oncall/\nЗаведи журнал: srelog init "));
            extend(&mut e, &r);
            Err(string_of(&e))
        }
    }

    /// Каталог `oncall/` журнала.
    pub fn oncall(&self) -> (p: String)
        ensures
            p@ == Self::oncall_of(self.root@),
    {
        join_path(self.root.as_str(), "oncall")
    }

    /// Стартовый набор `init`: шаблон и README в `oncall/`, настройки в корне журнала;
    /// у каждого файла — путь и содержимое по умолчанию.
    pub fn starters(&self) -> (r: Vec<(String, &'static str)>)
        ensures
            r@.len() == 3,
            r@[0].0@ == path_join(Self::oncall_of(self.root@), "TEMPLATE.md"@),
            r@[0].1@ == BUILTIN_TEMPLATE@,
            r@[1].0@ == path_join(Self::oncall_of(self.root@), "README.md"@),
            r@[1].1@ == BUILTIN_README@,
            r@[2].0@ == path_join(self.root@, FILE@),
            r@[2].1@ == crate::config::BUILTIN@,
    {
        let oncall = self.oncall();
        let mut r: Vec<(String, &'static str)> = Vec::new();
        r.push((join_path(oncall.as_str(), "TEMPLATE.md"), BUILTIN_TEMPLATE));
        r.push((join_path(oncall.as_str(), "README.md"), BUILTIN_README));
        r.push((join_path(self.root.as_str(), FILE), crate::config::BUILTIN));
        r
    }

    /// Путь записи за `date`: `oncall/ГГГГ/ГГГГ-ММ-ДД.md`, где год — первые четыре байта даты.
    pub open spec fn entry_path_of(root: Seq<char>, date: Seq<char>) -> Seq<char> {
        path_join(
            path_join(Self::oncall_of(root), date.subrange(0, year_chars(date))),
            date + ".md"@,
        )
    }

    /// Заводит запись за `date`, если её ещё нет: путь записи, признак «заводится сейчас»
    /// и текст, который надо записать. `present` — есть ли файл записи. Если есть, ничего
    /// не пишется и `sources` не зовётся: повторный вызов возвращает тот же путь и «не заведена».
    /// Если нет, `sources` даёт шаблон и имя дежурного, а текст — шаблон с подставленными
    /// датой и именем; отказ `sources` — отказ.
    pub fn ensure_entry<F: FnOnce() -> Result<(String, String), String>>(
        &self,
        date: &str,
        present: bool,
        sources: F,
    ) -> (r: Result<(String, bool, Option<String>), String>)
        requires
            exists|k: int| 0 <= k <= date@.len() && bytes_upto(date@, k) == 4,
            sources.requires(()),
        ensures
            present ==> (r matches Ok((p, c, b)) && p@ == Self::entry_path_of(self.root@, date@)
                && !c && b is None),
            !present ==> match r {
                Ok((p, c, b)) => {
                    &&& p@ == Self::entry_path_of(self.root@, date@)
                    &&& c
                    &&& exists|t: String, e: String|
                        #![trigger sources.ensures((), Ok::<(String, String), String>((t, e)))]
                        sources.ensures((), Ok::<(String, String), String>((t, e))) && (b matches Some(
                            x,
                        ) && x@ == filled(t@, date@, e@))
                },
                Err(e) => sources.ensures((), Err::<(String, String), String>(e)),
            },
            present ==> outcome_of(r) == Self::entry_outcome(
                self.root@,
                date@,
                true,
                Err(Seq::empty()),
            ),
            !present ==> exists|s: Result<(String, String), String>|
                #[trigger] sources.ensures((), s) && outcome_of(r) == Self::entry_outcome(
                    self.root@,
                    date@,
                    false,
                    supplied_of(s),
                ),
    {
        let path = self.entry_path(date);
        if present {
            return Ok((path, false, None));
        }
        let got = sources();
        let ghost s = got;
        match got {
            Ok((t, e)) => {
                let body = fill_template(t.as_str(), date, e.as_str());
                let r = Ok((path, true, Some(body)));
                assert(sources.ensures((), s));
                assert(outcome_of(r) == Self::entry_outcome(self.root@, date@, false, supplied_of(s)));
                r
            },
            Err(e) => {
                let r = Err(e);
                assert(sources.ensures((), s));
                assert(outcome_of(r) == Self::entry_outcome(self.root@, date@, false, supplied_of(s)));
                r
            },
        }
    }

    /// Что `ensure_entry` отвечает как значения: путь, «заводится ли сейчас», текст для записи;
    /// `present` — есть ли файл записи, `supplied` — что дали шаблон и имя дежурного (нужны,
    /// только если записи нет).
    pub open spec fn entry_outcome(
        root: Seq<char>,
        date: Seq<char>,
        present: bool,
        supplied: Result<(Seq<char>, Seq<char>), Seq<char>>,
    ) -> Result<(Seq<char>, bool, Option<Seq<char>>), Seq<char>> {
        let p = Self::entry_path_of(root, date);
        if present {
            Ok((p, false, None))
        } else {
            match supplied {
                Ok((t, e)) => Ok((p, true, Some(filled(t, date, e)))),
                Err(x) => Err(x),
            }
        }
    }

    /// Путь записи: `oncall/ГГГГ/ГГГГ-ММ-ДД.md`, где год — первые четыре байта даты.
    pub fn entry_path(&self, date: &str) -> (p: String)
        requires
            exists|k: int| 0 <= k <= date@.len() && bytes_upto(date@, k) == 4,
        ensures
            p@ == Self::entry_path_of(self.root@, date@),
    {
        let v = chars_of(date);
        let ghost kk = year_chars(date@);
        let mut k: usize = 0;
        let mut bytes: usize = 0;
        while bytes < 4 && k < v.len()
            invariant
                v@ == date@,
                0 <= kk <= v.len(),
                bytes_upto(date@, kk) == 4,
                k <= v.len(),
                bytes == bytes_upto(date@, k as int),
                bytes <= 4,
                k <= kk,
            decreases v.len() - k,
        {
            let c = v[k];
            let w: usize = if (c as u32) < 0x80 {
                1
            } else if (c as u32) < 0x800 {
                2
            } else if (c as u32) < 0x10000 {
                3
            } else {
                4
            };
            proof {
                lemma_bytes_grow(date@, k as int, kk);
            }
            bytes = bytes + w;
            k += 1;
        }
        proof {
            lemma_bytes_grow(date@, k as int, kk);
        }
        let year = string_of(&slice(&v, 0, k));
        let dir = join_path(self.oncall().as_str(), year.as_str());
        let mut name = copy(&v);
        extend(&mut name, &chars_of(".md"));
        join_path(dir.as_str(), string_of(&name).as_str())
    }
}

// ---------------------------------------------------------------- корень, шаблон, дежурный

/// Значение без пробельных символов по краям, если в нём что-то есть.
pub open spec fn name_in(v: Option<Seq<char>>) -> Option<Seq<char>> {
    match v {
        Some(s) => if trim(s).len() > 0 {
            Some(trim(s))
        } else {
            None
        },
        None => None,
    }
}

/// Необязательная строка как значение.
pub open spec fn opt_seq(v: Option<&str>) -> Option<Seq<char>> {
    match v {
        Some(s) => Some(s@),
        None => None,
    }
}

/// Значение без пробельных символов по краям, если в нём что-то есть.
pub fn named(v: Option<&str>) -> (r: Option<String>)
    ensures
        match name_in(opt_seq(v)) {
            Some(n) => r matches Some(x) && x@ == n,
            None => r is None,
        },
{
    match v {
        Some(s) => {
            let t = trimmed(&chars_of(s));
            if t.len() > 0 {
                Some(string_of(&t))
            } else {
                None
            }
        },
        None => None,
    }
}

impl Notes {
    /// Откуда брать корень: явный путь, иначе непустая `SRELOG_ROOT`.
    /// `None` — ни того ни другого: корень ищется по `oncall/` вверх от текущего каталога.
    pub fn root_choice(explicit: Option<String>, env_root: Option<String>) -> (r: Option<String>)
        ensures
            match explicit {
                Some(p) => r matches Some(x) && x@ == p@,
                None => match env_root {
                    Some(e) => if e@.len() > 0 {
                        r matches Some(x) && x@ == e@
                    } else {
                        r is None
                    },
                    None => r is None,
                },
            },
    {
        match explicit {
            Some(p) => Some(p),
            None => match env_root {
                Some(e) => if e.as_str().unicode_len() > 0 {
                    Some(e)
                } else {
                    None
                },
                None => None,
            },
        }
    }

    /// Отказ, когда ни в `cwd`, ни выше нет `oncall/`.
    pub fn not_found(cwd: &str) -> (e: String)
        ensures
            e@ == "не нашёл корень заметок: каталога oncall/ нет ни в "@ + cwd@
                + ", ни выше.\nУкажи --root <path> или SRELOG_ROOT, либо заведи журнал здесь: srelog init"@,
    {
        line3(
            "не нашёл корень заметок: каталога oncall/ нет ни в ",
            cwd,
            ", ни выше.\nУкажи --root <path> или SRELOG_ROOT, либо заведи журнал здесь: srelog init",
        )
    }

    /// Шаблон новой записи: `oncall/TEMPLATE.md`, а если файла нет — встроенный.
    /// `read` — что вышло при чтении файла; ошибка чтения, кроме отсутствия файла, — отказ.
    pub fn template(&self, read: FileRead) -> (r: Result<String, String>)
        ensures
            match read_view(read) {
                Ok(Some(t)) => r matches Ok(x) && x@ == t,
                Ok(None) => r matches Ok(x) && x@ == BUILTIN_TEMPLATE@,
                Err(e) => r matches Err(x) && x@ == "не читается "@ + path_join(
                    Self::oncall_of(self.root@),
                    "TEMPLATE.md"@,
                ) + ": "@ + e,
            },
    {
        match read {
            Ok(Some(t)) => Ok(t),
            Ok(None) => Ok(string_of(&chars_of(BUILTIN_TEMPLATE))),
            Err(e) => {
                let p = join_path(self.oncall().as_str(), "TEMPLATE.md");
                let mut m = chars_of("не читается ");
                extend(&mut m, &chars_of(p.as_str()));
                extend(&mut m, &chars_of(": "));
                extend(&mut m, &chars_of(e.as_str()));
                Err(string_of(&m))
            },
        }
    }

    /// Имя дежурного: `ONCALL_ENGINEER`, иначе `git config user.name`, иначе `TBD`;
    /// пустые и пробельные значения не в счёт, края обрезаются.
    pub fn engineer(env_value: Option<&str>, git_name: Option<&str>) -> (r: String)
        ensures
            r@ == match name_in(opt_seq(env_value)) {
                Some(n) => n,
                None => match name_in(opt_seq(git_name)) {
                    Some(n) => n,
                    None => "TBD"@,
                },
            },
    {
        match named(env_value) {
            Some(n) => n,
            None => match named(git_name) {
                Some(n) => n,
                None => string_of(&chars_of("TBD")),
            },
        }
    }
}

/// Проверка `f` ответила `b` на путь `p`.
pub open spec fn answered<F: Fn(&str) -> bool>(f: F, p: Seq<char>, b: bool) -> bool {
    exists|s: &str| #[trigger] f.ensures((s,), b) && s@ == p
}

/// Ответ `ensure_entry` как значения.
pub open spec fn outcome_of(r: Result<(String, bool, Option<String>), String>) -> Result<
    (Seq<char>, bool, Option<Seq<char>>),
    Seq<char>,
> {
    match r {
        Ok((p, c, b)) => Ok(
            (
                p@,
                c,
                match b {
                    Some(x) => Some(x@),
                    None => None,
                },
            ),
        ),
        Err(e) => Err(e@),
    }
}

/// Шаблон и имя дежурного как значения.
pub open spec fn supplied_of(s: Result<(String, String), String>) -> Result<
    (Seq<char>, Seq<char>),
    Seq<char>,
> {
    match s {
        Ok((t, e)) => Ok((t@, e@)),
        Err(x) => Err(x@),
    }
}

/// Запись за день заводится один раз: первый вызов без файла даёт путь записи, «заведена»
/// и шаблон с подставленными датой и именем; после того как этот текст записан, второй вызов
/// видит файл и отвечает тем же путём, «не заведена» и без текста — файл не трогается.
pub proof fn law_entry_twice(
    root: Seq<char>,
    date: Seq<char>,
    template: Seq<char>,
    engineer: Seq<char>,
    later: Result<(Seq<char>, Seq<char>), Seq<char>>,
)
    ensures
        ({
            let p = Notes::entry_path_of(root, date);
            &&& Notes::entry_outcome(root, date, false, Ok((template, engineer))) == Ok::<
                (Seq<char>, bool, Option<Seq<char>>),
                Seq<char>,
            >((p, true, Some(filled(template, date, engineer))))
            &&& Notes::entry_outcome(root, date, true, later) == Ok::<
                (Seq<char>, bool, Option<Seq<char>>),
                Seq<char>,
            >((p, false, None))
        }),
{
}

/// Журнал выше `root`: первый из его предков над ним, ближайший первым, в котором
/// `has_oncall` видит каталог `oncall/` (проверку делает вызывающий). Свой же `oncall/`
/// не в счёт. Заводить второй журнал внутри первого — почти всегда опечатка.
pub fn outer_notes<F: Fn(&str) -> bool>(root: &str, has_oncall: F) -> (r: Option<String>)
    requires
        forall|s: &str| has_oncall.requires((s,)),
    ensures
        match r {
            Some(p) => exists|k: int|
                {
                    &&& 1 <= k < ancestors_of(root@).len()
                    &&& p@ == ancestors_of(root@)[k]
                    &&& answered(has_oncall, p@, true)
                    &&& forall|j: int|
                        1 <= j < k ==> #[trigger] answered(has_oncall, ancestors_of(root@)[j], false)
                },
            None => forall|j: int|
                1 <= j < ancestors_of(root@).len() ==> #[trigger] answered(
                    has_oncall,
                    ancestors_of(root@)[j],
                    false,
                ),
        },
{
    let anc = ancestors(root);
    let ghost all = ancestors_of(root@);
    assert(strs(anc@) == all);
    let mut k: usize = 1;
    while k < anc.len()
        invariant
            strs(anc@) == all,
            all == ancestors_of(root@),
            all.len() == anc.len(),
            1 <= k,
            forall|s: &str| has_oncall.requires((s,)),
            forall|j: int| 1 <= j < k ==> #[trigger] answered(has_oncall, all[j], false),
        decreases anc.len() - k,
    {
        let a = anc[k].as_str();
        assert(a@ == all[k as int]);
        if has_oncall(a) {
            let p = anc[k].clone();
            assert(answered(has_oncall, p@, true));
            return Some(p);
        }
        assert(answered(has_oncall, all[k as int], false));
        k += 1;
    }
    None
}

// ---------------------------------------------------------------- SRELOG_ROOT и профиль оболочки

/// Что говорит `SRELOG_ROOT` про только что заведённый журнал.
#[derive(Debug, PartialEq, Eq)]
pub enum RootEnv {
    /// Переменной нет: журнал найдётся только изнутри своего каталога.
    Unset,
    /// Переменная уже указывает сюда.
    Matches,
    /// Переменная уводит команды в другой журнал.
    Other(String),
}

/// Куда указывает `SRELOG_ROOT`: абсолютный путь без `.` и `..`. Пустая переменная — никуда;
/// относительный путь без текущего каталога тоже никуда.
pub open spec fn env_target(env_root: Option<Seq<char>>, cwd: Option<Seq<char>>) -> Option<
    Seq<char>,
> {
    let raw = trim(
        match env_root {
            Some(e) => e,
            None => Seq::empty(),
        },
    );
    if raw.len() == 0 {
        None
    } else if rooted(raw) {
        Some(cleaned(raw))
    } else {
        match cwd {
            Some(c) => Some(absolute_of(raw, c)),
            None => None,
        }
    }
}

/// Что говорит `SRELOG_ROOT` про журнал в `root`. `cwd` — текущий каталог, если он читается;
/// нужен только для относительного значения переменной.
pub fn root_env_state(root: &str, env_root: Option<&str>, cwd: Option<&str>) -> (r: RootEnv)
    ensures
        match env_target(
            match env_root {
                Some(e) => Some(e@),
                None => None,
            },
            match cwd {
                Some(c) => Some(c@),
                None => None,
            },
        ) {
            None => r == RootEnv::Unset,
            Some(p) => if same_path(p, root@) {
                r == RootEnv::Matches
            } else {
                r matches RootEnv::Other(x) && x@ == p
            },
        },
{
    let raw_in = match env_root {
        Some(e) => chars_of(e),
        None => Vec::new(),
    };
    let raw = trimmed(&raw_in);
    if raw.len() == 0 {
        return RootEnv::Unset;
    }
    let raw_s = string_of(&raw);
    let p = if is_absolute(raw_s.as_str()) {
        crate::paths::absolute(raw_s.as_str(), "")
    } else {
        match cwd {
            Some(c) => crate::paths::absolute(raw_s.as_str(), c),
            None => {
                return RootEnv::Unset;
            },
        }
    };
    if crate::paths::same_paths(p.as_str(), root) {
        RootEnv::Matches
    } else {
        RootEnv::Other(p)
    }
}

/// Как закрепить путь к журналу в оболочке.
pub struct Persist {
    /// Файл профиля в виде, пригодном для показа: `~/.zshrc`.
    pub profile: String,
    /// Готовая команда: `echo 'export SRELOG_ROOT="..."' >> ~/.zshrc`.
    pub append: String,
    /// Та же установка для текущей сессии.
    pub session: String,
}

/// Символ, который внутри двойных кавычек оболочки нужно экранировать.
pub open spec fn shell_special(c: char) -> bool {
    c == '"' || c == '\\' || c == '$' || c == '`'
}

/// Строка с `\` перед каждым особым для двойных кавычек символом.
pub open spec fn escaped(s: Seq<char>) -> Seq<char>
    decreases s.len(),
{
    if s.len() == 0 {
        Seq::empty()
    } else {
        escaped(s.drop_last()) + if shell_special(s.last()) {
            seq!['\\', s.last()]
        } else {
            seq![s.last()]
        }
    }
}

/// Строка установки переменной: `export VAR="..."` или, для fish, `set -gx VAR "..."`.
pub open spec fn export_of(root: Seq<char>, fish: bool) -> Seq<char> {
    let quoted = "\""@ + escaped(root) + "\""@;
    if fish {
        "set -gx SRELOG_ROOT "@ + quoted
    } else {
        "export SRELOG_ROOT="@ + quoted
    }
}

/// Имя оболочки: последний кусок `$SHELL` после `/`.
pub open spec fn shell_name(shell: Option<Seq<char>>) -> Seq<char> {
    split_on(
        match shell {
            Some(s) => s,
            None => Seq::empty(),
        },
        '/',
    ).last()
}

/// Профиль под оболочку; `macos` — сборка под macOS, где bash читает `~/.bash_profile`.
pub open spec fn profile_of(name: Seq<char>, macos: bool) -> Seq<char> {
    if name == "zsh"@ {
        "~/.zshrc"@
    } else if name == "bash"@ {
        if macos {
            "~/.bash_profile"@
        } else {
            "~/.bashrc"@
        }
    } else if name == "fish"@ {
        "~/.config/fish/config.fish"@
    } else {
        "~/.profile"@
    }
}

/// Команда, дописывающая строку установки в профиль; одинарные кавычки внутри не рвут `echo`.
pub open spec fn append_of(session: Seq<char>, profile: Seq<char>) -> Seq<char> {
    "echo '"@ + replace(session, "'"@, "'\\''"@) + "' >> "@ + profile
}

/// Как оболочка читает текст между двойными кавычками: `\` перед особым символом даёт сам
/// символ, другой `\` остаётся как есть; особый символ без `\` (кавычка, `$`, обратный апостроф)
/// обрывает строку или запускает подстановку — такое чтение не удаётся, `None`.
pub open spec fn dq_read(s: Seq<char>) -> Option<Seq<char>>
    decreases s.len(),
{
    if s.len() == 0 {
        Some(Seq::empty())
    } else if s[0] == '\\' && s.len() >= 2 && shell_special(s[1]) {
        match dq_read(s.skip(2)) {
            Some(r) => Some(seq![s[1]] + r),
            None => None,
        }
    } else if shell_special(s[0]) && s[0] != '\\' {
        None
    } else {
        match dq_read(s.skip(1)) {
            Some(r) => Some(seq![s[0]] + r),
            None => None,
        }
    }
}

/// Как оболочка читает текст между одинарными кавычками: всё буквально, а `'\''` закрывает
/// кавычки, даёт `'` и открывает их снова. Другая `'` обрывает строку — чтение не удаётся.
pub open spec fn sq_read(s: Seq<char>) -> Option<Seq<char>>
    decreases s.len(),
{
    if s.len() == 0 {
        Some(Seq::empty())
    } else if s[0] == '\'' {
        if s.len() >= 4 && s[1] == '\\' && s[2] == '\'' && s[3] == '\'' {
            match sq_read(s.skip(4)) {
                Some(r) => Some(seq!['\''] + r),
                None => None,
            }
        } else {
            None
        }
    } else {
        match sq_read(s.skip(1)) {
            Some(r) => Some(seq![s[0]] + r),
            None => None,
        }
    }
}

proof fn lemma_escaped_concat(a: Seq<char>, b: Seq<char>)
    ensures
        escaped(a + b) == escaped(a) + escaped(b),
    decreases b.len(),
{
    if b.len() == 0 {
        assert(a + b =~= a);
        assert(escaped(a) + escaped(b) =~= escaped(a));
    } else {
        lemma_escaped_concat(a, b.drop_last());
        assert((a + b).drop_last() =~= a + b.drop_last());
        assert((a + b).last() == b.last());
        assert(escaped(a + b) =~= escaped(a) + escaped(b));
    }
}

proof fn lemma_dq_reads_escaped(s: Seq<char>)
    ensures
        dq_read(escaped(s)) == Some(s),
    decreases s.len(),
{
    if s.len() > 0 {
        let c = s[0];
        let rest = s.skip(1);
        assert(s =~= seq![c] + rest);
        lemma_escaped_concat(seq![c], rest);
        assert(seq![c].drop_last() =~= Seq::<char>::empty());
        assert(escaped(Seq::<char>::empty()) =~= Seq::<char>::empty());
        reveal_with_fuel(escaped, 2);
        let e = escaped(s);
        lemma_dq_reads_escaped(rest);
        if shell_special(c) {
            assert(escaped(seq![c]) =~= seq!['\\', c]);
            assert(e.skip(2) =~= escaped(rest));
            assert(seq![c] + rest =~= s);
        } else {
            assert(escaped(seq![c]) =~= seq![c]);
            assert(e.skip(1) =~= escaped(rest));
            assert(seq![c] + rest =~= s);
        }
    }
}

proof fn lemma_sq_reads_replaced(s: Seq<char>)
    ensures
        sq_read(replace(s, "'"@, "'\\''"@)) == Some(s),
    decreases s.len(),
{
    reveal_strlit("'");
    reveal_strlit("'\\''");
    if s.len() > 0 {
        let rest = s.drop_first();
        lemma_sq_reads_replaced(rest);
        let r = replace(s, "'"@, "'\\''"@);
        if s[0] == '\'' {
            assert(s.subrange(0, 1) =~= "'"@);
            assert(starts_with(s, "'"@));
            assert(s.subrange(1, s.len() as int) =~= rest);
            assert(r.skip(4) =~= replace(rest, "'"@, "'\\''"@));
        } else {
            assert(s.subrange(0, 1)[0] == s[0]);
            assert(!starts_with(s, "'"@));
            assert(r.skip(1) =~= replace(rest, "'"@, "'\\''"@));
        }
        assert(seq![s[0]] + rest =~= s);
    }
}

/// Кавычки в подсказках не портят путь: внутри двойных кавычек экранированный путь
/// читается оболочкой ровно как путь, а строка с `'` → `'\''` между одинарными
/// кавычками `echo` — ровно как исходная строка.
pub proof fn law_quotes_read_back(s: Seq<char>)
    ensures
        dq_read(escaped(s)) == Some(s),
        sq_read(replace(s, "'"@, "'\\''"@)) == Some(s),
{
    lemma_dq_reads_escaped(s);
    lemma_sq_reads_replaced(s);
}

fn export_line(root: &str, fish: bool) -> (r: Vec<char>)
    ensures
        r@ == export_of(root@, fish),
{
    let v = chars_of(root);
    let mut quoted = chars_of("\"");
    let ghost q0 = quoted@;
    for i in 0..v.len()
        invariant
            v@ == root@,
            q0 == "\""@,
            quoted@ == q0 + escaped(v@.subrange(0, i as int)),
    {
        let c = v[i];
        assert(v@.subrange(0, i + 1).drop_last() =~= v@.subrange(0, i as int));
        if c == '"' || c == '\\' || c == '$' || c == '`' {
            quoted.push('\\');
        }
        quoted.push(c);
        assert(quoted@ =~= q0 + escaped(v@.subrange(0, i + 1)));
    }
    assert(v@.subrange(0, v.len() as int) =~= v@);
    extend(&mut quoted, &chars_of("\""));
    let mut r = if fish {
        chars_of("set -gx SRELOG_ROOT ")
    } else {
        chars_of("export SRELOG_ROOT=")
    };
    extend(&mut r, &quoted);
    r
}

/// Профиль и команды под текущую оболочку. `$SHELL` и признак macOS приходят снаружи.
pub fn persist_root(root: &str, shell: Option<&str>, macos: bool) -> (p: Persist)
    ensures
        p.profile@ == profile_of(
            shell_name(
                match shell {
                    Some(s) => Some(s@),
                    None => None,
                },
            ),
            macos,
        ),
        p.session@ == export_of(
            root@,
            shell_name(
                match shell {
                    Some(s) => Some(s@),
                    None => None,
                },
            ) == "fish"@,
        ),
        p.append@ == append_of(p.session@, p.profile@),
{
    let sh = match shell {
        Some(s) => chars_of(s),
        None => Vec::new(),
    };
    let parts = split_by(&sh, '/');
    proof {
        crate::text::lemma_split_nonempty(sh@, '/');
    }
    let name = &parts[parts.len() - 1];
    assert(views(parts@).last() == name@);
    let profile = if same(name, &chars_of("zsh")) {
        chars_of("~/.zshrc")
    } else if same(name, &chars_of("bash")) {
        if macos {
            chars_of("~/.bash_profile")
        } else {
            chars_of("~/.bashrc")
        }
    } else if same(name, &chars_of("fish")) {
        chars_of("~/.config/fish/config.fish")
    } else {
        chars_of("~/.profile")
    };
    let session = export_line(root, same(name, &chars_of("fish")));
    let quote = chars_of("'");
    proof {
        reveal_strlit("'");
    }
    let mut append = chars_of("echo '");
    extend(&mut append, &replace_all(&session, &quote, &chars_of("'\\''")));
    extend(&mut append, &chars_of("' >> "));
    extend(&mut append, &profile);
    Persist { profile: string_of(&profile), append: string_of(&append), session: string_of(&session) }
}

/// Подсказка после `init` про `SRELOG_ROOT`, строка за строкой.
pub open spec fn hint_of(state: RootEnv, persist: Persist) -> Seq<Seq<char>> {
    match state {
        RootEnv::Matches => seq![
            "SRELOG_ROOT уже указывает сюда — журнал доступен из любого каталога"@,
        ],
        RootEnv::Unset => seq![
            ""@,
            "srelog ищет журнал через SRELOG_ROOT; без неё он найдётся только изнутри этого каталога."@,
            "Закрепи путь в профиле оболочки:"@,
            ""@,
            "  "@ + persist.append@,
            ""@,
            "и в текущей сессии:"@,
            ""@,
            "  "@ + persist.session@,
        ],
        RootEnv::Other(target) => seq![
            ""@,
            "srelog: SRELOG_ROOT указывает на "@ + target@
                + " — команды пойдут туда, а не в этот журнал."@,
            "Перенастрой на новый путь:"@,
            ""@,
            "  "@ + persist.append@,
            "  "@ + persist.session@,
            ""@,
            "Старую строку из "@ + persist.profile@
                + " потом убери, иначе она так и будет висеть выше."@,
        ],
    }
}

/// Строка из трёх кусков.
fn line3(a: &str, b: &str, c: &str) -> (r: String)
    ensures
        r@ == a@ + b@ + c@,
{
    let mut v = chars_of(a);
    extend(&mut v, &chars_of(b));
    extend(&mut v, &chars_of(c));
    string_of(&v)
}

/// Что подсказать после `init`: переменная уже указывает сюда, не задана (как её закрепить)
/// или уводит в другой журнал (как перенастроить и что убрать из профиля).
pub fn env_hint(state: &RootEnv, persist: &Persist) -> (r: Vec<String>)
    ensures
        strs(r@) == hint_of(*state, *persist),
{
    let mut r: Vec<String> = Vec::new();
    match state {
        RootEnv::Matches => {
            r.push(line3("SRELOG_ROOT уже указывает сюда — журнал доступен из любого каталога", "", ""));
        },
        RootEnv::Unset => {
            r.push(line3("", "", ""));
            r.push(line3("srelog ищет журнал через SRELOG_ROOT; без неё он найдётся только изнутри этого каталога.", "", ""));
            r.push(line3("Закрепи путь в профиле оболочки:", "", ""));
            r.push(line3("", "", ""));
            r.push(line3("  ", persist.append.as_str(), ""));
            r.push(line3("", "", ""));
            r.push(line3("и в текущей сессии:", "", ""));
            r.push(line3("", "", ""));
            r.push(line3("  ", persist.session.as_str(), ""));
        },
        RootEnv::Other(target) => {
            r.push(line3("", "", ""));
            r.push(line3("srelog: SRELOG_ROOT указывает на ", target.as_str(), " — команды пойдут туда, а не в этот журнал."));
            r.push(line3("Перенастрой на новый путь:", "", ""));
            r.push(line3("", "", ""));
            r.push(line3("  ", persist.append.as_str(), ""));
            r.push(line3("  ", persist.session.as_str(), ""));
            r.push(line3("", "", ""));
            r.push(line3("Старую строку из ", persist.profile.as_str(), " потом убери, иначе она так и будет висеть выше."));
        },
    }
    proof {
        reveal_strlit("");
    }
    assert(strs(r@) =~= hint_of(*state, *persist));
    r
}

/// Текст новой записи из шаблона: `{{DATE}}` и `{{ENGINEER}}` заменены на дату и имя дежурного.
pub open spec fn filled(template: Seq<char>, date: Seq<char>, engineer: Seq<char>) -> Seq<char> {
    replace(replace(template, "{{DATE}}"@, date), "{{ENGINEER}}"@, engineer)
}

/// Текст новой записи: шаблон с подставленными датой и именем дежурного.
pub fn fill_template(template: &str, date: &str, engineer: &str) -> (r: String)
    ensures
        r@ == filled(template@, date@, engineer@),
{
    proof {
        reveal_strlit("{{DATE}}");
        reveal_strlit("{{ENGINEER}}");
    }
    let a = replace_all(&chars_of(template), &chars_of("{{DATE}}"), &chars_of(date));
    string_of(&replace_all(&a, &chars_of("{{ENGINEER}}"), &chars_of(engineer)))
}

// ---------------------------------------------------------------- записи и индексы

/// Шапка INDEX.md.
pub const INDEX_HEAD: &'static str = "# Индекс дежурств\n\nСгенерировано `srelog index`. Правки вносить в сами записи.\n\n| Дата | Дежурный | Контекст | Итог |\n|------|----------|----------|------|\n";

/// Шапка BACKLOG.md с таблицей открытых кандидатов.
pub const BACKLOG_HEAD: &'static str = "# Кандидаты в бэклог из дежурств\n\nСгенерировано `srelog backlog` из секций «Кандидаты в бэклог». Правки вносить в сами записи.\n\n| Направление | Что завести | Основание | Дежурство |\n|-------------|-------------|-----------|-----------|\n";

/// Раздел BACKLOG.md для кандидатов со статусом.
pub const CLOSED_HEAD: &'static str = "\n## Заведено и снято\n\n| Направление | Что завести | Основание | Статус | Дежурство |\n|-------------|-------------|-----------|--------|-----------|\n";

/// Пути записей.
pub open spec fn entry_paths(es: Seq<Entry>) -> Seq<Seq<char>> {
    es.map_values(|e: Entry| e.path@)
}

/// Пути записей относительно `oncall/`.
pub open spec fn entry_rels(es: Seq<Entry>) -> Seq<Seq<char>> {
    es.map_values(|e: Entry| e.rel@)
}

/// Путь относительно `base`, через `/`, как у `strip_prefix`; не под `base` — путь как есть.
pub open spec fn rel_of(path: Seq<char>, base: Seq<char>) -> Seq<char> {
    if rooted(path) == rooted(base) && comps(base).is_prefix_of(comps(path)) {
        join(comps(path).skip(comps(base).len() as int), "/"@)
    } else {
        path
    }
}

/// Значение или запасное.
pub open spec fn or_else(o: Option<Seq<char>>, d: Seq<char>) -> Seq<char> {
    match o {
        Some(v) => v,
        None => d,
    }
}

/// Дата записи: из фронтматтера, иначе путь записи.
pub open spec fn entry_date(rel: Seq<char>, text: Seq<char>) -> Seq<char> {
    or_else(front_value(text, "date"@), rel)
}

/// Строка INDEX.md для записи.
pub open spec fn index_row(rel: Seq<char>, text: Seq<char>) -> Seq<char> {
    let eng = or_else(front_value(text, "engineer"@), "-"@);
    let ctx = or_else(front_value(text, "context"@), "-"@);
    let tldr = or_else(lead_scan(lines(text), "Итог смены"@, 0, false), "-"@);
    "| ["@ + entry_date(rel, text) + "]("@ + rel + ") | "@ + replace(eng, "|"@, "\\|"@) + " | "@
        + replace(ctx, "|"@, "\\|"@) + " | "@ + replace(tldr, "|"@, "\\|"@) + " |\n"@
}

/// Строки INDEX.md для записей `i..`, последние — первыми.
pub open spec fn index_rows(rels: Seq<Seq<char>>, texts: Seq<Seq<char>>, i: int) -> Seq<char>
    decreases rels.len() - i,
{
    if i < 0 || i >= rels.len() {
        Seq::empty()
    } else {
        index_rows(rels, texts, i + 1) + index_row(rels[i], texts[i])
    }
}

/// Строка в исполняемом виде.
fn chars_string(s: &String) -> (v: Vec<char>)
    ensures
        v@ == s@,
{
    chars_of(s.as_str())
}

impl Notes {
    /// Записи по путям, которые нашёл обход `oncall/` (подходят только имена `YYYY-MM-DD.md`):
    /// отсортированы как пути, у каждой — путь относительно `oncall/`.
    pub fn entries(&self, found: &Vec<String>) -> (es: Vec<Entry>)
        ensures
            es.len() == found.len(),
            entry_paths(es@).to_multiset() == strs(found@).to_multiset(),
            paths_sorted(entry_paths(es@)),
            forall|k: int|
                0 <= k < es.len() ==> (#[trigger] es@[k]).rel@ == rel_of(
                    es@[k].path@,
                    Self::oncall_of(self.root@),
                ),
    {
        let mut raw: Vec<Vec<char>> = Vec::new();
        for i in 0..found.len()
            invariant
                views(raw@) == strs(found@).subrange(0, i as int),
        {
            let ghost old = raw@;
            let c = chars_string(&found[i]);
            raw.push(c);
            assert(views(raw@) =~= views(old).push(c@));
            assert(strs(found@).subrange(0, i + 1) =~= strs(found@).subrange(
                0,
                i as int,
            ).push(found@[i as int]@));
        }
        assert(strs(found@).subrange(0, found.len() as int) =~= strs(found@));
        let sorted = sort_paths(&raw);
        let base_s = self.oncall();
        let base = chars_of(base_s.as_str());
        let base_root = base.len() > 0 && base[0] == '/';
        let bc = comps_v(&base);
        let ghost bcv = views(bc@);
        let slash = chars_of("/");
        let mut es: Vec<Entry> = Vec::new();
        for k in 0..sorted.len()
            invariant
                base@ == Self::oncall_of(self.root@),
                base_root == rooted(base@),
                bcv == views(bc@),
                bcv == comps(base@),
                bcv.len() == bc.len(),
                slash@ == "/"@,
                es.len() == k,
                sorted.len() == found.len(),
                entry_paths(es@) == views(sorted@).subrange(0, k as int),
                forall|m: int|
                    0 <= m < k ==> (#[trigger] es@[m]).rel@ == rel_of(
                        es@[m].path@,
                        Self::oncall_of(self.root@),
                    ),
        {
            let p = &sorted[k];
            assert(views(sorted@)[k as int] == p@);
            let p_root = p.len() > 0 && p[0] == '/';
            let pc = comps_v(p);
            let ghost pcv = views(pc@);
            let mut under = p_root == base_root && bc.len() <= pc.len();
            if under {
                let mut m: usize = 0;
                while m < bc.len()
                    invariant
                        bcv == views(bc@),
                        bcv.len() == bc.len(),
                        pcv == views(pc@),
                        pcv.len() == pc.len(),
                        bc.len() <= pc.len(),
                        m <= bc.len(),
                        under ==> forall|t: int| 0 <= t < m ==> bcv[t] == pcv[t],
                        !under ==> !bcv.is_prefix_of(pcv),
                    decreases bc.len() - m,
                {
                    if !same(&bc[m], &pc[m]) {
                        assert(bcv[m as int] != pcv[m as int]);
                        assert(pcv.subrange(0, bcv.len() as int)[m as int] == pcv[m as int]);
                        under = false;
                    }
                    m += 1;
                }
                proof {
                    if under {
                        assert(bcv =~= pcv.subrange(0, bcv.len() as int));
                    }
                }
            }
            let rel = if under {
                let mut rest: Vec<Vec<char>> = Vec::new();
                let mut t = bc.len();
                while t < pc.len()
                    invariant
                        pcv == views(pc@),
                        pcv.len() == pc.len(),
                        bc.len() <= t <= pc.len(),
                        views(rest@) == pcv.subrange(bc.len() as int, t as int),
                    decreases pc.len() - t,
                {
                    let ghost old = rest@;
                    let c = copy(&pc[t]);
                    rest.push(c);
                    assert(views(rest@) =~= views(old).push(c@));
                    assert(pcv.subrange(bc.len() as int, t + 1) =~= pcv.subrange(
                        bc.len() as int,
                        t as int,
                    ).push(pcv[t as int]));
                    t += 1;
                }
                assert(pcv.subrange(bc.len() as int, pc.len() as int) =~= pcv.skip(
                    bcv.len() as int,
                ));
                join_with(&rest, &slash)
            } else {
                copy(p)
            };
            let ghost old = es@;
            let e = Entry { path: string_of(p), rel: string_of(&rel) };
            es.push(e);
            assert(entry_paths(es@) =~= entry_paths(old).push(p@));
            assert(views(sorted@).subrange(0, k + 1) =~= views(sorted@).subrange(0, k as int).push(
                p@,
            ));
        }
        assert(views(sorted@).subrange(0, sorted.len() as int) =~= views(sorted@));
        es
    }

    /// Содержимое INDEX.md: свежие дежурства сверху. `texts[k]` — текст записи `entries[k]`.
    pub fn render_index(&self, entries: &Vec<Entry>, texts: &Vec<String>) -> (r: String)
        requires
            entries.len() == texts.len(),
        ensures
            r@ == INDEX_HEAD@ + index_rows(entry_rels(entries@), strs(texts@), 0),
    {
        let ghost rels = entry_rels(entries@);
        let ghost tv = strs(texts@);
        let mut out = chars_of(INDEX_HEAD);
        let mut j = entries.len();
        while j > 0
            invariant
                j <= entries.len(),
                entries.len() == texts.len(),
                rels == entry_rels(entries@),
                tv == strs(texts@),
                out@ == INDEX_HEAD@ + index_rows(rels, tv, j as int),
            decreases j,
        {
            let e = &entries[j - 1];
            let text = texts[j - 1].as_str();
            assert(rels[j - 1] == e.rel@);
            assert(tv[j - 1] == text@);
            let rel = chars_string(&e.rel);
            let date = match front(text, "date") {
                Some(d) => chars_string(&d),
                None => copy(&rel),
            };
            let eng = match front(text, "engineer") {
                Some(d) => d,
                None => string_of(&chars_of("-")),
            };
            let ctx = match front(text, "context") {
                Some(d) => d,
                None => string_of(&chars_of("-")),
            };
            let tldr = match section_lead(text, "Итог смены") {
                Some(d) => d,
                None => string_of(&chars_of("-")),
            };
            let ghost before = out@;
            let mut row = chars_of("| [");
            extend(&mut row, &date);
            extend(&mut row, &chars_of("]("));
            extend(&mut row, &rel);
            extend(&mut row, &chars_of(") | "));
            extend(&mut row, &chars_string(&cell(eng.as_str())));
            extend(&mut row, &chars_of(" | "));
            extend(&mut row, &chars_string(&cell(ctx.as_str())));
            extend(&mut row, &chars_of(" | "));
            extend(&mut row, &chars_string(&cell(tldr.as_str())));
            extend(&mut row, &chars_of(" |\n"));
            assert(row@ == index_row(rels[j - 1], tv[j - 1]));
            extend(&mut out, &row);
            assert(out@ =~= INDEX_HEAD@ + index_rows(rels, tv, j - 1));
            j -= 1;
        }
        string_of(&out)
    }
}

// ---------------------------------------------------------------- BACKLOG.md

/// Что вышло при чтении файла: текст, «файла нет» или текст ошибки чтения.
pub type FileRead = Result<Option<String>, String>;

/// То же в виде значений.
pub open spec fn read_view(r: FileRead) -> Result<Option<Seq<char>>, Seq<char>> {
    match r {
        Ok(Some(t)) => Ok(Some(t@)),
        Ok(None) => Ok(None),
        Err(e) => Err(e@),
    }
}

/// Настройки и причина, по которой их пришлось оставить пустыми.
pub open spec fn config_of(root: Seq<char>, read: Result<Option<Seq<char>>, Seq<char>>) -> (
    Seq<Seq<char>>,
    Option<Seq<char>>,
) {
    let p = path_join(root, FILE@);
    match read {
        Ok(None) => (Seq::empty(), None),
        Ok(Some(text)) => match parsed(text) {
            Ok(d) => (d, None),
            Err((line, e)) => (
                Seq::empty(),
                Some(p + ":"@ + decimal(line) + ": "@ + e + "; направления не проверяю"@),
            ),
        },
        Err(e) => (Seq::empty(), Some("не читается "@ + p + ": "@ + e + "; направления не проверяю"@)),
    }
}

/// `srelog.toml` без списка направлений — то же, что нет файла: направления не проверяются
/// и предупреждения нет, так что BACKLOG.md собирается одинаково.
pub proof fn law_no_list_is_no_file(root: Seq<char>, text: Seq<char>)
    requires
        parsed(text) == Ok::<Seq<Seq<char>>, (nat, Seq<char>)>(Seq::empty()),
    ensures
        config_of(root, Ok(Some(text))) == config_of(root, Ok(None)),
{
}

/// Строка BACKLOG.md для строки таблицы записи.
pub open spec fn row_line(row: (nat, Seq<char>, Seq<char>, Seq<char>), date: Seq<char>, rel: Seq<char>) -> Seq<
    char,
> {
    row.1 + " | ["@ + date + "]("@ + rel + ") |"@
}

/// Ключ сортировки строки.
pub open spec fn row_key(
    dirs: Seq<Seq<char>>,
    row: (nat, Seq<char>, Seq<char>, Seq<char>),
    date: Seq<char>,
    rel: Seq<char>,
) -> RowKey {
    (rank_of(dirs, row.2), row_line(row, date, rel))
}

/// Ключи первых `n` строк таблицы записи: открытых (без статуса) или со статусом.
pub open spec fn entry_keys(
    dirs: Seq<Seq<char>>,
    rel: Seq<char>,
    text: Seq<char>,
    open: bool,
    n: int,
) -> Seq<RowKey>
    decreases n,
{
    if n <= 0 {
        Seq::empty()
    } else {
        let prev = entry_keys(dirs, rel, text, open, n - 1);
        let row = backlog_of(text)[n - 1];
        if (row.3.len() == 0) == open {
            prev.push(row_key(dirs, row, entry_date(rel, text), rel))
        } else {
            prev
        }
    }
}

/// Ключи строк первых `m` записей.
pub open spec fn all_keys(
    dirs: Seq<Seq<char>>,
    rels: Seq<Seq<char>>,
    texts: Seq<Seq<char>>,
    open: bool,
    m: int,
) -> Seq<RowKey>
    decreases m,
{
    if m <= 0 {
        Seq::empty()
    } else {
        all_keys(dirs, rels, texts, open, m - 1) + entry_keys(
            dirs,
            rels[m - 1],
            texts[m - 1],
            open,
            backlog_of(texts[m - 1]).len() as int,
        )
    }
}

/// Предупреждение о направлении строки таблицы.
pub open spec fn warning_of(path: Seq<char>, row: (nat, Seq<char>, Seq<char>, Seq<char>)) -> Seq<char> {
    path + ":"@ + decimal(row.0) + ": "@ + if row.2.len() == 0 {
        "направление не заполнено"@
    } else {
        "направления `"@ + row.2 + "` нет в "@ + FILE@
    }
}

/// Предупреждения по первым `n` строкам таблицы записи.
pub open spec fn entry_warnings(dirs: Seq<Seq<char>>, path: Seq<char>, text: Seq<char>, n: int) -> Seq<
    Seq<char>,
>
    decreases n,
{
    if n <= 0 {
        Seq::empty()
    } else {
        let prev = entry_warnings(dirs, path, text, n - 1);
        let row = backlog_of(text)[n - 1];
        if unknown_in(dirs, row.2) {
            prev.push(warning_of(path, row))
        } else {
            prev
        }
    }
}

/// Предупреждения по первым `m` записям.
pub open spec fn all_warnings(
    dirs: Seq<Seq<char>>,
    paths: Seq<Seq<char>>,
    texts: Seq<Seq<char>>,
    m: int,
) -> Seq<Seq<char>>
    decreases m,
{
    if m <= 0 {
        Seq::empty()
    } else {
        all_warnings(dirs, paths, texts, m - 1) + entry_warnings(
            dirs,
            paths[m - 1],
            texts[m - 1],
            backlog_of(texts[m - 1]).len() as int,
        )
    }
}

/// Строки таблицы, каждая с переводом строки.
pub open spec fn key_lines(s: Seq<RowKey>) -> Seq<char>
    decreases s.len(),
{
    if s.len() == 0 {
        Seq::empty()
    } else {
        key_lines(s.drop_last()) + s.last().1 + "\n"@
    }
}

/// Текст BACKLOG.md по упорядоченным открытым и закрытым строкам.
pub open spec fn backlog_text(open: Seq<RowKey>, closed: Seq<RowKey>) -> Seq<char> {
    BACKLOG_HEAD@ + key_lines(open) + if closed.len() > 0 {
        CLOSED_HEAD@ + key_lines(closed)
    } else {
        Seq::empty()
    }
}

fn key_lines_v(s: &Vec<(usize, Vec<char>)>) -> (r: Vec<char>)
    ensures
        r@ == key_lines(key_views(s@)),
{
    let mut r: Vec<char> = Vec::new();
    for i in 0..s.len()
        invariant
            r@ == key_lines(key_views(s@).subrange(0, i as int)),
    {
        let ghost pre = key_views(s@).subrange(0, i + 1);
        assert(pre.drop_last() =~= key_views(s@).subrange(0, i as int));
        extend(&mut r, &s[i].1);
        extend(&mut r, &chars_of("\n"));
    }
    assert(key_views(s@).subrange(0, s.len() as int) =~= key_views(s@));
    r
}

impl Notes {
    /// Настройки из `srelog.toml` в корне. Нет файла — нет и списка направлений.
    /// Нечитаемый или сломанный файл журнал не останавливает: настройки пустые, причина вторым значением.
    pub fn config(&self, read: FileRead) -> (r: (Config, Option<String>))
        ensures
            r.0@ == config_of(self.root@, read_view(read)).0,
            match config_of(self.root@, read_view(read)).1 {
                None => r.1 is None,
                Some(p) => r.1 matches Some(x) && x@ == p,
            },
    {
        let p = chars_string(&join_path(self.root.as_str(), FILE));
        let mut problem = match read {
            Ok(None) => {
                let c = Config { directions: Vec::new() };
                assert(c@ =~= Seq::<Seq<char>>::empty());
                return (c, None);
            },
            Ok(Some(text)) => match parse(text.as_str()) {
                Ok(cfg) => {
                    return (cfg, None);
                },
                Err((line, e)) => {
                    let mut m = copy(&p);
                    extend(&mut m, &chars_of(":"));
                    extend(&mut m, &decimal_of(line));
                    extend(&mut m, &chars_of(": "));
                    extend(&mut m, &chars_string(&e));
                    m
                },
            },
            Err(e) => {
                let mut m = chars_of("не читается ");
                extend(&mut m, &p);
                extend(&mut m, &chars_of(": "));
                extend(&mut m, &chars_string(&e));
                m
            },
        };
        extend(&mut problem, &chars_of("; направления не проверяю"));
        let c = Config { directions: Vec::new() };
        assert(c@ =~= Seq::<Seq<char>>::empty());
        (c, Some(string_of(&problem)))
    }

    /// Содержимое BACKLOG.md: открытые кандидаты из всех записей, под ними заведённые и снятые.
    /// В обеих таблицах направления идут в порядке srelog.toml, незнакомые — в конце и с предупреждением.
    /// `config` — что прочитано из `srelog.toml`, `texts[k]` — текст записи `entries[k]`.
    pub fn render_backlog(&self, config: FileRead, entries: &Vec<Entry>, texts: &Vec<String>) -> (b: Backlog)
        requires
            entries.len() == texts.len(),
        ensures
            ({
                let (dirs, problem) = config_of(self.root@, read_view(config));
                let tv = strs(texts@);
                let ok = all_keys(dirs, entry_rels(entries@), tv, true, entries.len() as int);
                let ck = all_keys(dirs, entry_rels(entries@), tv, false, entries.len() as int);
                &&& b.open == ok.len()
                &&& b.closed == ck.len()
                &&& strs(b.warnings@) == match problem {
                    Some(p) => seq![p],
                    None => Seq::empty(),
                } + all_warnings(dirs, entry_paths(entries@), tv, entries.len() as int)
                &&& exists|o: Seq<RowKey>, c: Seq<RowKey>|
                    {
                        &&& keys_sorted(o)
                        &&& o.to_multiset() == ok.to_multiset()
                        &&& keys_sorted(c)
                        &&& c.to_multiset() == ck.to_multiset()
                        &&& b.text@ == backlog_text(o, c)
                    }
            }),
    {
        let ghost rd = read_view(config);
        let (cfg, problem) = self.config(config);
        let ghost dirs = cfg@;
        let ghost rels = entry_rels(entries@);
        let ghost paths = entry_paths(entries@);
        let ghost tv = strs(texts@);
        let mut warnings: Vec<String> = Vec::new();
        let ghost pw: Seq<Seq<char>> = if problem is Some {
            seq![problem->0@]
        } else {
            Seq::empty()
        };
        match problem {
            Some(p) => {
                warnings.push(p);
            },
            None => {},
        }
        assert(strs(warnings@) =~= pw);
        let mut open: Vec<(usize, Vec<char>)> = Vec::new();
        let mut closed: Vec<(usize, Vec<char>)> = Vec::new();
        for k in 0..entries.len()
            invariant
                entries.len() == texts.len(),
                dirs == cfg@,
                rels == entry_rels(entries@),
                paths == entry_paths(entries@),
                tv == strs(texts@),
                key_views(open@) == all_keys(dirs, rels, tv, true, k as int),
                key_views(closed@) == all_keys(dirs, rels, tv, false, k as int),
                strs(warnings@) == pw + all_warnings(dirs, paths, tv, k as int),
        {
            let e = &entries[k];
            let text = texts[k].as_str();
            assert(rels[k as int] == e.rel@);
            assert(paths[k as int] == e.path@);
            assert(tv[k as int] == text@);
            let rel = chars_string(&e.rel);
            let path = chars_string(&e.path);
            let date = match front(text, "date") {
                Some(d) => chars_string(&d),
                None => copy(&rel),
            };
            assert(date@ == entry_date(rels[k as int], tv[k as int]));
            let rows = backlog_rows(text);
            let ghost bl = backlog_of(text@);
            assert(rows@.map_values(|r: BacklogRow| r@).len() == rows.len());
            let ghost open0 = key_views(open@);
            let ghost closed0 = key_views(closed@);
            let ghost warn0 = strs(warnings@);
            for i in 0..rows.len()
                invariant
                    rows@.map_values(|r: BacklogRow| r@) == bl,
                    bl.len() == rows.len(),
                    dirs == cfg@,
                    rel@ == rels[k as int],
                    path@ == paths[k as int],
                    date@ == entry_date(rels[k as int], tv[k as int]),
                    tv[k as int] == text@,
                    bl == backlog_of(text@),
                    key_views(open@) == open0 + entry_keys(dirs, rel@, text@, true, i as int),
                    key_views(closed@) == closed0 + entry_keys(dirs, rel@, text@, false, i as int),
                    strs(warnings@) == warn0 + entry_warnings(
                        dirs,
                        path@,
                        text@,
                        i as int,
                    ),
            {
                let row = &rows[i];
                assert(bl[i as int] == row@);
                let dir = row.direction.as_str();
                let ghost wold = warnings@;
                if cfg.unknown(dir) {
                    let mut w = copy(&path);
                    extend(&mut w, &chars_of(":"));
                    extend(&mut w, &decimal_of(row.line));
                    extend(&mut w, &chars_of(": "));
                    let dv = chars_string(&row.direction);
                    if dv.len() == 0 {
                        extend(&mut w, &chars_of("направление не заполнено"));
                    } else {
                        extend(&mut w, &chars_of("направления `"));
                        extend(&mut w, &dv);
                        extend(&mut w, &chars_of("` нет в "));
                        extend(&mut w, &chars_of(FILE));
                    }
                    assert(w@ == warning_of(path@, row@));
                    let ws = string_of(&w);
                    warnings.push(ws);
                    assert(strs(warnings@) =~= strs(wold).push(ws@));
                }
                let mut line = chars_string(&row.text);
                extend(&mut line, &chars_of(" | ["));
                extend(&mut line, &date);
                extend(&mut line, &chars_of("]("));
                extend(&mut line, &rel);
                extend(&mut line, &chars_of(") |"));
                let rank = cfg.rank(dir);
                let key = (rank, line);
                assert(key_view(key) == row_key(dirs, row@, date@, rel@));
                let ghost oold = open@;
                let ghost cold = closed@;
                if chars_string(&row.status).len() == 0 {
                    open.push(key);
                    assert(key_views(open@) =~= key_views(oold).push(key_view(key)));
                } else {
                    closed.push(key);
                    assert(key_views(closed@) =~= key_views(cold).push(key_view(key)));
                }
            }
            assert(key_views(open@) =~= all_keys(dirs, rels, tv, true, k + 1));
            assert(key_views(closed@) =~= all_keys(dirs, rels, tv, false, k + 1));
            assert(strs(warnings@) =~= pw + all_warnings(dirs, paths, tv, k + 1));
        }
        let n_open = open.len();
        let n_closed = closed.len();
        let so = sort_rows(open);
        let sc = sort_rows(closed);
        proof {
            broadcast use vstd::seq_lib::group_to_multiset_ensures;

            assert(key_views(so@).to_multiset().len() == key_views(so@).len());
        }
        let mut text = chars_of(BACKLOG_HEAD);
        extend(&mut text, &key_lines_v(&so));
        if sc.len() > 0 {
            extend(&mut text, &chars_of(CLOSED_HEAD));
            extend(&mut text, &key_lines_v(&sc));
        }
        assert(text@ =~= backlog_text(key_views(so@), key_views(sc@)));
        Backlog { text: string_of(&text), open: n_open, closed: n_closed, warnings }
    }
}

/// Строк таблиц в первых `m` записях.
pub open spec fn rows_total(texts: Seq<Seq<char>>, m: int) -> nat
    decreases m,
{
    if m <= 0 {
        0
    } else {
        rows_total(texts, m - 1) + backlog_of(texts[m - 1]).len()
    }
}

proof fn lemma_entry_keys_split(dirs: Seq<Seq<char>>, rel: Seq<char>, text: Seq<char>, n: int)
    requires
        0 <= n <= backlog_of(text).len(),
    ensures
        entry_keys(dirs, rel, text, true, n).len() + entry_keys(dirs, rel, text, false, n).len()
            == n,
    decreases n,
{
    if n > 0 {
        lemma_entry_keys_split(dirs, rel, text, n - 1);
    }
}

/// Каждая строка таблиц попадает в BACKLOG.md ровно один раз: в открытые, если статуса нет,
/// иначе в «Заведено и снято».
pub proof fn law_backlog_counts_every_row(
    dirs: Seq<Seq<char>>,
    rels: Seq<Seq<char>>,
    texts: Seq<Seq<char>>,
    m: int,
)
    requires
        0 <= m <= rels.len(),
        m <= texts.len(),
    ensures
        all_keys(dirs, rels, texts, true, m).len() + all_keys(dirs, rels, texts, false, m).len()
            == rows_total(texts, m),
    decreases m,
{
    if m > 0 {
        law_backlog_counts_every_row(dirs, rels, texts, m - 1);
        lemma_entry_keys_split(
            dirs,
            rels[m - 1],
            texts[m - 1],
            backlog_of(texts[m - 1]).len() as int,
        );
    }
}

proof fn lemma_entry_keys_ranked(dirs: Seq<Seq<char>>, rel: Seq<char>, text: Seq<char>, open: bool, n: int)
    requires
        0 <= n <= backlog_of(text).len(),
    ensures
        forall|k: int|
            0 <= k < entry_keys(dirs, rel, text, open, n).len() ==> (#[trigger] entry_keys(
                dirs,
                rel,
                text,
                open,
                n,
            )[k]).0 <= dirs.len(),
    decreases n,
{
    if n > 0 {
        lemma_entry_keys_ranked(dirs, rel, text, open, n - 1);
        crate::config::law_rank_unknown(dirs, backlog_of(text)[n - 1].2);
        let prev = entry_keys(dirs, rel, text, open, n - 1);
        let cur = entry_keys(dirs, rel, text, open, n);
        assert forall|k: int| 0 <= k < cur.len() implies (#[trigger] cur[k]).0 <= dirs.len() by {
            if k < prev.len() {
                assert(cur[k] == prev[k]);
            }
        }
    }
}

proof fn lemma_all_keys_ranked(dirs: Seq<Seq<char>>, rels: Seq<Seq<char>>, texts: Seq<Seq<char>>, open: bool, m: int)
    requires
        0 <= m <= rels.len(),
        m <= texts.len(),
    ensures
        forall|k: int|
            0 <= k < all_keys(dirs, rels, texts, open, m).len() ==> (#[trigger] all_keys(
                dirs,
                rels,
                texts,
                open,
                m,
            )[k]).0 <= dirs.len(),
    decreases m,
{
    if m > 0 {
        lemma_all_keys_ranked(dirs, rels, texts, open, m - 1);
        let n = backlog_of(texts[m - 1]).len() as int;
        lemma_entry_keys_ranked(dirs, rels[m - 1], texts[m - 1], open, n);
        let prev = all_keys(dirs, rels, texts, open, m - 1);
        let tail = entry_keys(dirs, rels[m - 1], texts[m - 1], open, n);
        let cur = all_keys(dirs, rels, texts, open, m);
        assert(cur == prev + tail);
        assert forall|k: int| 0 <= k < cur.len() implies (#[trigger] cur[k]).0 <= dirs.len() by {
            if k < prev.len() {
                assert(cur[k] == prev[k]);
            } else {
                assert(cur[k] == tail[k - prev.len()]);
            }
        }
    }
}

/// В таблицах BACKLOG.md строки идут по месту направления в списке `srelog.toml`,
/// а строки с незнакомым направлением (место — за концом списка) стоят после всех знакомых.
/// Без списка обе таблицы упорядочены просто по строке целиком.
pub proof fn law_backlog_order(
    dirs: Seq<Seq<char>>,
    rels: Seq<Seq<char>>,
    texts: Seq<Seq<char>>,
    open: bool,
    o: Seq<RowKey>,
)
    requires
        rels.len() <= texts.len(),
        keys_sorted(o),
        o.to_multiset() == all_keys(dirs, rels, texts, open, rels.len() as int).to_multiset(),
    ensures
        forall|i: int| 0 <= i < o.len() ==> (#[trigger] o[i]).0 <= dirs.len(),
        forall|i: int, j: int| 0 <= i < j < o.len() ==> (#[trigger] o[i]).0 <= (#[trigger] o[j]).0,
        forall|i: int, j: int|
            0 <= i < j < o.len() && (#[trigger] o[i]).0 == dirs.len() ==> (#[trigger] o[j]).0
                == dirs.len(),
        dirs.len() == 0 ==> forall|i: int, j: int|
            0 <= i < j < o.len() ==> !seq_lt((#[trigger] o[j]).1, (#[trigger] o[i]).1),
{
    broadcast use vstd::seq_lib::group_to_multiset_ensures;

    let all = all_keys(dirs, rels, texts, open, rels.len() as int);
    lemma_all_keys_ranked(dirs, rels, texts, open, rels.len() as int);
    assert forall|i: int| 0 <= i < o.len() implies (#[trigger] o[i]).0 <= dirs.len() by {
        assert(o.contains(o[i]));
        assert(o.to_multiset().count(o[i]) > 0);
        assert(all.contains(o[i]));
        let k = choose|k: int| 0 <= k < all.len() && all[k] == o[i];
        assert(all[k].0 <= dirs.len());
    }
    assert forall|i: int, j: int| 0 <= i < j < o.len() implies (#[trigger] o[i]).0 <= (
    #[trigger] o[j]).0 by {
        assert(!key_lt(o[j], o[i]));
    }
    if dirs.len() == 0 {
        assert forall|i: int, j: int| 0 <= i < j < o.len() implies !seq_lt(
            (#[trigger] o[j]).1,
            (#[trigger] o[i]).1,
        ) by {
            assert(o[i].0 <= dirs.len() && o[j].0 <= dirs.len());
            assert(!key_lt(o[j], o[i]));
        }
    }
}

proof fn lemma_no_list_no_warnings(paths: Seq<Seq<char>>, texts: Seq<Seq<char>>, m: int)
    requires
        0 <= m <= paths.len(),
        m <= texts.len(),
    ensures
        all_warnings(Seq::empty(), paths, texts, m) == Seq::<Seq<char>>::empty(),
    decreases m,
{
    if m > 0 {
        lemma_no_list_no_warnings(paths, texts, m - 1);
        lemma_entry_no_warnings(paths[m - 1], texts[m - 1], backlog_of(texts[m - 1]).len() as int);
        assert(Seq::<Seq<char>>::empty() + Seq::<Seq<char>>::empty() =~= Seq::<Seq<char>>::empty());
    }
}

proof fn lemma_entry_no_warnings(path: Seq<char>, text: Seq<char>, n: int)
    requires
        0 <= n <= backlog_of(text).len(),
    ensures
        entry_warnings(Seq::empty(), path, text, n) == Seq::<Seq<char>>::empty(),
    decreases n,
{
    if n > 0 {
        lemma_entry_no_warnings(path, text, n - 1);
        assert(!unknown_in(Seq::empty(), backlog_of(text)[n - 1].2));
    }
}

/// Журнал без списка направлений (нет `srelog.toml` или в нём нет ключа `directions`):
/// сборка BACKLOG.md идёт одинаково в обоих случаях и без предупреждений, обе таблицы
/// упорядочены по строке целиком, каждая строка таблиц записей попадает ровно в одну
/// из них, а раздел «Заведено и снято» появляется ровно тогда, когда в нём есть строки.
/// `o` и `c` — упорядоченные строки открытой и закрытой таблиц, как их даёт `render_backlog`.
pub proof fn law_backlog_without_list(
    root: Seq<char>,
    read: Result<Option<Seq<char>>, Seq<char>>,
    rels: Seq<Seq<char>>,
    paths: Seq<Seq<char>>,
    texts: Seq<Seq<char>>,
    o: Seq<RowKey>,
    c: Seq<RowKey>,
)
    requires
        read == Ok::<Option<Seq<char>>, Seq<char>>(None) || (read matches Ok(Some(t)) && parsed(t)
            == Ok::<Seq<Seq<char>>, (nat, Seq<char>)>(Seq::empty())),
        rels.len() == texts.len(),
        paths.len() == texts.len(),
        keys_sorted(o),
        keys_sorted(c),
        o.to_multiset() == all_keys(
            config_of(root, read).0,
            rels,
            texts,
            true,
            rels.len() as int,
        ).to_multiset(),
        c.to_multiset() == all_keys(
            config_of(root, read).0,
            rels,
            texts,
            false,
            rels.len() as int,
        ).to_multiset(),
    ensures
        config_of(root, read) == config_of(root, Ok(None)),
        config_of(root, read) == (Seq::<Seq<char>>::empty(), None::<Seq<char>>),
        all_warnings(config_of(root, read).0, paths, texts, texts.len() as int)
            == Seq::<Seq<char>>::empty(),
        forall|i: int, j: int| 0 <= i < j < o.len() ==> !seq_lt((#[trigger] o[j]).1, (#[trigger] o[i]).1),
        forall|i: int, j: int| 0 <= i < j < c.len() ==> !seq_lt((#[trigger] c[j]).1, (#[trigger] c[i]).1),
        o.len() + c.len() == rows_total(texts, texts.len() as int),
        c.len() == 0 ==> backlog_text(o, c) == BACKLOG_HEAD@ + key_lines(o),
        c.len() > 0 ==> backlog_text(o, c) == BACKLOG_HEAD@ + key_lines(o) + CLOSED_HEAD@ + key_lines(c),
        c.len() > 0 ==> crate::text::contains(backlog_text(o, c), CLOSED_HEAD@),
{
    broadcast use vstd::seq_lib::group_to_multiset_ensures;

    let dirs = config_of(root, read).0;
    let n = rels.len() as int;
    assert(dirs == Seq::<Seq<char>>::empty());
    lemma_no_list_no_warnings(paths, texts, n);
    law_backlog_order(dirs, rels, texts, true, o);
    law_backlog_order(dirs, rels, texts, false, c);
    law_backlog_counts_every_row(dirs, rels, texts, n);
    assert(o.len() == o.to_multiset().len());
    assert(c.len() == c.to_multiset().len());
    assert(all_keys(dirs, rels, texts, true, n).len() == all_keys(dirs, rels, texts, true, n).to_multiset().len());
    assert(all_keys(dirs, rels, texts, false, n).len() == all_keys(dirs, rels, texts, false, n).to_multiset().len());
    if c.len() == 0 {
        assert(BACKLOG_HEAD@ + key_lines(o) + Seq::<char>::empty() =~= BACKLOG_HEAD@ + key_lines(o));
    } else {
        let pre = BACKLOG_HEAD@ + key_lines(o);
        let t = backlog_text(o, c);
        assert(t =~= pre + CLOSED_HEAD@ + key_lines(c));
        assert(t.subrange(pre.len() as int, (pre.len() + CLOSED_HEAD@.len()) as int) =~= CLOSED_HEAD@);
        assert(crate::text::occurs_at(t, CLOSED_HEAD@, pre.len() as int));
    }
}

/// Имя `d.md` — имя записи ровно тогда, когда `d` — дата `YYYY-MM-DD`.
pub proof fn law_entry_name_is_date(d: Seq<char>)
    ensures
        entry_name_ok(d + ".md"@) == date_ok(d),
{
    reveal_strlit(".md");
    let n = d + ".md"@;
    if d.len() == 10 {
        assert(n.subrange(0, 10) =~= d);
        assert(n.subrange(10, 13) =~= ".md"@);
    }
}

proof fn lemma_ascii_prefix(d: Seq<char>, k: int)
    requires
        0 <= k <= d.len(),
        forall|i: int| 0 <= i < k ==> (#[trigger] d[i] as u32) < 0x80,
    ensures
        bytes_upto(d, k) == k,
    decreases k,
{
    if k > 0 {
        lemma_ascii_prefix(d, k - 1);
        assert((d[k - 1] as u32) < 0x80);
    }
}

/// Запись за правильную дату лежит в каталоге своего года, `oncall/ГГГГ/ГГГГ-ММ-ДД.md`:
/// первые четыре байта даты — её первые четыре символа, так что путь записи определён.
pub proof fn law_entry_path_by_year(d: Seq<char>)
    requires
        date_ok(d),
    ensures
        exists|k: int| 0 <= k <= d.len() && bytes_upto(d, k) == 4,
        year_chars(d) == 4,
{
    assert forall|i: int| 0 <= i < 4 implies (#[trigger] d[i] as u32) < 0x80 by {
        assert(is_digit(d[i]));
    }
    lemma_ascii_prefix(d, 4);
    assert(0 <= 4 <= d.len() && bytes_upto(d, 4) == 4);
    let k = year_chars(d);
    assert(0 <= k <= d.len() && bytes_upto(d, k) == 4);
    if k <= 4 {
        lemma_bytes_grow(d, k, 4);
    } else {
        lemma_bytes_grow(d, 4, k);
    }
}

/// Сегодняшняя дата в годах 0..=9999 — правильная дата: её примет и проверка `--date`.
pub proof fn law_today_shape_is_date(s: Seq<char>)
    requires
        date_shaped(s),
        s.len() == 10,
    ensures
        date_ok(s),
{
    let y = s.subrange(0, 4);
    assert(y.len() == 4);
    assert forall|i: int| 0 <= i < 10 && i != 4 && i != 7 implies is_digit(#[trigger] s[i]) by {
        if i < 4 {
            assert(y[i] == s[i]);
            assert(is_digit(y[i]));
        }
    }
}

proof fn lemma_bytes_grow(s: Seq<char>, k: int, kk: int)
    requires
        0 <= k <= kk <= s.len(),
        bytes_upto(s, kk) == 4,
    ensures
        k < kk ==> bytes_upto(s, k + 1) <= 4,
        bytes_upto(s, k) == 4 ==> k == kk,
    decreases kk - k,
{
    if k < kk {
        lemma_bytes_grow(s, k + 1, kk);
    }
}

} // verus!
