//! Разбор командной строки `srelog` и решения команды `add`, которые не требуют диска.
use vstd::prelude::*;

use crate::md::{headings_error, headings_named, normalize, normalized, Headings};
use crate::notes::{check_date, date_error, date_ok, date_shaped, today};
use crate::text::{
    chars_of, copy, extend, join, join_with, same, split_by, split_on, starts_with, string_of, strs,
    views,
};

verus! {

/// Разобранная командная строка.
pub struct Cli {
    pub cmd: Option<String>,
    pub args: Vec<String>,
    pub root: Option<String>,
    pub files: Vec<String>,
    pub date_opt: Option<String>,
    pub title: Option<String>,
    pub headings: Headings,
    pub no_sync: bool,
}

/// Разобранная командная строка как значения.
pub struct CliModel {
    pub cmd: Option<Seq<char>>,
    pub args: Seq<Seq<char>>,
    pub root: Option<Seq<char>>,
    pub files: Seq<Seq<char>>,
    pub date_opt: Option<Seq<char>>,
    pub title: Option<Seq<char>>,
    pub headings: Headings,
    pub no_sync: bool,
}

/// Содержимое необязательной строки.
pub open spec fn opt_view(o: Option<String>) -> Option<Seq<char>> {
    match o {
        Some(s) => Some(s@),
        None => None,
    }
}

impl View for Cli {
    type V = CliModel;

    open spec fn view(&self) -> CliModel {
        CliModel {
            cmd: opt_view(self.cmd),
            args: strs(self.args@),
            root: opt_view(self.root),
            files: strs(self.files@),
            date_opt: opt_view(self.date_opt),
            title: opt_view(self.title),
            headings: self.headings,
            no_sync: self.no_sync,
        }
    }
}

/// Пустая командная строка.
pub open spec fn empty_model() -> CliModel {
    CliModel {
        cmd: None,
        args: Seq::empty(),
        root: None,
        files: Seq::empty(),
        date_opt: None,
        title: None,
        headings: Headings::Shift,
        no_sync: false,
    }
}

/// Имя опции в аргументе: всё до первого `=`.
pub open spec fn opt_key(a: Seq<char>) -> Seq<char> {
    split_on(a, '=')[0]
}

/// Значение опции из аргумента `i`: после `=` у длинной опции, иначе следующий аргумент.
/// Возвращает номер последнего использованного аргумента и значение.
pub open spec fn opt_value(raw: Seq<Seq<char>>, i: int) -> Result<(int, Seq<char>), Seq<char>> {
    let a = raw[i];
    let key = opt_key(a);
    if split_on(a, '=').len() > 1 && starts_with(key, "--"@) {
        Ok((i, a.subrange(key.len() as int + 1, a.len() as int)))
    } else if i + 1 < raw.len() {
        Ok((i + 1, raw[i + 1]))
    } else {
        Err(a + " требует значение"@)
    }
}

/// Значение опции берётся из того же аргумента или из следующего.
pub proof fn lemma_opt_value_next(raw: Seq<Seq<char>>, i: int)
    requires
        0 <= i < raw.len(),
    ensures
        opt_value(raw, i) matches Ok((j, _v)) ==> i <= j <= i + 1,
{
}

/// Разбор аргументов `i..` поверх уже разобранного `m`; позиционные копятся в `m.args`.
pub open spec fn parse_args(raw: Seq<Seq<char>>, i: int, m: CliModel) -> Result<CliModel, Seq<char>>
    decreases raw.len() - i,
{
    if i < 0 || i >= raw.len() {
        Ok(m)
    } else {
        let a = raw[i];
        let key = opt_key(a);
        let takes = key == "--root"@ || key == "-f"@ || key == "--file"@ || key == "-d"@ || key
            == "--date"@ || key == "-t"@ || key == "--title"@ || key == "--headings"@;
        if takes {
            proof {
                lemma_opt_value_next(raw, i);
            }
            match opt_value(raw, i) {
                Err(e) => Err(e),
                Ok((j, v)) => if key == "--root"@ {
                    parse_args(raw, j + 1, CliModel { root: Some(v), ..m })
                } else if key == "-f"@ || key == "--file"@ {
                    parse_args(raw, j + 1, CliModel { files: m.files.push(v), ..m })
                } else if key == "-d"@ || key == "--date"@ {
                    parse_args(raw, j + 1, CliModel { date_opt: Some(v), ..m })
                } else if key == "-t"@ || key == "--title"@ {
                    parse_args(raw, j + 1, CliModel { title: Some(v), ..m })
                } else {
                    match headings_named(v) {
                        Some(h) => parse_args(raw, j + 1, CliModel { headings: h, ..m }),
                        None => Err(headings_error(v)),
                    }
                }
            }
        } else if key == "--no-sync"@ {
            parse_args(raw, i + 1, CliModel { no_sync: true, ..m })
        } else if starts_with(key, "-"@) && key != "-"@ && m.cmd is Some {
            Err("неизвестная опция `"@ + key + "`"@)
        } else if m.cmd is None {
            parse_args(raw, i + 1, CliModel { cmd: Some(a), ..m })
        } else {
            parse_args(raw, i + 1, CliModel { args: m.args.push(a), ..m })
        }
    }
}

/// Разбор командной строки целиком.
pub open spec fn parsed_cli(raw: Seq<Seq<char>>) -> Result<CliModel, Seq<char>> {
    parse_args(raw, 0, empty_model())
}

fn key_is(key: &Vec<char>, s: &str) -> (b: bool)
    ensures
        b == (key@ == s@),
{
    same(key, &chars_of(s))
}

impl Cli {
    /// Разбирает аргументы командной строки (без имени программы).
    pub fn parse(raw: Vec<String>) -> (r: Result<Cli, String>)
        ensures
            match parsed_cli(strs(raw@)) {
                Ok(m) => r matches Ok(c) && c@ == m,
                Err(e) => r matches Err(x) && x@ == e,
            },
    {
        let ghost rv = strs(raw@);
        let mut cli = Cli {
            cmd: None,
            args: Vec::new(),
            root: None,
            files: Vec::new(),
            date_opt: None,
            title: None,
            headings: Headings::Shift,
            no_sync: false,
        };
        assert(strs(cli.args@) =~= Seq::<Seq<char>>::empty());
        assert(strs(cli.files@) =~= Seq::<Seq<char>>::empty());
        assert(cli@ == empty_model());
        let mut i: usize = 0;
        while i < raw.len()
            invariant
                rv == strs(raw@),
                rv.len() == raw.len(),
                i <= raw.len(),
                parsed_cli(rv) == parse_args(rv, i as int, cli@),
            decreases raw.len() - i,
        {
            let a = chars_of(raw[i].as_str());
            assert(rv[i as int] == a@);
            let parts = split_by(&a, '=');
            proof {
                crate::text::lemma_split_first(a@, '=');
            }
            assert(views(parts@).len() == parts.len());
            let key = copy(&parts[0]);
            assert(views(parts@)[0] == parts@[0]@);
            assert(key@ == opt_key(a@));
            let takes = key_is(&key, "--root") || key_is(&key, "-f") || key_is(&key, "--file")
                || key_is(&key, "-d") || key_is(&key, "--date") || key_is(&key, "-t") || key_is(
                &key,
                "--title",
            ) || key_is(&key, "--headings");
            if takes {
                // значение: после `=` у длинной опции, иначе следующий аргумент
                let value: Vec<char> = if parts.len() > 1 && crate::text::has_prefix(
                    &key,
                    &chars_of("--"),
                ) {
                    let kl = key.len();
                    assert(split_on(a@, '=').len() > 1);
                    assert(kl < a.len());
                    crate::text::slice(&a, kl + 1, a.len())
                } else if i + 1 < raw.len() {
                    i += 1;
                    let v = chars_of(raw[i].as_str());
                    assert(rv[i as int] == v@);
                    v
                } else {
                    let mut e = copy(&a);
                    extend(&mut e, &chars_of(" требует значение"));
                    return Err(string_of(&e));
                };
                let vs = string_of(&value);
                let ghost old = cli@;
                if key_is(&key, "--root") {
                    cli.root = Some(vs);
                } else if key_is(&key, "-f") || key_is(&key, "--file") {
                    cli.files.push(vs);
                    assert(strs(cli.files@) =~= old.files.push(value@));
                } else if key_is(&key, "-d") || key_is(&key, "--date") {
                    cli.date_opt = Some(vs);
                } else if key_is(&key, "-t") || key_is(&key, "--title") {
                    cli.title = Some(vs);
                } else {
                    match Headings::parse(vs.as_str()) {
                        Ok(h) => {
                            cli.headings = h;
                        },
                        Err(e) => {
                            return Err(e);
                        },
                    }
                }
            } else if key_is(&key, "--no-sync") {
                cli.no_sync = true;
            } else if crate::text::has_prefix(&key, &chars_of("-")) && !key_is(&key, "-")
                && cli.cmd.is_some() {
                let mut e = chars_of("неизвестная опция `");
                extend(&mut e, &key);
                extend(&mut e, &chars_of("`"));
                return Err(string_of(&e));
            } else if cli.cmd.is_none() {
                cli.cmd = Some(string_of(&a));
            } else {
                let ghost old = cli@;
                cli.args.push(string_of(&a));
                assert(strs(cli.args@) =~= old.args.push(a@));
            }
            i += 1;
        }
        Ok(cli)
    }

    /// Дата для команды: из `--date`, если она задана и верна, иначе сегодняшняя.
    pub fn date(&self) -> (r: Result<String, String>)
        ensures
            match self.date_opt {
                Some(d) => if date_ok(d@) {
                    r matches Ok(x) && x@ == d@
                } else {
                    r matches Err(e) && e@ == date_error(d@)
                },
                None => r matches Ok(x) && date_shaped(x@),
            },
    {
        match &self.date_opt {
            Some(d) => {
                check_date(d.as_str())?;
                Ok(d.clone())
            },
            None => Ok(today()),
        }
    }

    /// Секция для `add`: первый позиционный аргумент, по умолчанию «находки».
    pub fn section_query(&self) -> (q: String)
        ensures
            self.args@.len() > 0 ==> q@ == self.args@[0]@,
            self.args@.len() == 0 ==> q@ == "находки"@,
    {
        if self.args.len() > 0 {
            self.args[0].clone()
        } else {
            string_of(&chars_of("находки"))
        }
    }

    /// Дата для `shift`: первый позиционный аргумент, если он есть, иначе как у `date`.
    pub fn shift_date(&self) -> (r: Result<String, String>)
        ensures
            self.args@.len() > 0 ==> {
                let d = self.args@[0]@;
                if date_ok(d) {
                    r matches Ok(x) && x@ == d
                } else {
                    r matches Err(e) && e@ == date_error(d)
                }
            },
            self.args@.len() == 0 ==> match self.date_opt {
                Some(d) => if date_ok(d@) {
                    r matches Ok(x) && x@ == d@
                } else {
                    r matches Err(e) && e@ == date_error(d@)
                },
                None => r matches Ok(x) && date_shaped(x@),
            },
    {
        if self.args.len() > 0 {
            let d = &self.args[0];
            check_date(d.as_str())?;
            Ok(d.clone())
        } else {
            self.date()
        }
    }
}

/// Блок, который `add` дописывает в секцию: вход после нормализации, под подзаголовком `### title`,
/// если он задан (тогда вложенные заголовки начинаются с четвёртого уровня).
pub open spec fn block_of(raw: Seq<char>, title: Option<Seq<char>>, mode: Headings) -> Seq<char> {
    match title {
        Some(t) => {
            let body = normalized(raw, mode, 4);
            if body.len() == 0 {
                "### "@ + t
            } else {
                "### "@ + t + "\n\n"@ + body
            }
        },
        None => normalized(raw, mode, 3),
    }
}

/// Что дописать в запись по входу команды `add`. Пустой или пробельный вход — отказ.
pub fn add_block(raw: &str, title: Option<&str>, mode: Headings) -> (r: Result<String, String>)
    ensures
        crate::text::is_blank(raw@) ==> (r matches Err(e) && e@ == "пустой ввод, нечего добавлять"@),
        !crate::text::is_blank(raw@) ==> (r matches Ok(b) && b@ == block_of(
            raw@,
            opt_str(title),
            mode,
        )),
{
    if crate::text::blank(&chars_of(raw)) {
        return Err(string_of(&chars_of("пустой ввод, нечего добавлять")));
    }
    match title {
        Some(t) => {
            let body = chars_of(normalize(raw, mode, 4).as_str());
            let mut b = chars_of("### ");
            extend(&mut b, &chars_of(t));
            if body.len() > 0 {
                extend(&mut b, &chars_of("\n\n"));
                extend(&mut b, &body);
            }
            Ok(string_of(&b))
        },
        None => Ok(normalize(raw, mode, 3)),
    }
}

/// Вход `add` из нескольких файлов: их тексты подряд через пустую строку.
pub fn join_inputs(parts: &Vec<String>) -> (r: String)
    ensures
        r@ == join(strs(parts@), "\n\n"@),
{
    let mut vs: Vec<Vec<char>> = Vec::new();
    for i in 0..parts.len()
        invariant
            views(vs@) == strs(parts@).subrange(0, i as int),
    {
        let ghost before = vs@;
        let v = chars_of(parts[i].as_str());
        vs.push(v);
        assert(views(vs@) =~= views(before).push(v@));
        assert(strs(parts@).subrange(0, i + 1) =~= strs(parts@).subrange(0, i as int).push(
            parts@[i as int]@,
        ));
    }
    assert(strs(parts@).subrange(0, parts.len() as int) =~= strs(parts@));
    string_of(&join_with(&vs, &chars_of("\n\n")))
}

/// Содержимое необязательной строки-среза.
pub open spec fn opt_str(o: Option<&str>) -> Option<Seq<char>> {
    match o {
        Some(s) => Some(s@),
        None => None,
    }
}

// ---------------------------------------------------------------- законы об опциях

proof fn lemma_no_eq(a: Seq<char>)
    requires
        !a.contains('='),
    ensures
        split_on(a, '=') == seq![a],
        opt_key(a) == a,
{
    crate::text::lemma_split_single(a, '=');
}

proof fn lemma_lit_no_eq(a: Seq<char>)
    requires
        forall|k: int| 0 <= k < a.len() ==> (#[trigger] a[k]) != '=',
    ensures
        split_on(a, '=') == seq![a],
        opt_key(a) == a,
{
    if a.contains('=') {
        let k = choose|k: int| 0 <= k < a.len() && a[k] == '=';
        assert(a[k] != '=');
    }
    lemma_no_eq(a);
}

/// Опция, которой нужно значение, как её пишут в командной строке.
pub open spec fn value_option(a: Seq<char>) -> bool {
    a == "--root"@ || a == "-f"@ || a == "--file"@ || a == "-d"@ || a == "--date"@ || a
        == "-t"@ || a == "--title"@ || a == "--headings"@
}

/// Что опция `a` со значением `v` делает с разобранным: короткая и длинная формы
/// (`-f`/`--file`, `-d`/`--date`, `-t`/`--title`) действуют одинаково.
pub open spec fn with_option(m: CliModel, a: Seq<char>, v: Seq<char>) -> CliModel {
    if a == "--root"@ {
        CliModel { root: Some(v), ..m }
    } else if a == "-f"@ || a == "--file"@ {
        CliModel { files: m.files.push(v), ..m }
    } else if a == "-d"@ || a == "--date"@ {
        CliModel { date_opt: Some(v), ..m }
    } else {
        CliModel { title: Some(v), ..m }
    }
}

/// Короткая и длинная формы опции взаимозаменяемы, а значение берётся из следующего
/// аргумента: где бы разбор ни дошёл до `--root`, `-f`/`--file`, `-d`/`--date` или
/// `-t`/`--title` с аргументом за ней, этот аргумент становится значением опции
/// (файл добавляется к списку), и разбор идёт дальше за ним. Для `--headings` так же,
/// если значение — `shift`, `bold` или `strip`; `--no-sync` просто включает флаг.
pub proof fn law_option_takes_next(raw: Seq<Seq<char>>, i: int, m: CliModel)
    requires
        0 <= i < raw.len(),
    ensures
        (value_option(raw[i]) && raw[i] != "--headings"@ && i + 1 < raw.len()) ==> parse_args(
            raw,
            i,
            m,
        ) == parse_args(raw, i + 2, with_option(m, raw[i], raw[i + 1])),
        (raw[i] == "--headings"@ && i + 1 < raw.len() && headings_named(raw[i + 1]) is Some)
            ==> parse_args(raw, i, m) == parse_args(
            raw,
            i + 2,
            CliModel { headings: headings_named(raw[i + 1])->0, ..m },
        ),
        raw[i] == "--no-sync"@ ==> parse_args(raw, i, m) == parse_args(
            raw,
            i + 1,
            CliModel { no_sync: true, ..m },
        ),
{
    reveal_strlit("--root");
    reveal_strlit("-f");
    reveal_strlit("--file");
    reveal_strlit("-d");
    reveal_strlit("--date");
    reveal_strlit("-t");
    reveal_strlit("--title");
    reveal_strlit("--headings");
    reveal_strlit("--no-sync");
    reveal_strlit("-");
    reveal_strlit("--");
    let a = raw[i];
    if value_option(a) || a == "--no-sync"@ {
        lemma_lit_no_eq(a);
        assert(opt_key(a) == a);
        if value_option(a) && i + 1 < raw.len() {
            assert(opt_value(raw, i) == Ok::<(int, Seq<char>), Seq<char>>((i + 1, raw[i + 1])));
        }
    }
}

/// То же для записи через `=`: `--title=v` (и `--root=`, `--file=`, `--date=`) даёт значение `v`
/// и разбор идёт со следующего аргумента.
pub proof fn law_option_inline(raw: Seq<Seq<char>>, i: int, m: CliModel, key: Seq<char>, v: Seq<char>)
    requires
        0 <= i < raw.len(),
        key == "--root"@ || key == "--file"@ || key == "--date"@ || key == "--title"@,
        raw[i] == key + seq!['='] + v,
    ensures
        parse_args(raw, i, m) == parse_args(raw, i + 1, with_option(m, key, v)),
{
    reveal_strlit("--root");
    reveal_strlit("-f");
    reveal_strlit("--file");
    reveal_strlit("-d");
    reveal_strlit("--date");
    reveal_strlit("-t");
    reveal_strlit("--title");
    reveal_strlit("--headings");
    reveal_strlit("--no-sync");
    reveal_strlit("-");
    reveal_strlit("--");
    lemma_lit_no_eq(key);
    let a = raw[i];
    crate::text::lemma_split_concat(key, v, '=');
    crate::text::lemma_split_nonempty(v, '=');
    assert(split_on(a, '=') == split_on(key, '=') + split_on(v, '='));
    assert(split_on(a, '=')[0] == key);
    assert(opt_key(a) == key);
    assert(starts_with(key, "--"@)) by {
        assert(key.subrange(0, 2) =~= "--"@);
    }
    assert(a.subrange(key.len() as int + 1, a.len() as int) =~= v);
    assert(opt_value(raw, i) == Ok::<(int, Seq<char>), Seq<char>>((i, v)));
}

} // verus!
