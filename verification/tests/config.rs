use srelog::config::{parse, Config, BUILTIN};

fn dirs(text: &str) -> Vec<String> {
    parse(text).unwrap().directions
}

#[test]
fn builtin_lists_directions() {
    assert!(
        !dirs(BUILTIN).is_empty(),
        "во встроенном srelog.toml нет направлений"
    );
}

#[test]
fn one_line_array() {
    assert_eq!(dirs("directions = [\"infra\", 'dev']\n"), ["infra", "dev"]);
    assert_eq!(dirs("directions=[\"infra\"] # хвост\n"), ["infra"]);
}

#[test]
fn multiline_array_with_comments() {
    let t = "\
# шапка
title = \"журнал\"

directions = [
  \"tooling\",  # утилиты дежурного
  # \"storage\",
  \"infra\",
]
";
    assert_eq!(dirs(t), ["tooling", "infra"]);
}

#[test]
fn escapes_only_in_double_quotes() {
    assert_eq!(
        dirs(r#"directions = ["a\"b", "c\\d", 'e\f']"#),
        [r#"a"b"#, r"c\d", r"e\f"]
    );
}

#[test]
fn no_list() {
    for t in [
        "",
        "# directions = [\"infra\"]\n",
        "directions = []\n",
        "directions_old = [\"infra\"]\n",
        // ключ из таблицы, а не верхнего уровня
        "[backlog]\ndirections = [\"infra\"]\n",
    ] {
        assert_eq!(parse(t).unwrap(), Config::default(), "{t:?}");
    }
}

#[test]
fn errors_point_at_line() {
    let err = |t: &str| parse(t).unwrap_err();
    assert_eq!(
        err("directions = \"infra\"\n"),
        (
            1,
            r#"`directions` ждёт массив строк: `["infra", "dev"]`"#.into()
        )
    );
    assert_eq!(
        err("\ndirections = [infra, \"dev\"]\n"),
        (
            2,
            "`infra` без кавычек: элементы `directions` — строки".into()
        )
    );
    assert_eq!(
        err("directions = [\n  \"infra\"\n  \"dev\"\n]\n"),
        (3, "между элементами `directions` нужна запятая".into())
    );
    assert_eq!(
        err("directions = [\"infra\",,]\n"),
        (1, "лишняя запятая в `directions`".into())
    );
    // незакрытый массив показывает, где он начался
    assert_eq!(
        err("# шапка\ndirections = [\"infra\",\n\"dev\",\n"),
        (2, "массив `directions` не закрыт".into())
    );
    assert_eq!(
        err("directions = [\"infra]\n"),
        (1, "строка не закрыта".into())
    );
    assert_eq!(
        err("directions = [\"a\"] x\n"),
        (1, "лишнее после `]`: `x`".into())
    );
    assert_eq!(
        err("directions = [\"a\"]\ndirections = [\"b\"]\n"),
        (2, "`directions` задан второй раз".into())
    );
}
