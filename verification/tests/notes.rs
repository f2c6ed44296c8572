use srelog::config::FILE;
use srelog::md;
use srelog::config::BUILTIN;
use srelog::notes::{
    check_date, env_hint, is_entry_name, named, outer_notes, persist_root, root_env_state, Backlog, Entry, InitReport,
    Notes, RootEnv, BUILTIN_README, BUILTIN_TEMPLATE,
};
use srelog::paths::{absolute, ancestors};

#[test]
fn dates_and_names() {
    assert!(check_date("2026-09-01").is_ok());
    assert!(check_date("2026-9-1").is_err());
    assert!(check_date("20260901").is_err());
    assert!(is_entry_name("2026-09-01.md"));
    assert!(!is_entry_name("TEMPLATE.md"));
    assert!(!is_entry_name("2026-09-01.txt"));
}

#[test]
fn builtin_template_has_required_sections() {
    let t = BUILTIN_TEMPLATE;
    assert!(t.contains("{{DATE}}") && t.contains("{{ENGINEER}}"));
    for s in ["Итог смены", "Находки", "Кандидаты в бэклог"] {
        assert!(md::sections(t).iter().any(|x| x == s), "нет секции {s}");
    }
}

#[test]
fn env_state_reads_variable() {
    let root = "/notes/new";
    let cwd = Some("/home/oncall");
    assert_eq!(root_env_state(root, None, cwd), RootEnv::Unset);
    assert_eq!(root_env_state(root, Some(""), cwd), RootEnv::Unset);
    assert_eq!(root_env_state(root, Some("  "), cwd), RootEnv::Unset);
    assert_eq!(root_env_state(root, Some("/notes/new"), cwd), RootEnv::Matches);
    assert_eq!(root_env_state(root, Some("/notes/new/"), cwd), RootEnv::Matches);
    assert_eq!(
        root_env_state(root, Some("/notes/../notes/new"), cwd),
        RootEnv::Matches
    );
    assert_eq!(
        root_env_state(root, Some("/notes/old"), cwd),
        RootEnv::Other("/notes/old".to_string())
    );
}

#[test]
fn env_state_resolves_relative_variable() {
    assert_eq!(
        root_env_state("/notes/new", Some("new"), Some("/notes")),
        RootEnv::Matches
    );
    assert_eq!(
        root_env_state("/notes/new", Some("../old"), Some("/notes/new")),
        RootEnv::Other("/notes/old".to_string())
    );
    // текущий каталог не читается — относительному значению верить не на что
    assert_eq!(root_env_state("/notes/new", Some("new"), None), RootEnv::Unset);
}

#[test]
fn persist_picks_profile_by_shell() {
    let root = "/notes/new";
    let macos = false;

    let zsh = persist_root(root, Some("/bin/zsh"), macos);
    assert_eq!(zsh.profile, "~/.zshrc");
    assert_eq!(zsh.session, r#"export SRELOG_ROOT="/notes/new""#);
    assert_eq!(
        zsh.append,
        r#"echo 'export SRELOG_ROOT="/notes/new"' >> ~/.zshrc"#
    );

    let bash = persist_root(root, Some("/opt/homebrew/bin/bash"), macos);
    let expected = if macos {
        "~/.bash_profile"
    } else {
        "~/.bashrc"
    };
    assert_eq!(bash.profile, expected);
    assert!(bash.append.ends_with(expected));

    let fish = persist_root(root, Some("/usr/local/bin/fish"), macos);
    assert_eq!(fish.profile, "~/.config/fish/config.fish");
    assert_eq!(fish.session, r#"set -gx SRELOG_ROOT "/notes/new""#);

    // неизвестная оболочка и пустой $SHELL — общий профиль
    assert_eq!(persist_root(root, Some("/bin/ksh"), macos).profile, "~/.profile");
    assert_eq!(persist_root(root, None, macos).profile, "~/.profile");
}

#[test]
fn persist_bash_on_macos_uses_bash_profile() {
    let bash = persist_root("/notes/new", Some("/bin/bash"), true);
    assert_eq!(bash.profile, "~/.bash_profile");
    assert_eq!(
        bash.append,
        r#"echo 'export SRELOG_ROOT="/notes/new"' >> ~/.bash_profile"#
    );
}

#[test]
fn persist_quotes_awkward_paths() {
    let spaced = persist_root("/notes/on call", Some("/bin/zsh"), false);
    assert_eq!(spaced.session, r#"export SRELOG_ROOT="/notes/on call""#);

    let quoted = persist_root("/notes/it's $HOME", Some("/bin/zsh"), false);
    assert_eq!(quoted.session, r#"export SRELOG_ROOT="/notes/it's \$HOME""#);
    // одинарная кавычка не рвёт строку echo
    assert_eq!(
        quoted.append,
        r#"echo 'export SRELOG_ROOT="/notes/it'\''s \$HOME"' >> ~/.zshrc"#
    );
}

#[test]
fn absolute_cleans_path() {
    assert_eq!(absolute("/a/./b/../c", "/home/oncall"), "/a/c");
    let rel = absolute("notes", "/home/oncall");
    assert!(rel.starts_with('/') && rel.ends_with("notes"));
    assert_eq!(rel, "/home/oncall/notes");
    assert_eq!(absolute("/..", "/x"), "/");
}

#[test]
fn entry_path_by_year() {
    let notes = Notes { root: "/notes".to_string() };
    assert_eq!(notes.oncall(), "/notes/oncall");
    assert_eq!(notes.entry_path("2026-09-02"), "/notes/oncall/2026/2026-09-02.md");
    let slashed = Notes { root: "/notes/".to_string() };
    assert_eq!(slashed.oncall(), "/notes/oncall");
}

#[test]
fn entries_sorted_with_relative_paths() {
    let notes = Notes { root: "/n".to_string() };
    let found = vec![
        "/n/oncall/2026/2026-09-02.md".to_string(),
        "/n/oncall/2026-old/2026-01-01.md".to_string(),
        "/n/oncall/2025/2025-12-31.md".to_string(),
        "/n/oncall/2026/2026-09-01.md".to_string(),
    ];
    let es = notes.entries(&found);
    let rels: Vec<&str> = es.iter().map(|e| e.rel.as_str()).collect();
    // пути сравниваются по компонентам: `2026` раньше `2026-old`
    assert_eq!(
        rels,
        vec![
            "2025/2025-12-31.md",
            "2026/2026-09-01.md",
            "2026/2026-09-02.md",
            "2026-old/2026-01-01.md",
        ]
    );
    assert_eq!(es[0].path, "/n/oncall/2025/2025-12-31.md");
}

#[test]
fn fill_template_replaces_placeholders() {
    let t = srelog::notes::fill_template(BUILTIN_TEMPLATE, "2026-09-02", "test");
    assert!(t.contains("date: 2026-09-02"));
    assert!(t.contains("engineer: test"));
    assert!(!t.contains("{{"), "плейсхолдеры остались: {t}");
}

// ---------------------------------------------------------------- INDEX.md и BACKLOG.md

const ROOT: &str = "/tmp/srelog-journal";

/// Журнал из записей с одной секцией бэклога: остальное BACKLOG.md не читает.
fn journal(tables: &[(&str, &str)]) -> (Notes, Vec<Entry>, Vec<String>) {
    let notes = Notes { root: ROOT.to_string() };
    let found: Vec<String> = tables.iter().map(|(d, _)| notes.entry_path(d)).collect();
    let entries = notes.entries(&found);
    let texts = entries
        .iter()
        .map(|e| {
            let (date, table) = tables
                .iter()
                .find(|(d, _)| e.path.ends_with(&format!("{d}.md")))
                .unwrap();
            format!("---\ndate: {date}\n---\n\n## Кандидаты в бэклог\n\n{table}")
        })
        .collect();
    (notes, entries, texts)
}

fn backlog(tables: &[(&str, &str)], toml: Option<&str>) -> Backlog {
    let (notes, entries, texts) = journal(tables);
    notes.render_backlog(Ok(toml.map(|t| t.to_string())), &entries, &texts)
}

const BACKLOG_HEAD: &str = "\
# Кандидаты в бэклог из дежурств

Сгенерировано `srelog backlog` из секций «Кандидаты в бэклог». Правки вносить в сами записи.

| Направление | Что завести | Основание | Дежурство |
|-------------|-------------|-----------|-----------|
";

#[test]
fn backlog_without_status_keeps_layout() {
    let backlog = backlog(
        &[
            (
                "2026-09-01",
                "\
| Направление | Что завести | Основание |
|-------------|-------------|-----------|
| tooling | Тул `quota_check(project_id)` | Бридж не видит квоты |
| infra   | Выровненная строка     | С пробелами              |
",
            ),
            (
                "2026-09-02",
                "\
| Направление | Что завести | Основание |
|-------------|-------------|-----------|
| access | Чтение квот | exec заблокирован |
",
            ),
        ],
        None,
    );
    assert_eq!(
        backlog.text,
        format!(
            "{BACKLOG_HEAD}\
| access | Чтение квот | exec заблокирован | [2026-09-02](2026/2026-09-02.md) |
| infra   | Выровненная строка     | С пробелами | [2026-09-01](2026/2026-09-01.md) |
| tooling | Тул `quota_check(project_id)` | Бридж не видит квоты | [2026-09-01](2026/2026-09-01.md) |
"
        )
    );
    assert_eq!((backlog.open, backlog.closed), (3, 0));
}

#[test]
fn backlog_moves_rows_with_status_to_own_section() {
    let backlog = backlog(
        &[(
            "2026-09-03",
            "\
| Направление | Что завести | Основание | Статус |
|-------------|-------------|-----------|--------|
| tooling | Тул `quota_check(project_id)` | Бридж не видит квоты | |
| infra | Обновить драйвер хранилища | Тихая порча данных | [PROJ-123](https://tracker.example/PROJ-123) |
| infra | Обновить драйвер хранилища | Рецидив | повтор 2026-09-03 |
",
        )],
        None,
    );
    assert_eq!(
        backlog.text,
        format!(
            "{BACKLOG_HEAD}\
| tooling | Тул `quota_check(project_id)` | Бридж не видит квоты | [2026-09-03](2026/2026-09-03.md) |

## Заведено и снято

| Направление | Что завести | Основание | Статус | Дежурство |
|-------------|-------------|-----------|--------|-----------|
| infra | Обновить драйвер хранилища | Рецидив | повтор 2026-09-03 | [2026-09-03](2026/2026-09-03.md) |
| infra | Обновить драйвер хранилища | Тихая порча данных | [PROJ-123](https://tracker.example/PROJ-123) | [2026-09-03](2026/2026-09-03.md) |
"
        )
    );
    assert_eq!((backlog.open, backlog.closed), (1, 2));
}

#[test]
fn backlog_mixes_three_and_four_cells_in_one_table() {
    let backlog = backlog(
        &[(
            "2026-09-04",
            "\
| Направление | Что завести | Основание |
|-------------|-------------|-----------|
| dev | Ретраи в клиенте | Таймауты на старте |
| infra | Дашборд квот | Смотрели руками | PROJ-7 |
| access | Чтение квот | exec заблокирован | |
",
        )],
        None,
    );
    assert_eq!(
        backlog.text,
        format!(
            "{BACKLOG_HEAD}\
| access | Чтение квот | exec заблокирован | [2026-09-04](2026/2026-09-04.md) |
| dev | Ретраи в клиенте | Таймауты на старте | [2026-09-04](2026/2026-09-04.md) |

## Заведено и снято

| Направление | Что завести | Основание | Статус | Дежурство |
|-------------|-------------|-----------|--------|-----------|
| infra | Дашборд квот | Смотрели руками | PROJ-7 | [2026-09-04](2026/2026-09-04.md) |
"
        )
    );
    assert_eq!((backlog.open, backlog.closed), (2, 1));
}

/// Направления вразнобой, одно не заполнено.
const MIXED_DIRECTIONS: &str = "\
| Направление | Что завести | Основание |
|-------------|-------------|-----------|
| storage | Обновить драйвер | Тихая порча данных |
| infra | Дашборд квот | Смотрели руками |
| | Без направления | Забыли заполнить |
| access | Чтение квот | exec заблокирован |
| dev | Ретраи в клиенте | Таймауты на старте |
";

/// MIXED_DIRECTIONS за 2026-09-06 в порядке строк целиком, как без списка.
const BY_LINE: &str = "\
| access | Чтение квот | exec заблокирован | [2026-09-06](2026/2026-09-06.md) |
| dev | Ретраи в клиенте | Таймауты на старте | [2026-09-06](2026/2026-09-06.md) |
| infra | Дашборд квот | Смотрели руками | [2026-09-06](2026/2026-09-06.md) |
| storage | Обновить драйвер | Тихая порча данных | [2026-09-06](2026/2026-09-06.md) |
| | Без направления | Забыли заполнить | [2026-09-06](2026/2026-09-06.md) |
";

#[test]
fn backlog_without_list_sorts_by_line_quietly() {
    // нет файла и нет ключа — одно и то же
    for (tag, toml) in [
        ("backlog-nolist-file", None),
        ("backlog-nolist-key", Some("# directions = [\"infra\"]\n")),
    ] {
        let backlog = backlog(&[("2026-09-06", MIXED_DIRECTIONS)], toml);
        assert_eq!(backlog.text, format!("{BACKLOG_HEAD}{BY_LINE}"), "{tag}");
        assert!(backlog.warnings.is_empty(), "{tag}: {:?}", backlog.warnings);
    }
}

#[test]
fn backlog_follows_list_and_warns_about_unknown() {
    let backlog = backlog(
        &[("2026-09-06", MIXED_DIRECTIONS)],
        Some("directions = [\"infra\", \"access\"]\n"),
    );
    assert_eq!(
        backlog.text,
        format!(
            "{BACKLOG_HEAD}\
| infra | Дашборд квот | Смотрели руками | [2026-09-06](2026/2026-09-06.md) |
| access | Чтение квот | exec заблокирован | [2026-09-06](2026/2026-09-06.md) |
| dev | Ретраи в клиенте | Таймауты на старте | [2026-09-06](2026/2026-09-06.md) |
| storage | Обновить драйвер | Тихая порча данных | [2026-09-06](2026/2026-09-06.md) |
| | Без направления | Забыли заполнить | [2026-09-06](2026/2026-09-06.md) |
"
        )
    );
    let entry = format!("{ROOT}/oncall/2026/2026-09-06.md");
    assert_eq!(
        backlog.warnings,
        vec![
            format!("{entry}:9: направления `storage` нет в srelog.toml"),
            format!("{entry}:11: направление не заполнено"),
            format!("{entry}:13: направления `dev` нет в srelog.toml"),
        ]
    );
    assert_eq!((backlog.open, backlog.closed), (5, 0));
}

#[test]
fn backlog_orders_closed_section_by_list_too() {
    let backlog = backlog(
        &[(
            "2026-09-07",
            "\
| Направление | Что завести | Основание | Статус |
|-------------|-------------|-----------|--------|
| infra | Обновить драйвер хранилища | Тихая порча данных | PROJ-123 |
| tooling | Фильтр логов | Grep молчит | снято |
| tooling | Тул `quota_check` | Бридж не видит квоты | |
",
        )],
        Some("directions = [\"tooling\", \"infra\"]\n"),
    );
    assert_eq!(
        backlog.text,
        format!(
            "{BACKLOG_HEAD}\
| tooling | Тул `quota_check` | Бридж не видит квоты | [2026-09-07](2026/2026-09-07.md) |

## Заведено и снято

| Направление | Что завести | Основание | Статус | Дежурство |
|-------------|-------------|-----------|--------|-----------|
| tooling | Фильтр логов | Grep молчит | снято | [2026-09-07](2026/2026-09-07.md) |
| infra | Обновить драйвер хранилища | Тихая порча данных | PROJ-123 | [2026-09-07](2026/2026-09-07.md) |
"
        )
    );
    assert!(backlog.warnings.is_empty(), "{:?}", backlog.warnings);
}

#[test]
fn broken_config_warns_and_skips_checks() {
    let backlog = backlog(
        &[("2026-09-06", MIXED_DIRECTIONS)],
        Some("directions = [\"infra\", access]\n"),
    );
    assert_eq!(backlog.text, format!("{BACKLOG_HEAD}{BY_LINE}"));
    assert_eq!(
        backlog.warnings,
        vec![format!(
            "{ROOT}/{FILE}:1: `access` без кавычек: элементы `directions` — строки; направления не проверяю"
        )]
    );
}

#[test]
fn unreadable_config_warns() {
    let (notes, entries, texts) = journal(&[("2026-09-06", MIXED_DIRECTIONS)]);
    let backlog = notes.render_backlog(Err("Permission denied".to_string()), &entries, &texts);
    assert_eq!(backlog.text, format!("{BACKLOG_HEAD}{BY_LINE}"));
    assert_eq!(
        backlog.warnings,
        vec![format!(
            "не читается {ROOT}/{FILE}: Permission denied; направления не проверяю"
        )]
    );
}

#[test]
fn index_puts_fresh_entries_first() {
    let notes = Notes { root: "/n".to_string() };
    let found = vec![
        "/n/oncall/2026/2026-09-01.md".to_string(),
        "/n/oncall/2026/2026-09-02.md".to_string(),
    ];
    let entries = notes.entries(&found);
    let texts = vec![
        "---\ndate: 2026-09-01\nengineer: Mikhail Savin\ncontext: [INC-42]\n---\n\n## Итог смены\n\n<!-- x -->\nРазбор | kubectl\n".to_string(),
        "без шапки\n".to_string(),
    ];
    let index = notes.render_index(&entries, &texts);
    assert_eq!(
        index,
        "# Индекс дежурств\n\nСгенерировано `srelog index`. Правки вносить в сами записи.\n\n\
         | Дата | Дежурный | Контекст | Итог |\n\
         |------|----------|----------|------|\n\
         | [2026/2026-09-02.md](2026/2026-09-02.md) | - | - | - |\n\
         | [2026-09-01](2026/2026-09-01.md) | Mikhail Savin | [INC-42] | Разбор \\| kubectl |\n"
    );
}

/// Решения `init` на пустом месте: всё стартовое и оба генерируемых файла создаются.
#[test]
fn init_layout_on_empty_place() {
    let notes = Notes { root: "/srv/j".to_string() };
    let starters = notes.starters();
    let paths: Vec<&str> = starters.iter().map(|(p, _)| p.as_str()).collect();
    assert_eq!(
        paths,
        vec!["/srv/j/oncall/TEMPLATE.md", "/srv/j/oncall/README.md", "/srv/j/srelog.toml"]
    );
    assert_eq!(starters[0].1, BUILTIN_TEMPLATE);
    assert_eq!(starters[1].1, BUILTIN_README);
    assert_eq!(starters[2].1, BUILTIN);

    let mut report = InitReport::default();
    assert!(report.starter(notes.oncall(), false));
    for (p, _) in &starters {
        assert!(report.starter(p.clone(), false));
    }
    assert!(report.generated("/srv/j/oncall/INDEX.md".to_string(), None, "# Индекс\n"));
    assert!(report.generated("/srv/j/oncall/BACKLOG.md".to_string(), None, "# Бэклог\n"));
    assert_eq!(
        report.created,
        vec![
            "/srv/j/oncall",
            "/srv/j/oncall/TEMPLATE.md",
            "/srv/j/oncall/README.md",
            "/srv/j/srelog.toml",
            "/srv/j/oncall/INDEX.md",
            "/srv/j/oncall/BACKLOG.md",
        ]
    );
    assert!(report.rebuilt.is_empty(), "на пустом месте нечего пересобирать");
    assert!(!report.is_empty());
    assert_eq!(report.summary()[0], "создано: /srv/j/oncall");
    assert_eq!(report.summary().len(), 6);
}

/// Повторный `init` над готовым журналом ничего не трогает.
#[test]
fn init_again_touches_nothing() {
    let mut report = InitReport::default();
    assert!(!report.starter("/srv/j/oncall".to_string(), true));
    assert!(!report.starter("/srv/j/oncall/TEMPLATE.md".to_string(), true));
    assert!(!report.generated(
        "/srv/j/oncall/INDEX.md".to_string(),
        Some("# Индекс\n"),
        "# Индекс\n"
    ));
    assert!(report.is_empty());
    assert_eq!(report.summary(), vec!["журнал уже заведён, ничего не менял"]);
}

/// Ручная правка генерируемого файла: файл пересобирается и попадает в отчёт, соседний — нет.
#[test]
fn init_reports_hand_edited_index() {
    let mut report = InitReport::default();
    let index = "/srv/j/oncall/INDEX.md".to_string();
    assert!(report.generated(index.clone(), Some("# Индекс\n\nручная правка\n"), "# Индекс\n"));
    assert!(!report.generated(
        "/srv/j/oncall/BACKLOG.md".to_string(),
        Some("# Бэклог\n"),
        "# Бэклог\n"
    ));
    assert!(report.created.is_empty());
    assert_eq!(report.rebuilt, vec![index]);
    assert_eq!(report.summary(), vec!["пересобрано: /srv/j/oncall/INDEX.md"]);
}

#[test]
fn ancestors_walk_up_to_root() {
    assert_eq!(ancestors("/a/b/c"), vec!["/a/b/c", "/a/b", "/a", "/"]);
    assert_eq!(ancestors("/a//b/./"), vec!["/a/b", "/a", "/"]);
    assert_eq!(ancestors("/"), vec!["/"]);
    assert_eq!(ancestors("a/b"), vec!["a/b", "a", ""]);
    assert_eq!(ancestors(""), vec![""]);
}

#[test]
fn hint_for_each_state() {
    let persist = persist_root("/notes/new", Some("/bin/zsh"), false);
    assert_eq!(
        env_hint(&RootEnv::Matches, &persist),
        vec!["SRELOG_ROOT уже указывает сюда — журнал доступен из любого каталога"]
    );
    let unset = env_hint(&RootEnv::Unset, &persist);
    assert_eq!(unset.len(), 9);
    assert_eq!(unset[2], "Закрепи путь в профиле оболочки:");
    assert_eq!(
        unset[4],
        r#"  echo 'export SRELOG_ROOT="/notes/new"' >> ~/.zshrc"#
    );
    assert_eq!(unset[8], r#"  export SRELOG_ROOT="/notes/new""#);
    let other = env_hint(&RootEnv::Other("/notes/old".to_string()), &persist);
    assert_eq!(
        other[1],
        "srelog: SRELOG_ROOT указывает на /notes/old — команды пойдут туда, а не в этот журнал."
    );
    assert_eq!(
        other[7],
        "Старую строку из ~/.zshrc потом убери, иначе она так и будет висеть выше."
    );
    assert_eq!(other.len(), 8);
}

#[test]
fn root_from_flag_then_variable() {
    assert_eq!(
        Notes::root_choice(Some("/a".to_string()), Some("/b".to_string())),
        Some("/a".to_string())
    );
    assert_eq!(Notes::root_choice(None, Some("/b".to_string())), Some("/b".to_string()));
    assert_eq!(Notes::root_choice(None, Some(String::new())), None);
    assert_eq!(Notes::root_choice(None, None), None);
    assert_eq!(
        Notes::not_found("/home/x"),
        "не нашёл корень заметок: каталога oncall/ нет ни в /home/x, ни выше.\n\
         Укажи --root <path> или SRELOG_ROOT, либо заведи журнал здесь: srelog init"
    );
}

#[test]
fn template_falls_back_to_builtin() {
    let notes = Notes { root: "/srv/j".to_string() };
    assert_eq!(notes.template(Ok(Some("## Своё\n".to_string()))).unwrap(), "## Своё\n");
    assert_eq!(notes.template(Ok(None)).unwrap(), BUILTIN_TEMPLATE);
    assert_eq!(
        notes.template(Err("Permission denied".to_string())).unwrap_err(),
        "не читается /srv/j/oncall/TEMPLATE.md: Permission denied"
    );
}

#[test]
fn engineer_from_variable_then_git() {
    assert_eq!(Notes::engineer(Some("  Анна  "), Some("git-name")), "Анна");
    assert_eq!(Notes::engineer(Some("   "), Some("Борис\n")), "Борис");
    assert_eq!(Notes::engineer(None, Some("")), "TBD");
    assert_eq!(Notes::engineer(None, None), "TBD");
    assert_eq!(named(Some(" x ")), Some("x".to_string()));
    assert_eq!(named(Some(" \t")), None);
}

#[test]
fn absolute_never_keeps_dots() {
    assert_eq!(absolute("../x/./y", "/home/u"), "/home/x/y");
    assert_eq!(absolute("/a/../../b//", "/"), "/b");
    let once = absolute("../../..", "/a/b");
    assert_eq!(once, "/");
    assert_eq!(absolute(&once, "/elsewhere"), once);
}

/// Без списка строка с пустым направлением стоит там, где её ставит порядок строк целиком.
#[test]
fn backlog_empty_direction_sorts_by_line() {
    let backlog = backlog(
        &[(
            "2026-09-08",
            "\
| Направление | Что завести | Основание |
|-------------|-------------|-----------|
| я | a | x |
| | b | y |
|  | c | z |
| access | d | w |
",
        )],
        None,
    );
    assert_eq!(
        backlog.text,
        format!(
            "{BACKLOG_HEAD}\
|  | c | z | [2026-09-08](2026/2026-09-08.md) |
| access | d | w | [2026-09-08](2026/2026-09-08.md) |
| | b | y | [2026-09-08](2026/2026-09-08.md) |
| я | a | x | [2026-09-08](2026/2026-09-08.md) |
"
        )
    );
    assert!(backlog.warnings.is_empty());
}

/// Новая запись сразу после `init` и повторный вызов на уже заведённой.
#[test]
fn entry_created_once() {
    let notes = Notes { root: "/srv/j".to_string() };
    let (path, created, body) = notes
        .ensure_entry("2026-09-02", false, || {
            Ok((BUILTIN_TEMPLATE.to_string(), "Анна".to_string()))
        })
        .unwrap();
    assert_eq!(path, "/srv/j/oncall/2026/2026-09-02.md");
    assert!(created);
    let body = body.unwrap();
    assert!(body.contains("date: 2026-09-02"));
    assert!(body.contains("engineer: Анна"));
    assert!(!body.contains("{{"));

    let again = notes
        .ensure_entry("2026-09-02", true, || -> Result<(String, String), String> {
            panic!("шаблон не нужен")
        })
        .unwrap();
    assert_eq!(again, (path, false, None));

    let failed = notes.ensure_entry("2026-09-03", false, || Err("нет шаблона".to_string()));
    assert_eq!(failed.unwrap_err(), "нет шаблона");
}

#[test]
fn outer_notes_finds_journal_above() {
    let journals = ["/srv/j", "/srv/j/sub/deeper"];
    let has = |d: &str| journals.contains(&d);
    assert_eq!(outer_notes("/srv/j/sub/deeper/x", has), Some("/srv/j/sub/deeper".to_string()));
    assert_eq!(outer_notes("/srv/j/sub/deeper", has), Some("/srv/j".to_string()));
    assert_eq!(outer_notes("/srv/j", has), None, "свой же oncall/ — не вложенность");
    assert_eq!(outer_notes("/", has), None);
}
