use srelog::md::{
    append_to_section, backlog_rows, cell, front, heading, normalize, resolve_section,
    section_lead, strip_frontmatter, Headings,
};

const SAMPLE: &str = "\
---
date: 2026-09-01
engineer: Mikhail Savin
context: [INC-42]
tags: [prod-cp-01]
---

# Дежурство 2026-09-01

## Итог смены

<!-- подсказка -->
Разбор шёл локальным kubectl.

## Кандидаты в бэклог

| Направление | Что завести | Основание (находка) |
|-------------|-------------|---------------------|
| tooling | L0-тул `quota_check(project_id)` | Бридж не ходит |
| access | Разрешить чтение квот | exec заблокирован |
|             |             |                     |

## Открытые вопросы

Ничего.
";

const EMPTY: &str = "\
---
date: 2026-09-02
engineer: Кто-то
---

# Дежурство 2026-09-02

## Итог смены

## Находки

## Кандидаты в бэклог

| Направление | Что завести | Основание |
|-------------|-------------|-----------|

## Открытые вопросы
";

#[test]
fn frontmatter() {
    assert_eq!(front(SAMPLE, "date").as_deref(), Some("2026-09-01"));
    assert_eq!(front(SAMPLE, "engineer").as_deref(), Some("Mikhail Savin"));
    assert_eq!(front(SAMPLE, "context").as_deref(), Some("[INC-42]"));
    assert_eq!(front(SAMPLE, "нет"), None);
    assert_eq!(front("без шапки\ndate: 1", "date"), None);
}

#[test]
fn lead_skips_comments() {
    assert_eq!(
        section_lead(SAMPLE, "Итог смены").as_deref(),
        Some("Разбор шёл локальным kubectl.")
    );
    assert_eq!(
        section_lead(SAMPLE, "Открытые вопросы").as_deref(),
        Some("Ничего.")
    );
    assert_eq!(section_lead(SAMPLE, "Находки"), None);
}

#[test]
fn lead_absent_when_only_comment() {
    let t = "## Итог смены\n\n<!-- пусто -->\n\n## Дальше\n\nтекст\n";
    assert_eq!(section_lead(t, "Итог смены"), None);
}

#[test]
fn backlog_drops_header_separator_and_blank() {
    assert_eq!(
        backlog_rows(SAMPLE)
            .iter()
            .map(|r| r.text.as_str())
            .collect::<Vec<_>>(),
        vec![
            "| tooling | L0-тул `quota_check(project_id)` | Бридж не ходит",
            "| access | Разрешить чтение квот | exec заблокирован",
        ]
    );
    assert!(backlog_rows(EMPTY).is_empty());
}

#[test]
fn headings_parsed() {
    assert_eq!(heading("## Находки"), Some((2, "Находки")));
    assert_eq!(heading("#### Что-то  "), Some((4, "Что-то")));
    assert_eq!(heading("#нет пробела"), None);
    assert_eq!(heading("   ## отступ"), None);
    assert_eq!(heading("####### семь"), None);
    assert_eq!(heading("текст"), None);
}

#[test]
fn frontmatter_stripped_only_when_closed() {
    assert_eq!(strip_frontmatter("---\na: 1\n---\nтело\n"), "тело\n");
    assert_eq!(strip_frontmatter("текст\n"), "текст\n");
    assert_eq!(strip_frontmatter("---\nне закрыт\n"), "---\nне закрыт\n");
}

#[test]
fn section_lookup() {
    assert_eq!(resolve_section(EMPTY, "находки").unwrap(), "Находки");
    assert_eq!(resolve_section(EMPTY, "findings").unwrap(), "Находки");
    assert_eq!(
        resolve_section(EMPTY, "БЭКЛОГ").unwrap(),
        "Кандидаты в бэклог"
    );
    assert_eq!(
        resolve_section(EMPTY, "backlog").unwrap(),
        "Кандидаты в бэклог"
    );
    assert_eq!(resolve_section(EMPTY, "итог").unwrap(), "Итог смены");
    assert!(resolve_section(EMPTY, "неттакой").is_err());
}

#[test]
fn normalize_shifts_headings_under_section() {
    let input = "# Верхний\n\nтекст\n\n## Вложенный\n\nещё\n";
    let got = normalize(input, Headings::Shift, 3);
    assert_eq!(got, "### Верхний\n\nтекст\n\n#### Вложенный\n\nещё");
}

#[test]
fn normalize_never_promotes_deep_headings() {
    let input = "#### Уже глубоко\n\nтекст\n";
    assert_eq!(
        normalize(input, Headings::Shift, 3),
        "#### Уже глубоко\n\nтекст"
    );
}

#[test]
fn normalize_clamps_at_six() {
    let input = "##### Пять\n\n###### Шесть\n";
    assert_eq!(
        normalize(input, Headings::Shift, 6),
        "###### Пять\n\n###### Шесть"
    );
}

#[test]
fn normalize_bold_and_strip() {
    let input = "# Верхний\n\nтекст\n";
    assert_eq!(normalize(input, Headings::Bold, 3), "**Верхний**\n\nтекст");
    assert_eq!(normalize(input, Headings::Strip, 3), "текст");
}

#[test]
fn normalize_leaves_code_alone() {
    let input = "# Заголовок\n\n```bash\n# это комментарий, не заголовок\ngrep -E 'a|b'\n```\n";
    let got = normalize(input, Headings::Shift, 3);
    assert!(got.contains("### Заголовок"));
    assert!(got.contains("# это комментарий, не заголовок"));
}

#[test]
fn normalize_drops_frontmatter_and_edges() {
    let input = "---\ntitle: x\n---\n\n\nтекст\n\n\n";
    assert_eq!(normalize(input, Headings::Shift, 3), "текст");
}

#[test]
fn append_into_empty_section() {
    let got = append_to_section(EMPTY, "Находки", "### Бридж\n\nне ходит").unwrap();
    assert!(got.contains("## Находки\n\n### Бридж\n\nне ходит\n\n## Кандидаты"));
}

#[test]
fn append_into_last_section() {
    let got = append_to_section(EMPTY, "Открытые вопросы", "Ничего.").unwrap();
    assert!(got.ends_with("## Открытые вопросы\n\nНичего.\n"));
}

#[test]
fn append_row_glues_to_table() {
    let got = append_to_section(EMPTY, "Кандидаты в бэклог", "| dev | X | Y |").unwrap();
    assert!(got.contains("|-------------|-------------|-----------|\n| dev | X | Y |\n"));
}

#[test]
fn append_keeps_existing_content() {
    let once = append_to_section(EMPTY, "Находки", "первая").unwrap();
    let twice = append_to_section(&once, "Находки", "вторая").unwrap();
    assert!(twice.contains("## Находки\n\nпервая\n\nвторая\n\n## Кандидаты"));
}

#[test]
fn append_reports_missing_section() {
    assert!(append_to_section(EMPTY, "Нет такой", "x").is_err());
}

#[test]
fn pipes_escaped_in_cells() {
    assert_eq!(cell("a | b"), "a \\| b");
}

#[test]
fn normalize_collapses_blank_runs_outside_code() {
    assert_eq!(normalize("a\n\n\n\nb\n", Headings::Shift, 3), "a\n\nb");
    assert_eq!(
        normalize("```\nx\n\n\n\ny\n```\n\n\nz", Headings::Shift, 3),
        "```\nx\n\n\n\ny\n```\n\nz"
    );
}
