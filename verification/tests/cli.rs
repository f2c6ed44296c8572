use srelog::cli::{add_block, join_inputs, Cli};
use srelog::md::Headings;
use srelog::notes;

fn cli(args: &[&str]) -> Result<Cli, String> {
    Cli::parse(args.iter().map(|s| s.to_string()).collect())
}

#[test]
fn plain_command() {
    let c = cli(&["index"]).unwrap();
    assert_eq!(c.cmd.as_deref(), Some("index"));
    assert!(c.args.is_empty());
    assert_eq!(c.headings, Headings::Shift);
}

#[test]
fn section_is_positional() {
    let c = cli(&["add", "находки"]).unwrap();
    assert_eq!(c.cmd.as_deref(), Some("add"));
    assert_eq!(c.args, vec!["находки"]);
}

#[test]
fn options_with_space_and_equals() {
    let c = cli(&["--root", "/n", "add", "итог", "-d", "2026-09-01"]).unwrap();
    assert_eq!(c.root, Some("/n".to_string()));
    assert_eq!(c.args, vec!["итог"]);
    assert_eq!(c.date_opt.as_deref(), Some("2026-09-01"));

    let c = cli(&["add", "--root=/n", "--headings=bold", "--no-sync"]).unwrap();
    assert_eq!(c.root, Some("/n".to_string()));
    assert_eq!(c.headings, Headings::Bold);
    assert!(c.no_sync);
}

#[test]
fn files_accumulate() {
    let c = cli(&["add", "-f", "a.md", "--file", "b.md"]).unwrap();
    assert_eq!(c.files, vec!["a.md".to_string(), "b.md".to_string()]);
}

#[test]
fn errors_are_reported() {
    assert!(cli(&["--root"]).is_err());
    assert!(cli(&["add", "--headings", "wat"]).is_err());
    assert!(cli(&["add", "--nope"]).is_err());
}

#[test]
fn date_defaults_to_today() {
    let c = cli(&["add"]).unwrap();
    assert_eq!(c.date().unwrap(), notes::today());
    let c = cli(&["add", "-d", "2026-9-1"]).unwrap();
    assert!(c.date().is_err());
}

#[test]
fn option_errors_name_the_option() {
    assert_eq!(cli(&["--root"]).err().unwrap(), "--root требует значение");
    assert_eq!(
        cli(&["add", "--headings", "wat"]).err().unwrap(),
        "--headings принимает shift, bold или strip, а не `wat`"
    );
    assert_eq!(
        cli(&["add", "--nope=1"]).err().unwrap(),
        "неизвестная опция `--nope`"
    );
    // до команды незнакомое слово с дефисом — сама команда
    assert_eq!(cli(&["-x"]).unwrap().cmd.as_deref(), Some("-x"));
    // короткая опция через `=` значения не берёт: им становится следующий аргумент
    let c = cli(&["add", "-t=x", "заголовок"]).unwrap();
    assert_eq!(c.title.as_deref(), Some("заголовок"));
}

#[test]
fn add_block_wraps_title() {
    assert_eq!(
        add_block("# Верхний\n\nтекст\n", Some("Разбор"), Headings::Shift).unwrap(),
        "### Разбор\n\n#### Верхний\n\nтекст"
    );
    assert_eq!(
        add_block("---\na: 1\n---\n", Some("Пусто"), Headings::Shift).unwrap(),
        "### Пусто"
    );
    assert_eq!(
        add_block("# Верхний\n\nтекст\n", None, Headings::Shift).unwrap(),
        "### Верхний\n\nтекст"
    );
    assert_eq!(
        add_block(" \n\t\n", None, Headings::Shift).unwrap_err(),
        "пустой ввод, нечего добавлять"
    );
}

#[test]
fn add_defaults_to_findings() {
    assert_eq!(cli(&["add"]).unwrap().section_query(), "находки");
    assert_eq!(cli(&["add", "итог"]).unwrap().section_query(), "итог");
}

#[test]
fn shift_takes_positional_date() {
    let c = cli(&["shift", "2026-09-03", "-d", "2026-09-01"]).unwrap();
    assert_eq!(c.shift_date().unwrap(), "2026-09-03");
    let c = cli(&["shift", "2026-9-3"]).unwrap();
    assert_eq!(
        c.shift_date().unwrap_err(),
        "дата должна быть YYYY-MM-DD, а не `2026-9-3`"
    );
    let c = cli(&["shift", "-d", "2026-09-01"]).unwrap();
    assert_eq!(c.shift_date().unwrap(), "2026-09-01");
}

#[test]
fn inputs_joined_by_blank_line() {
    assert_eq!(join_inputs(&vec!["a\n".to_string(), "b".to_string()]), "a\n\n\nb");
    assert_eq!(join_inputs(&vec!["one".to_string()]), "one");
    assert_eq!(join_inputs(&Vec::new()), "");
}
