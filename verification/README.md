# srelog

Журнал дежурств одной командой: записи смен `oncall/ГГГГ/ГГГГ-ММ-ДД.md`,
собранные из них `INDEX.md` и `BACKLOG.md`, настройки в `srelog.toml`.

Логика журнала написана на Verus и доказана: у каждой функции библиотеки есть
контракт, а свойства, которые связывают несколько функций, стоят отдельными
доказанными леммами `law_*`.

- `src/text.rs` — строки как последовательности символов: обрезка, строки файла,
  склейка, замена.
- `src/md.rs` — разбор и правка записи: фронтматтер, секции, таблица кандидатов
  в бэклог, нормализация добавляемого текста, дописывание в секцию.
- `src/config.rs` — разбор `srelog.toml` и порядок направлений.
- `src/paths.rs` — пути как строки: склейка, компоненты, очистка, предки.
- `src/order.rs` — сортировки путей и строк бэклога.
- `src/notes.rs` — журнал: даты и имена записей, пути, `INDEX.md`, `BACKLOG.md`,
  решения `init`, подсказки про `SRELOG_ROOT`.
- `src/cli.rs` — разбор командной строки и блок для `add`.
- `app/main.rs` — программа `srelog`: диск, окружение, `git` и вывод. Прочитанное она
  передаёт библиотеке, а тексты, пути, отчёты и подсказки берёт у неё; сама программа
  выбирает команду по имени, смотрит, есть ли файлы, и по флагам (`--no-sync`, «запись
  заведена сейчас») решает, пересобирать ли индексы.

Доверенных обёрток три, и каждая только делает свой вызов: дата «сегодня» берётся у
`chrono`, строчные буквы для поиска секций — у `str::to_lowercase`, символ в конец строки
дописывает `String::push`. Их контракты описывают только то, что обещает документация.
