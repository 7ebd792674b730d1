use daybook::day::{create_todo_item, load_day_data, save_day_data, DayData};
use daybook::migrate::{
    count_events, merge_events_into_day, migration_empty, migration_not_needed,
    migration_summary_message, parse_legacy_events,
};

#[test]
fn test_migrate_calendar_events_no_file() {
    // with no legacy file the caller makes no filesystem change and
    // reports this outcome
    let message = migration_not_needed();
    assert!(message.contains("migration not needed"));
}

#[test]
fn test_migrate_calendar_events_empty_file() {
    // an empty map still gets retired: the caller renames the file and
    // reports the dedicated outcome
    let entries = parse_legacy_events("{}").unwrap();
    assert!(entries.is_empty());
    assert!(migration_empty().contains("empty"));
}

#[test]
fn test_migrate_calendar_events_to_new_todos() {
    let legacy = "{\"2024-01-15\": [\"Meeting at 2pm\", \"Call dentist\"], \
                  \"2024-01-16\": [\"Submit report\"]}";
    let entries = parse_legacy_events(legacy).unwrap();
    assert_eq!(entries.len(), 2);

    // run the per-date merges against empty days, as the driver would
    let mut contents: Vec<(String, String)> = Vec::new();
    for (date_key, events) in &entries {
        let day = merge_events_into_day(date_key, None, events).unwrap();
        contents.push((date_key.clone(), save_day_data(&day)));
    }

    let message = migration_summary_message(count_events(&entries), entries.len());
    assert!(message.contains("3 calendar events"));
    assert!(message.contains("2 days"));
    assert!(message.contains("calendar_events.json.backup"));

    let day_data = load_day_data("2024-01-15", Some(&contents[0].1)).unwrap();
    assert_eq!(day_data.todos.len(), 2);
    assert_eq!(day_data.todos[0].text, "Meeting at 2pm");
    assert_eq!(day_data.todos[1].text, "Call dentist");
    assert!(!day_data.todos[0].completed);
    assert!(!day_data.todos[1].completed);

    let day_data2 = load_day_data("2024-01-16", Some(&contents[1].1)).unwrap();
    assert_eq!(day_data2.todos.len(), 1);
    assert_eq!(day_data2.todos[0].text, "Submit report");
}

#[test]
fn test_migrate_calendar_events_merge_with_existing_todos() {
    let mut existing_todo = create_todo_item("Existing todo".to_string());
    existing_todo.completed = true;
    let existing_day = DayData {
        date: daybook::date::Date { year: 2024, month: 1, day: 15 },
        todos: vec![existing_todo],
        notes: "Existing notes".to_string(),
    };
    let existing_content = save_day_data(&existing_day);

    let legacy = "{\"2024-01-15\": [\"Calendar event 1\", \"Calendar event 2\"]}";
    let entries = parse_legacy_events(legacy).unwrap();
    assert_eq!(entries.len(), 1);

    let merged =
        merge_events_into_day(&entries[0].0, Some(&existing_content), &entries[0].1).unwrap();
    let content = save_day_data(&merged);
    let day_data = load_day_data("2024-01-15", Some(&content)).unwrap();

    assert_eq!(day_data.todos.len(), 3);
    // calendar events come first, in their original order
    assert_eq!(day_data.todos[0].text, "Calendar event 1");
    assert_eq!(day_data.todos[1].text, "Calendar event 2");
    // the existing todo comes last, untouched
    assert_eq!(day_data.todos[2].text, "Existing todo");
    assert!(day_data.todos[2].completed);
    assert_eq!(day_data.notes, "Existing notes");
}

#[test]
fn test_migrate_invalid_date_key_aborts() {
    let entries = parse_legacy_events("{\"not-a-date\": [\"E1\"]}").unwrap();
    let r = merge_events_into_day(&entries[0].0, None, &entries[0].1);
    assert!(r.is_err());
    let message = r.unwrap_err().message();
    // the error names the offending key
    assert!(message.contains("Invalid date format in calendar events: not-a-date"));
}

#[test]
fn test_migrate_rejects_corrupt_legacy_file() {
    assert!(parse_legacy_events("{\"2024-01-15\": [1, 2]}").is_err());
    assert!(parse_legacy_events("{\"2024-01-15\": \"not a list\"}").is_err());
    assert!(parse_legacy_events("nonsense").is_err());
    assert!(parse_legacy_events("[]").is_err());
    let e = parse_legacy_events("[]").unwrap_err();
    assert!(e.message().contains("Failed to parse calendar events"));
}

#[test]
fn test_migrate_rejects_corrupt_day_file() {
    let entries = parse_legacy_events("{\"2024-01-15\": [\"E1\"]}").unwrap();
    let r = merge_events_into_day(&entries[0].0, Some("broken"), &entries[0].1);
    assert!(r.is_err());
}

#[test]
fn test_migration_summary_counts() {
    let message = migration_summary_message(1, 1);
    assert!(message.contains("1 calendar events"));
    assert!(message.contains("1 days"));
    let message = migration_summary_message(120, 17);
    assert!(message.contains("120 calendar events"));
    assert!(message.contains("17 days"));
}
