use daybook::date::Date;
use daybook::day::{create_todo_item, day_file_name, load_day_data, save_day_data, DayData};

fn date(y: u32, m: u32, d: u32) -> Date {
    Date { year: y, month: m, day: d }
}

#[test]
fn test_create_todo_item() {
    let text = "Test todo item".to_string();
    let todo = create_todo_item(text.clone());

    assert_eq!(todo.text, text);
    assert!(!todo.completed);
    assert!(!todo.move_to_next_day);
    assert!(!todo.id.is_empty());
    assert!(uuid::Uuid::parse_str(&todo.id).is_ok());
    assert_eq!(todo.notes, "");
}

#[test]
fn test_save_and_load_day_data() {
    let d = date(2024, 1, 15);
    let todo = create_todo_item("Test todo".to_string());
    let todo_id = todo.id.clone();
    let todo_text = todo.text.clone();

    let day_data = DayData { date: d, todos: vec![todo], notes: "Test notes".to_string() };
    let content = save_day_data(&day_data);

    let loaded = load_day_data("2024-01-15", Some(&content)).unwrap();
    assert_eq!(loaded.date, d);
    assert_eq!(loaded.notes, "Test notes");
    assert_eq!(loaded.todos.len(), 1);
    assert_eq!(loaded.todos[0].text, todo_text);
    assert_eq!(loaded.todos[0].id, todo_id);
}

#[test]
fn test_load_nonexistent_day_data() {
    let loaded = load_day_data("2024-01-15", None).unwrap();
    assert_eq!(loaded.date, date(2024, 1, 15));
    assert!(loaded.todos.is_empty());
    assert!(loaded.notes.is_empty());
}

#[test]
fn test_invalid_date_format() {
    let result = load_day_data("invalid-date", None);
    assert!(result.is_err());
    assert!(result.unwrap_err().message().contains("Invalid date format"));
}

#[test]
fn test_save_day_data_creates_file() {
    let d = date(2024, 1, 15);
    let day_data = DayData { date: d, todos: vec![], notes: "Test".to_string() };

    let content = save_day_data(&day_data);
    assert!(!content.is_empty());
    // the record's backing file is named after its date
    assert_eq!(day_file_name(&d), "2024-01-15.json");
}

#[test]
fn test_todo_item_serialization() {
    // the canonical content must be real JSON: an independent JSON
    // implementation reads the very fields back
    let todo = create_todo_item("Test".to_string());
    let day = DayData { date: date(2024, 1, 15), todos: vec![todo], notes: String::new() };
    let content = save_day_data(&day);

    let parsed: serde_json::Value = serde_json::from_str(&content).unwrap();
    let t = &parsed["todos"][0];
    assert_eq!(t["text"], "Test");
    assert_eq!(t["completed"], false);
    assert_eq!(t["move_to_next_day"], false);
    assert_eq!(t["notes"], "");
    assert_eq!(t["id"].as_str().unwrap(), day.todos[0].id);
    assert_eq!(t["created_at"].as_str().unwrap(), day.todos[0].created_at);
}

#[test]
fn test_day_data_serialization() {
    let todo = create_todo_item("Test".to_string());
    let day_data =
        DayData { date: date(2024, 1, 15), todos: vec![todo], notes: "Test notes".to_string() };

    let content = save_day_data(&day_data);
    let parsed: serde_json::Value = serde_json::from_str(&content).unwrap();
    assert_eq!(parsed["date"], "2024-01-15");
    assert_eq!(parsed["notes"], "Test notes");
    assert_eq!(parsed["todos"].as_array().unwrap().len(), 1);

    let loaded = load_day_data("2024-01-15", Some(&content)).unwrap();
    assert_eq!(loaded.date, day_data.date);
    assert_eq!(loaded.notes, day_data.notes);
    assert_eq!(loaded.todos.len(), 1);
}

#[test]
fn test_todo_item_defaults() {
    let text = "Test todo".to_string();
    let todo = create_todo_item(text.clone());

    assert_eq!(todo.text, text);
    assert!(!todo.completed);
    assert!(!todo.move_to_next_day);
    assert!(!todo.id.is_empty());

    // Verify UUID format
    assert!(uuid::Uuid::parse_str(&todo.id).is_ok());

    // Verify timestamp is recent (within last minute)
    let created = chrono::DateTime::parse_from_rfc3339(&todo.created_at).unwrap();
    let now = chrono::Local::now();
    let time_diff = now.signed_duration_since(&created);
    assert!(time_diff.num_seconds() < 60);
    assert!(time_diff.num_seconds() >= 0);
}

#[test]
fn test_multiple_todos_same_day() {
    let d = date(2024, 1, 15);
    let todo1 = create_todo_item("First todo".to_string());
    let todo2 = create_todo_item("Second todo".to_string());
    let mut todo3 = create_todo_item("Third todo".to_string());
    todo3.completed = true;

    let t1 = todo1.text.clone();
    let t2 = todo2.text.clone();
    let t3 = todo3.text.clone();

    let day_data = DayData {
        date: d,
        todos: vec![todo1, todo2, todo3],
        notes: "Multiple todos test".to_string(),
    };

    let content = save_day_data(&day_data);
    let loaded = load_day_data("2024-01-15", Some(&content)).unwrap();

    assert_eq!(loaded.todos.len(), 3);
    assert_eq!(loaded.todos[0].text, t1);
    assert_eq!(loaded.todos[1].text, t2);
    assert_eq!(loaded.todos[2].text, t3);
    assert!(!loaded.todos[0].completed);
    assert!(!loaded.todos[1].completed);
    assert!(loaded.todos[2].completed);
}

#[test]
fn test_empty_todo_text() {
    let todo = create_todo_item("".to_string());
    assert_eq!(todo.text, "");
    assert!(!todo.id.is_empty());
}

#[test]
fn test_very_long_todo_text() {
    let long_text = "x".repeat(10000);
    let todo = create_todo_item(long_text.clone());
    assert_eq!(todo.text, long_text);

    // and it survives a full round trip through the file format
    let day = DayData { date: date(2024, 1, 15), todos: vec![todo], notes: String::new() };
    let content = save_day_data(&day);
    let loaded = load_day_data("2024-01-15", Some(&content)).unwrap();
    assert_eq!(loaded.todos[0].text, long_text);
}

#[test]
fn test_special_characters_in_todo() {
    let special_text = "Todo with 特殊字符 and émojis 🚀 and \"quotes\" and 'apostrophes'";
    let todo = create_todo_item(special_text.to_string());
    assert_eq!(todo.text, special_text);

    let day = DayData {
        date: date(2024, 1, 15),
        todos: vec![todo],
        notes: "控制\t字符\n".to_string(),
    };
    let content = save_day_data(&day);
    let loaded = load_day_data("2024-01-15", Some(&content)).unwrap();
    assert_eq!(loaded.todos[0].text, special_text);
    assert_eq!(loaded.notes, "控制\t字符\n");
}

#[test]
fn test_two_ids_differ() {
    let a = create_todo_item("a".to_string());
    let b = create_todo_item("b".to_string());
    assert_ne!(a.id, b.id);
}

#[test]
fn test_load_rejects_garbage() {
    let r = load_day_data("2024-01-15", Some("not json at all"));
    assert!(r.unwrap_err().message().contains("Failed to parse JSON"));

    // valid JSON, wrong shape
    let r = load_day_data("2024-01-15", Some("[1, 2, 3]"));
    assert!(r.unwrap_err().message().contains("Failed to parse day data"));

    // missing required member
    let r = load_day_data("2024-01-15", Some("{\"date\": \"2024-01-15\", \"todos\": []}"));
    assert!(r.is_err());

    // bad stored date key
    let r = load_day_data(
        "2024-01-15",
        Some("{\"date\": \"2024-13-15\", \"todos\": [], \"notes\": \"\"}"),
    );
    assert!(r.is_err());

    // bad stored timestamp
    let r = load_day_data(
        "2024-01-15",
        Some(
            "{\"date\": \"2024-01-15\", \"todos\": [{\"id\": \"x\", \"text\": \"t\", \
             \"completed\": false, \"created_at\": \"yesterday\", \"move_to_next_day\": false}], \
             \"notes\": \"\"}",
        ),
    );
    assert!(r.is_err());
}

#[test]
fn test_load_accepts_foreign_formatting() {
    // other JSON writers may reorder members, add whitespace, escape
    // characters and omit the item notes (older records)
    let content = " {\n  \"notes\" : \"day\\u0021\",\n  \"todos\" : [ { \"created_at\": \
                   \"2024-01-15T10:30:00.123+05:30\", \"text\": \"caf\\u00e9 \\ud83d\\ude80\", \
                   \"id\": \"i-1\", \"move_to_next_day\": true, \"completed\": true } ],\n  \
                   \"date\" : \"2024-01-15\"\n} ";
    let loaded = load_day_data("2024-01-15", Some(content)).unwrap();
    assert_eq!(loaded.notes, "day!");
    assert_eq!(loaded.todos.len(), 1);
    assert_eq!(loaded.todos[0].text, "café 🚀");
    assert_eq!(loaded.todos[0].notes, "");
    assert!(loaded.todos[0].completed);
    assert!(loaded.todos[0].move_to_next_day);
}

#[test]
fn test_leap_year_dates() {
    assert!(load_day_data("2024-02-29", None).is_ok());
    assert!(load_day_data("2023-02-29", None).is_err());
    assert!(load_day_data("2000-02-29", None).is_ok());
    assert!(load_day_data("1900-02-29", None).is_err());
    assert!(load_day_data("2024-04-31", None).is_err());
    assert!(load_day_data("2024-00-10", None).is_err());
    assert!(load_day_data("2024-1-15", None).is_err());
}
