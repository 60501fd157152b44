use litstore::store::{process_command, Store};
use litstore::value::{text_value, Value};

#[test]
fn test_delete_existing_key() {
    let mut store = Store::new();
    store.insert("key1", text_value("value1"));
    let history = Vec::new();
    let output = process_command(&mut store, "delete key1", &history);
    assert_eq!(output, "Key 'key1' deleted.");
    assert!(!store.contains_key("key1"));
}

#[test]
fn test_delete_nonexistent_key() {
    let mut store = Store::new();
    let history = Vec::new();
    let output = process_command(&mut store, "delete key2", &history);
    assert_eq!(output, "Error: Key 'key2' was not found.");
}

#[test]
fn test_delete_missing_argument() {
    let mut store = Store::new();
    let history = Vec::new();
    let output = process_command(&mut store, "delete", &history);
    assert_eq!(
        output,
        "Error: The 'delete' command requires <key>.\nUsage: delete <key>"
    );
}

#[test]
fn test_update_existing_key() {
    let mut store = Store::new();
    store.insert("key1", text_value("old_value"));
    let history = Vec::new();
    let output = process_command(&mut store, "update key1 \"new_value\"", &history);
    assert_eq!(
        output,
        "Updated key 'key1' with new value 'String(\"new_value\")'"
    );
    assert_eq!(store.get("key1"), Some(&text_value("new_value")));
}

#[test]
fn test_update_nonexistent_key() {
    let mut store = Store::new();
    let history = Vec::new();
    let output = process_command(&mut store, "update key2 100", &history);
    assert_eq!(output, "Error: Key 'key2' does not exist.");
}

#[test]
fn test_update_missing_arguments() {
    let mut store = Store::new();
    let history = Vec::new();
    let output = process_command(&mut store, "update key3", &history);
    assert_eq!(
        output,
        "Error: The 'update' command requires <new_value>.\nUsage: update <key> <new_value>"
    );
}

#[test]
fn test_list_empty_store() {
    let mut store = Store::new();
    let history = Vec::new();
    let output = process_command(&mut store, "list", &history);
    assert_eq!(output, "Store is empty.");
}

#[test]
fn test_list_with_keys() {
    let mut store = Store::new();
    store.insert("key1", text_value("value1"));
    store.insert("key2", Value::Integer(42));
    let history = Vec::new();
    let output = process_command(&mut store, "list", &history);
    assert_eq!(output, "Keys: key1, key2");
}

#[test]
fn test_list_with_extra_arguments() {
    let mut store = Store::new();
    let history = Vec::new();
    let output = process_command(&mut store, "list extra_arg", &history);
    assert_eq!(
        output,
        "Error: The 'list' command does not take any arguments.\nUsage: list"
    );
}

#[test]
fn test_help_command() {
    let mut store = Store::new();
    let history = Vec::new();
    let output = process_command(&mut store, "help", &history);
    let expected_output = "Available commands:\n\
                            - set <key> <value>: Sets a key-value pair in the store.\n\
                            - get <key>: Retrieves the value for the specified key.\n\
                            - delete <key>: Removes the specified key from the store.\n\
                            - update <key> <new_value>: Updates the value of an existing key.\n\
                            - list: Lists all keys currently in the store.\n\
                            - history: Displays the history of executed commands.\n\
                            - help: Displays available commands and their descriptions.\n\
                            - exit: Exits the program.";
    assert_eq!(output, expected_output);
}

#[test]
fn test_help_with_extra_arguments() {
    let mut store = Store::new();
    let history = Vec::new();
    let output = process_command(&mut store, "help extra_arg", &history);
    assert_eq!(
        output,
        "Error: The 'help' command does not take any arguments.\nUsage: help"
    );
}

#[test]
fn test_history_empty() {
    let mut store = Store::new();
    let history = Vec::new();
    let output = process_command(&mut store, "history", &history);
    assert_eq!(output, "No commands in history.");
}

#[test]
fn test_history_with_commands() {
    let mut store = Store::new();
    let mut history = Vec::new();
    history.push("set key1 \"value1\"".to_string());
    history.push("get key1".to_string());
    let output = process_command(&mut store, "history", &history);
    let expected_output = "Command History:\n1: set key1 \"value1\"\n2: get key1";
    assert_eq!(output, expected_output);
}

#[test]
fn test_history_with_extra_arguments() {
    let mut store = Store::new();
    let history = Vec::new();
    let output = process_command(&mut store, "history extra_arg", &history);
    assert_eq!(
        output,
        "Error: The 'history' command does not take any arguments.\nUsage: history"
    );
}

#[test]
fn test_unknown_command() {
    let mut store = Store::new();
    let history = Vec::new();
    let output = process_command(&mut store, "unknown_cmd", &history);
    assert_eq!(
        output,
        "Error: Unknown command 'unknown_cmd'.\nUse 'help' to see available commands."
    );
}

#[test]
fn test_empty_input() {
    let mut store = Store::new();
    let history = Vec::new();
    let output = process_command(&mut store, "", &history);
    assert_eq!(
        output,
        "Error: Please enter a command.\nUse 'help' to see available commands."
    );
}

#[test]
fn test_set_and_get_integer() {
    let mut store = Store::new();
    let history = Vec::new();
    let output_set = process_command(&mut store, "set age 30", &history);
    assert_eq!(output_set, "Set key 'age' with value 'Integer(30)'");
    let output_get = process_command(&mut store, "get age", &history);
    assert_eq!(output_get, "Value for key 'age': 'Integer(30)'");
}

#[test]
fn test_set_and_get_boolean() {
    let mut store = Store::new();
    let history = Vec::new();
    let output_set = process_command(&mut store, "set is_active true", &history);
    assert_eq!(output_set, "Set key 'is_active' with value 'Boolean(true)'");
    let output_get = process_command(&mut store, "get is_active", &history);
    assert_eq!(output_get, "Value for key 'is_active': 'Boolean(true)'");
}

#[test]
fn test_set_and_get_string() {
    let mut store = Store::new();
    let history = Vec::new();
    let output_set = process_command(&mut store, "set greeting \"Hello\"", &history);
    assert_eq!(output_set, "Set key 'greeting' with value 'String(\"Hello\")'");
    let output_get = process_command(&mut store, "get greeting", &history);
    assert_eq!(output_get, "Value for key 'greeting': 'String(\"Hello\")'");
}
