use comments_toolkit::source_code_replacer::with_multiple_added_content_at;
use std::io::{BufRead, BufReader};

fn lines_of(text: &str) -> Vec<String> {
    BufReader::new(text.as_bytes())
        .lines()
        .collect::<Result<_, _>>()
        .expect("in-memory text reads")
}

#[test]
fn content_with_newline_returns_error() {
    let input = "Hello world
This is a test";
    let content_changes = vec![
        (0, 5, " GOOD"),
        (1, 0, "BAD\nCONTENT"), // Contains newline
    ];

    let result = with_multiple_added_content_at(&lines_of(input), content_changes);

    assert!(
        result.is_err(),
        "Should return error for content with newline"
    );
    assert!(
        result.unwrap_err().contains("newline"),
        "Error message should mention newline"
    );
}

#[test]
fn same_row_returns_error() {
    let input = "Hello world
This is a test";
    let content_changes = vec![
        (0, 3, " FIRST"),
        (0, 5, " SECOND"), // Same row as previous
    ];

    let result = with_multiple_added_content_at(&lines_of(input), content_changes);

    assert!(
        result.is_err(),
        "Should return error for duplicate positions"
    );
    assert!(
        result.unwrap_err().contains("Conflict"),
        "Error message should mention conflict"
    );
}

#[test]
fn all_changes_appear_in_result() {
    let input = "Hello world
This is a test
Another line";
    let content_changes = vec![
        (0, 5, " INSERTED"), // Insert after "Hello"
        (1, 0, "PREFIX "),   // Insert at beginning of line 2
        (2, 7, "XXX"),       // Insert in middle of line 3
    ];

    let result = with_multiple_added_content_at(&lines_of(input), content_changes.clone())
        .expect("Function should succeed");

    let any_changes_already_in_old_string =
        content_changes.iter().any(|(_, _, s)| input.contains(s));
    let all_changes_appear_in_new_string =
        content_changes.iter().all(|(_, _, s)| result.contains(s));

    assert!(
        !any_changes_already_in_old_string && all_changes_appear_in_new_string,
        "Result should contain all of the changes added without containing them in the first place"
    );
}

#[test]
fn result_size_equals_input_plus_changes() {
    let input = "Hello world
This is a test
Another line";
    let content_changes = vec![
        (0, 5, " INSERTED"), // Insert after "Hello"
        (1, 0, "PREFIX "),   // Insert at beginning of line 2
        (2, 7, "XXX"),       // Insert in middle of line 3
    ];

    let input_size = input.len();
    let changes_size: usize = content_changes.iter().map(|(_, _, s)| s.len()).sum();
    let expected_size = input_size + changes_size;

    let result = with_multiple_added_content_at(&lines_of(input), content_changes.clone())
        .expect("Function should succeed");
    println!("Input is: {}", input);
    println!("Result is: {}", result);
    assert_eq!(
        result.len(),
        expected_size,
        "Result size should be input size + sum of change lengths + newlines"
    );
}
