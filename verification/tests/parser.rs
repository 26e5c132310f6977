use comments_toolkit::models::{CommentData, StampParseError};
use comments_toolkit::parser::parse_file;
use comments_toolkit::source_code_replacer::with_multiple_added_content_at;
use std::io::{BufRead, BufReader};

fn lines_of(text: &str) -> Vec<String> {
    BufReader::new(text.as_bytes())
        .lines()
        .map_while(Result::ok)
        .collect()
}

fn parse_file_helper(file_contents: &str) -> Vec<CommentData> {
    parse_file("a_random_file.js", &lines_of(file_contents)).expect("no stamp stops the parser")
}

#[test]
fn insert_hashes_at_stamp_end_position() {
    let file_contents = "//This is a comment ```comments-2.0 1```
console.log(`hello world`);
";
    let result = parse_file_helper(file_contents);

    assert_eq!(result.len(), 1);
    let comment = &result[0];

    // Verify we have stamp_end set
    assert!(comment.stamp_end.is_some());
    let stamp_end = comment.stamp_end.as_ref().unwrap();

    // Generate the hashes to insert
    let comment_hash = comment.hash_comment();
    let code_hash = comment.hash_code();
    let hashes_to_insert = format!(" {} {}", comment_hash, code_hash);

    // Use with_multiple_added_content_at to insert the hashes
    let modified_content = with_multiple_added_content_at(
        &lines_of(file_contents),
        vec![(
            stamp_end.row - 1,
            stamp_end.column,
            hashes_to_insert.as_str(),
        )],
    )
    .expect("Should successfully insert hashes");

    println!("Unmodified:\n{}", file_contents);
    println!("Modified:\n{}", modified_content);

    // Verify the hashes were inserted correctly
    let modified_line = modified_content.lines().next().unwrap();
    assert!(modified_line.contains(&comment_hash));
    assert!(modified_line.contains(&code_hash));

    // Verify the format is correct: ```comments-2.0 1 COMMENT_HASH CODE_HASH```
    let expected_stamp = format!("```comments-2.0 1 {} {}```", comment_hash, code_hash);
    assert!(modified_line.contains(&expected_stamp));

    // Verify the rest of the line is unchanged
    assert!(modified_line.starts_with("//This is a comment"));
    assert!(modified_line.ends_with("```"));
}

#[test]
fn find_correct_insert_position_for_stamp_hashes() {
    let file_contents = "//This is a comment ```comments-2.0 1```
console.log(`hello world`);
";
    let result = parse_file_helper(file_contents);

    assert_eq!(result.len(), 1);
    let comment = &result[0];

    // This comment should have parse error for missing hashes
    assert!(comment.parse_error.is_some());
    assert_eq!(
        comment.parse_error,
        Some(StampParseError::StampWithoutHashes)
    );

    assert!(
        comment.stamp_end.is_some(),
        "The stamp_end should be set to where we need to insert hashes."
    );
    let stamp_end = comment.stamp_end.as_ref().unwrap();
    let expected_insert_position = file_contents.find("1```").unwrap() + 1;

    // Verify the position is correct
    let line = file_contents.lines().next().unwrap();
    assert_eq!(
        &line[expected_insert_position..expected_insert_position + 3],
        "```"
    );
    assert_eq!(
        &line[expected_insert_position - 1..expected_insert_position],
        "1"
    );

    // Verify stamp_end matches our expected position
    assert_eq!(stamp_end.row, 1);
    assert_eq!(stamp_end.column as usize, expected_insert_position);

    println!(
        "Insert position from stamp_end: row {}, col {}",
        stamp_end.row, stamp_end.column
    );
    println!("Should insert hashes between '1' and '```'");
}

#[test]
fn happy_path_single_line_comment() {
    let file_contents = "//this is a comment ```comments-2.0 1```
console.log(`hello world`);
";
    let result = parse_file_helper(file_contents);

    let all_have_file = result.iter().all(|comments| !comments.file.is_empty());
    assert!(all_have_file);
    assert_eq!(result.len(), 1);
}

#[test]
fn happy_path_group_of_single_line_comments() {
    let file_contents = "//this is a group of single line comments
//that continues to the next line ```comments-2.0 1 8584938990732183766 8584938990732183766```
console.log(`hello world`);
";

    let result = parse_file_helper(file_contents);

    assert_eq!(result.len(), 1);
    let comment = result.get(0);
    assert!(comment.is_some());
    assert!(comment
        .unwrap()
        .raw_contents
        .contains("that continues to the next line"));
}

#[test]
fn comment_that_refs_zero_lines_is_ignored() {
    let file_contents = "//intentionally unstamped ```comments-2.0 0```
code that should not be captured";

    let result = parse_file_helper(file_contents);

    assert!(result.len() == 1);
    assert_eq!(result[0].lines_of_code_referenced, 0);
    assert!(result[0].should_be_ignored == true);
    assert!(result[0].code_it_refers_to.is_empty());
}

#[test]
fn location_tracking_is_accurate() {
    let file_contents = "
//comment on line 2 ```comments-2.0 1 12406043342562534191 12406043342562534191```
    code with indent on line 3
";

    let result = parse_file_helper(file_contents);
    assert!(result.len() == 1);
    assert_eq!(result[0].comment_location.start.row, 2);
    assert_eq!(result[0].comment_location.start.column, 0);
    assert_eq!(result[0].comment_location.end.row, 2);
}

#[test]
fn consecutive_ultiline_comments_are_grouped() {
    let file_contents = "/* comment 1 */
/* comment 2 ```comments-2.0 1``` */
code";

    let result = parse_file_helper(file_contents);

    assert_eq!(result.len(), 1);
}

#[test]
fn can_detect_multiline_comments() {
    let file_contents = "/*
this is a multiline comment
that expands to multiple lines
```comments-2.0 1 5210024978214657710 5210024978214657710``` 
*/
console.log(`hello world`);
";

    let result = parse_file_helper(file_contents);

    assert_eq!(result.len(), 1);
    let comment = result.get(0);
    assert!(comment.is_some());
    assert!(comment
        .unwrap()
        .raw_contents
        .contains("that expands to multiple lines"));
}

#[test]
fn can_handle_all_types_of_comments() {
    let file_contents = "// single line comment ```comments-2.0 1```
console.log(`hello world`)

//group of single line comments
//that should be considered one ```comments-2.0 2 5797501905077812981 5797501905077812981```
console.log(`Line 1`)
console.log(`Line 2`)

/* a multiline comment
that has many more lines
and it doesnt end really

```comments-2.0 2 7754354514631241609 7754354514631241609```
*/
console.log(`Line 3`)
console.log(`Line 4`)
";

    let result = parse_file_helper(file_contents);

    assert_eq!(result.len(), 3);

    for comment in result {
        println!("Comment: {}", &comment.code_it_refers_to);
        let _has_code =
            comment.lines_of_code_referenced > 0 && comment.code_it_refers_to.len() > 0;
        let has_comment = comment.raw_contents.len() > 0;
        let has_file_path = comment.file.len() > 0;
        assert!(has_comment && has_file_path);
    }
}

#[test]
fn ignores_inline_comments() {
    let file_contents = "console.log(`Hello World`); //this prints hello world to the console";
    let extra_example = "console.log(/* args: */ `Hello World`);";
    let result = parse_file_helper(file_contents);

    let result_for_comment_inside_code = parse_file_helper(extra_example);

    assert!(result_for_comment_inside_code.len() == 0);
    assert!(result.len() == 0);
}

#[test]
fn empty_comments_should_be_detected() {
    let file_contents = "// single line comment ```comments-2.0 1```
console.log(`hello world`)

//group of single line comments
//that should be considered one ```comments-2.0 2 5797501905077812981 5797501905077812981```
console.log(`Line 1`)
console.log(`Line 2`)

/* a multiline comment
that has many more lines
and it doesnt end really

```comments-2.0 2 7754354514631241609 7754354514631241609```
*/
console.log(`Line 3`)
console.log(`Line 4`)

//
";

    let result = parse_file_helper(file_contents);
    assert_eq!(result.len(), 4);
    assert!(result.iter().all(|comment| comment.raw_contents.len() > 0));
}
