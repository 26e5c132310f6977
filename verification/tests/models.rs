use comments_toolkit::models::{CommentData, StampParseError};

fn empty_comment() -> CommentData {
    CommentData::empty()
}

#[test]
fn comment_with_normal_dependencies() {
    let mut cm = empty_comment();
    let _ = cm.push_comment("This is a comment with dependencies ```comments-2.0 1 21332423412312,123123123123 04935783498753948 12349034901840398 ```");
    cm.push_code("console.log(`Hello from dependencied comment`)");
    assert!(cm.parse_error.is_none());
    assert_eq!(cm.lines_of_code_referenced, 1);
    assert_eq!(cm.comment_hash_parsed, "04935783498753948");
    assert_eq!(cm.code_hash_parsed, "12349034901840398");
    assert_eq!(
        cm.dependency_list_parsed,
        vec!["21332423412312", "123123123123"]
    )
}

#[test]
fn comment_with_missing_comma_on_single_dependency() {
    let mut cm = empty_comment();
    let _ = cm.push_comment("This is a comment with dependencies ```comments-2.0 1 21332423412312 04935783498753948 12349034901840398 ```");
    cm.push_code("console.log(`Hello from dependencied comment`)");
    assert!(cm.parse_error.is_none());
    assert_eq!(cm.lines_of_code_referenced, 1);
    assert_eq!(cm.comment_hash_parsed, "04935783498753948");
    assert_eq!(cm.code_hash_parsed, "12349034901840398");
    assert_eq!(cm.dependency_list_parsed, vec!["21332423412312"]);
}

#[test]
fn comment_with_valid_hashes_is_ok() {
    let mut cm = empty_comment();
    let _ = cm.push_comment(
        "This is a comment ```comments-2.0 1 11816667893181836463 11816667893181836463```",
    );
    cm.push_code("console.log(`hello world`);");

    assert!(cm.parse_error.is_none());
    assert_eq!(cm.lines_of_code_referenced, 1);
    assert_eq!(cm.comment_hash_parsed, "11816667893181836463");
    assert_eq!(cm.code_hash_parsed, "11816667893181836463");
    assert!(cm.code_it_refers_to.contains("console.log"));
}

#[test]
fn comment_without_stamp_is_reported() {
    let mut cm = empty_comment();
    let _ = cm.push_comment("a comment without a stamp at all");

    assert!(cm.parse_error.is_some());
    assert_eq!(cm.parse_error.unwrap(), StampParseError::NoStampFound);
}

#[test]
fn comment_without_closing_tag_is_reported() {
    let mut cm = empty_comment();
    let _ = cm.push_comment("a comment without a closing tag ```comments-2.0 2 abc defg");

    assert!(cm.parse_error.is_some());
    assert_eq!(
        cm.parse_error.unwrap(),
        StampParseError::StampWithoutClosingTag
    );
}

#[test]
fn comment_without_any_of_the_hashes_is_reported() {
    let mut cm = empty_comment();
    let _ = cm.push_comment("hello world ```comments-2.0 1```");

    let mut cm2 = empty_comment();
    let _ = cm2.push_comment("hello world ```comments-2.0 1 abc ```");

    assert!(cm.parse_error.is_some());
    assert_eq!(cm.parse_error.unwrap(), StampParseError::StampWithoutHashes);

    assert!(cm2.parse_error.is_some());
    assert_eq!(
        cm2.parse_error.unwrap(),
        StampParseError::StampWithoutCodeHash
    );
}

#[test]
fn comment_with_both_hashes_has_no_parse_error() {
    let mut cm = empty_comment();
    let _ = cm.push_comment("hello world ```comments-2.0 1 abc defg  ```");

    assert!(cm.parse_error.is_none());
}

#[test]
fn multiline_comment_on_same_line_gets_stamp_correctly() {
    let mut cm = empty_comment();
    let _ = cm.push_comment("hello there ```comments-2.0 1 abc defg``` */");

    assert_eq!(cm.comment_hash_parsed, "abc");
    assert_eq!(cm.code_hash_parsed, "defg");
}

#[test]
fn multiline_comment_gets_stamp_correctly() {
    let mut cm = empty_comment();
    let _ = cm.push_comment(
        "
hello world ```comments-2.0 2 abc defg``` 
hello there */
",
    );
    assert_eq!(cm.comment_hash_parsed, "abc");
    assert_eq!(cm.code_hash_parsed, "defg");
}

#[test]
fn single_line_comment_gets_stamp_correctly() {
    let mut cm = empty_comment();
    let _ = cm.push_comment("hello world ```comments-2.0 1 abc defg ```");

    assert_eq!(cm.comment_hash_parsed, "abc");
    assert_eq!(cm.code_hash_parsed, "defg");
}
