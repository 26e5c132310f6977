use comments_toolkit::models::CommentData;
use comments_toolkit::violations::CommentIntegrityRuleViolations;
use comments_toolkit::violations::CommentIntegrityRuleViolations::{
    CodeChangedCommentNot, CommentDoesNotReferenceSpecificCode, DependsOnCommentThatChanged,
    ParseErrorThatShouldBeFixed,
};
use comments_toolkit::violations::ViolationChecker;
use comments_toolkit::violations::ViolationLevel::{Error, Note, Warning};

fn default_checker() -> ViolationChecker {
    ViolationChecker::default()
}

fn update_hashes_like_parsed(mut cm: CommentData) -> CommentData {
    cm.code_hash_parsed = cm.hash_code();
    cm.comment_hash_parsed = cm.hash_comment();
    return cm;
}

fn normal_comment_with(comment: &str, code: &str) -> CommentData {
    let mut cm = CommentData::empty();
    let _ = cm.push_comment(comment);
    let _ = cm.push_code(code);
    let mut cm = update_hashes_like_parsed(cm);
    cm.parse_error = None;
    return cm;
}

#[test]
fn if_it_does_not_reference_specific_code() {
    let mut cm = CommentData::empty();
    cm.file = "hello.js".to_string();
    let _ = cm.push_comment("//Hello World");
    let _ = cm.push_code("console.log(`Hello World`)");
    let result = default_checker()
        .get_violation(&cm)
        .expect("Should produce violation when not referencing specific code");
    let expected = CommentIntegrityRuleViolations::CommentDoesNotReferenceSpecificCode;

    assert_eq!(result.violation, expected);
}

#[test]
fn if_changed_code_is_not_regenerated() {
    let mut cm = CommentData::empty();
    let _ = cm.push_comment("//Hello World ```comments-2.0 1```");
    let _ = cm.push_code("console.log(`Hello World`)");
    let mut cm = update_hashes_like_parsed(cm);
    let _ = cm.push_code("console.log(`Hello World 2`)");
    //We need to set it to none, as we dont have the hashes yet and the parser correctly
    //detects a parse error which is later used in the calculation of the violation
    cm.parse_error = None;
    let result = default_checker().get_violation(&cm).expect(
        "Should produce violation when code is changed without the comment being changed",
    );
    let expected = CommentIntegrityRuleViolations::CodeChangedCommentNot;

    assert_eq!(result.violation, expected);
}

#[test]
fn if_changed_comment_is_not_regenerated() {
    let mut cm = CommentData::empty();
    let _ = cm.push_comment("//Hello World ```comments-2.0 1```");
    let _ = cm.push_code("console.log(`Hello World`)");
    let mut cm = update_hashes_like_parsed(cm);
    let _ = cm.push_comment("//Hello world some more comment");
    //We need to set it to none, as we dont have the hashes yet and the parser correctly
    //detects a parse error which is later used in the calculation of the violation
    cm.parse_error = None;
    let result = default_checker().get_violation(&cm).expect(
        "Should produce violation when code is changed without the comment being changed",
    );
    let expected = CommentIntegrityRuleViolations::CommentHashNotRegenerated;

    assert_eq!(result.violation, expected);
}

#[test]
fn if_comment_dependency_changes_comment() {
    let mut cm_to_depend_on = normal_comment_with(
        "//Hello World ```comments-2.0 1```",
        "console.log(`Hello World`)",
    );
    let id_of_comment_depended_on = 14;
    cm_to_depend_on.id = id_of_comment_depended_on;
    let cm_previous_hash = cm_to_depend_on.comment_hash_parsed.clone();
    let _ = cm_to_depend_on.push_comment("the edge case of 0 should be handled by caller");
    let cm_to_depend_on = update_hashes_like_parsed(cm_to_depend_on);

    let comment_text = format!(
        "//depends on Hello World impl ```comments-2.0 1 {}-{}```",
        id_of_comment_depended_on, cm_previous_hash
    );
    let dependant_cm = normal_comment_with(&comment_text, "console.log(hello_world())");

    let input = vec![cm_to_depend_on, dependant_cm];
    let result = default_checker().generate_violations_from_comments(&input);
    println!("{:?}", result);
    assert_eq!(result.len(), 1);
    assert_eq!(
        result[0].violation,
        CommentIntegrityRuleViolations::DependsOnCommentThatChanged
    );
}

//there is a slight difference between the comment that doesnt exist
//and the comment that was deleted, but to detect deletion we need a
//previous snapshot somehow and that is not implemented yet(and therefore a separate test)
#[test]
fn if_comment_dependency_is_nonexistent() {
    let mut cm_to_depend_on_but_not_added_in_check = normal_comment_with(
        "//Hello World ```comments-2.0 1```",
        "console.log(`Hello World`)",
    );
    let id_of_comment_depended_on = 14;
    cm_to_depend_on_but_not_added_in_check.id = id_of_comment_depended_on;
    let cm_hash = cm_to_depend_on_but_not_added_in_check
        .comment_hash_parsed
        .clone();
    let comment_text = format!(
        "//depends on Hello World impl ```comments-2.0 1 {}-{}```",
        id_of_comment_depended_on, cm_hash
    );
    let dependant_cm = normal_comment_with(&comment_text, "console.log(hello_world())");

    let input = vec![dependant_cm];
    let result = default_checker().generate_violations_from_comments(&input);
    assert_eq!(result.len(), 1);
    assert_eq!(
        result[0].violation,
        CommentIntegrityRuleViolations::DependsOnCommentThatDoesntExist
    );
}

#[test]
fn if_it_depends_on_up_to_date_comments() {
    let mut cm_to_depend_on = normal_comment_with(
        "//Hello World ```comments-2.0 1```",
        "console.log(`Hello World`)",
    );
    let id_of_comment_depended_on = 14;
    cm_to_depend_on.id = id_of_comment_depended_on;
    let cm_hash = cm_to_depend_on.comment_hash_parsed.clone();
    let comment_text = format!(
        "//depends on Hello World impl ```comments-2.0 1 {}-{}```",
        id_of_comment_depended_on, cm_hash
    );
    let dependant_cm = normal_comment_with(&comment_text, "console.log(hello_world())");

    let input = vec![cm_to_depend_on, dependant_cm];
    let result = default_checker().generate_violations_from_comments(&input);
    assert_eq!(result.len(), 0);
}

//this test is basically the happy path
#[test]
fn if_it_has_not_changed_code_or_comment() {
    let mut cm = CommentData::empty();
    let _ = cm.push_comment("//Hello World ```comments-2.0 1```");
    let _ = cm.push_code("console.log(`Hello World`)");
    let mut cm = update_hashes_like_parsed(cm);
    cm.parse_error = None;

    let result = default_checker().get_violation(&cm);

    assert!(result.is_none());
}

#[test]
fn if_the_user_wants_to_ignore_it() {
    let mut cm = CommentData::empty();
    let _ = cm.push_comment("//Hello World ```comments-2.0 1```");
    let _ = cm.push_code("console.log(`Hello World`)");
    let mut cm = update_hashes_like_parsed(cm);
    let _ = cm.push_code("console.log(`Hello World 2`)");
    cm.parse_error = None;

    cm.should_be_ignored = true;

    let result = default_checker().get_violation(&cm);

    assert!(result.is_none());
}

// a config where everything keeps its default EXCEPT
// code-changed-comment-not, flipped from its default Error to notice
fn config_with_overridden_code_changed() -> &'static str {
    "\
comment-does-not-reference-specific-code = warning
parse-error-that-should-be-fixed = error
code-changed-comment-not = notice
comment-hash-not-regenerated = warning
comment-that-others-depend-on-changed = error
comment-that-others-depend-on-deleted = error
depends-on-comment-that-doesnt-exist = error
depends-on-comment-that-changed = error
"
}

#[test]
fn default_config_has_expected_levels() {
    let checker = ViolationChecker::default();
    // the ones that must stay Error (they drive exit-code FAILURE)
    assert_eq!(checker.config.level_of(CodeChangedCommentNot), Error);
    assert_eq!(checker.config.level_of(ParseErrorThatShouldBeFixed), Error);
    assert_eq!(checker.config.level_of(DependsOnCommentThatChanged), Error);
    assert_eq!(
        checker.config.level_of(CommentDoesNotReferenceSpecificCode),
        Warning
    );
}

#[test]
fn changed_code_uses_overridden_level_from_file() {
    let contents = config_with_overridden_code_changed();
    let checker = ViolationChecker::with_config_file("comments_config.txt".to_string(), contents)
        .expect("config should load");

    // same setup as the detection test: produces CodeChangedCommentNot
    let mut cm = CommentData::empty();
    let _ = cm.push_comment("//Hello World ```comments-2.0 1```");
    let _ = cm.push_code("console.log(`Hello World`)");
    let mut cm = update_hashes_like_parsed(cm);
    let _ = cm.push_code("console.log(`Hello World 2`)");
    cm.parse_error = None;

    let violation = checker
        .get_violation(&cm)
        .expect("should produce a violation");

    // sanity: it's the variant we overrode
    assert_eq!(violation.violation, CodeChangedCommentNot);

    // the point: file says notice, default would have been Error
    let level = checker.config.level_of(violation.violation);
    assert_eq!(level, Note);
    assert_ne!(level, Error); // proves it's not the default
}
