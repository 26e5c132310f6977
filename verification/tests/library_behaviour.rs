use comments_toolkit::hashing::hash_words;
use comments_toolkit::source_code_replacer::{collect_hash_insertions_with, hash_pair_text};
use comments_toolkit::storage::comment_record_with;
use comments_toolkit::hashing::hash_text_in_file;
use comments_toolkit::models::{parse_num_list_from_str, CommentData, SourceLocation, StampParseError};
use comments_toolkit::models::HashCheckResult;
use comments_toolkit::parser::parse_file;
use comments_toolkit::program::{
    are_args_valid, group_comments_by_file, help_page, is_allowed_extension, parse_mem_available,
    parse_program_args, position_from_row_col, should_descend_into, split_option_list,
    uses_threads, HELP_PAGE,
};
use comments_toolkit::source_code_replacer::{collect_hash_insertions, with_multiple_added_content_at};
use comments_toolkit::storage::{comment_record, transaction_chunks, SqliteDB};
use comments_toolkit::violations::CommentIntegrityRuleViolations::{
    CodeChangedCommentNot, CommentDoesNotReferenceSpecificCode, CommentHashNotRegenerated,
    DependsOnCommentThatChanged, DependsOnCommentThatDoesntExist, ParseErrorThatShouldBeFixed,
};
use comments_toolkit::violations::{
    determine_exit_code, hash_check_result, CommentIntegrityRuleViolations, ExitStatus,
    RuleViolationOnFile, ViolationChecker, ViolationLevel, ViolationLevelsConfig,
};

fn text_lines(text: &str) -> Vec<String> {
    text.lines().map(|l| l.to_string()).collect()
}

fn stamped(comment: &str, code: &str) -> CommentData {
    let mut cm = CommentData::empty();
    let _ = cm.push_comment(comment);
    cm.push_code(code);
    cm.code_hash_parsed = cm.hash_code();
    cm.comment_hash_parsed = cm.hash_comment();
    cm.parse_error = None;
    cm
}

fn is_decimal(s: &str) -> bool {
    !s.is_empty() && s.chars().all(|c| c.is_ascii_digit())
}

// ---------------------------------------------------------------- insertion

#[test]
fn no_changes_keep_the_text() {
    let lines = text_lines("first line\nsecond line\n\nlast");
    let out = with_multiple_added_content_at(&lines, vec![]).unwrap();
    assert_eq!(out, "first line\nsecond line\n\nlast");
}

#[test]
fn insertion_past_the_line_end_goes_to_its_end() {
    let lines = text_lines("abc\ndef");
    let out = with_multiple_added_content_at(&lines, vec![(0, 100, "XY")]).unwrap();
    assert_eq!(out, "abcXY\ndef");
}

#[test]
fn changes_on_missing_rows_are_ignored() {
    let lines = text_lines("abc\ndef");
    let out = with_multiple_added_content_at(&lines, vec![(7, 0, "lost"), (1, 1, "+")]).unwrap();
    assert_eq!(out, "abc\nd+ef");
}

#[test]
fn insertion_column_counts_bytes() {
    let lines = text_lines("héllo");
    // 'h' is one byte and 'é' two: byte 3 is just after 'é'.
    let out = with_multiple_added_content_at(&lines, vec![(0, 3, "X")]).unwrap();
    assert_eq!(out, "héXllo");
}

#[test]
fn changes_apply_whatever_their_order() {
    let lines = text_lines("aa\nbb\ncc");
    let out = with_multiple_added_content_at(&lines, vec![(2, 1, "3"), (0, 1, "1")]).unwrap();
    assert_eq!(out, "a1a\nbb\nc3c");
}

#[test]
fn newline_error_names_the_position() {
    let lines = text_lines("abc\ndef");
    let err = with_multiple_added_content_at(&lines, vec![(0, 1, "ok"), (1, 2, "a\nb")]).unwrap_err();
    assert_eq!(
        err,
        "Content at position (1, 2) contains newline character, which is not allowed"
    );
}

#[test]
fn newline_error_comes_before_conflicts() {
    let lines = text_lines("abc\ndef");
    let err = with_multiple_added_content_at(&lines, vec![(0, 1, "x"), (0, 2, "y"), (1, 0, "\n")])
        .unwrap_err();
    assert!(err.starts_with("Content at position (1, 0)"));
}

#[test]
fn conflict_names_the_smallest_repeated_row() {
    let lines = text_lines("a\nb\nc\nd");
    let err = with_multiple_added_content_at(
        &lines,
        vec![(3, 0, "x"), (1, 0, "y"), (3, 1, "z"), (1, 1, "w")],
    )
    .unwrap_err();
    assert_eq!(err, "Conflict: multiple changes on the same row 1");
}

#[test]
fn inserted_bytes_add_up_on_unicode_text() {
    let input = "añb\nçd";
    let changes = vec![(0, 1, "∑"), (1, 2, "日本")];
    let added: usize = changes.iter().map(|(_, _, s)| s.len()).sum();
    let out = with_multiple_added_content_at(&text_lines(input), changes).unwrap();
    assert_eq!(out.len(), input.len() + added);
    assert_eq!(out, "a∑ñb\nç日本d");
}

// ------------------------------------------------------ hash generation

#[test]
fn collected_insertions_sit_at_stamp_ends() {
    let text = "let a = 1;\n  // needs hashes ```comments-2.0 1```\nlet b = 2;\n// done ```comments-2.0 1 11 22```\nlet c = 3;";
    let comments = parse_file("f.js", &text_lines(text)).unwrap();
    let refs: Vec<&CommentData> = comments.iter().collect();
    let ins = collect_hash_insertions(&refs);
    assert_eq!(ins.len(), 1);
    let line = text.lines().nth(1).unwrap();
    assert_eq!(ins[0].0, 1);
    assert_eq!(&line[ins[0].1..ins[0].1 + 3], "```");
    let parts: Vec<&str> = ins[0].2.split(' ').collect();
    assert_eq!(parts.len(), 3);
    assert_eq!(parts[0], "");
    assert_eq!(parts[1], comments[0].hash_comment());
    assert_eq!(parts[2], comments[0].hash_code());
}

#[test]
fn ignored_comments_get_no_hashes() {
    let text = "// skip me ```comments-2.0 0```\nlet a = 1;";
    let comments = parse_file("f.js", &text_lines(text)).unwrap();
    assert!(comments[0].should_be_ignored);
    let refs: Vec<&CommentData> = comments.iter().collect();
    assert!(collect_hash_insertions(&refs).is_empty());
}

#[test]
fn generated_hashes_read_back_without_violation() {
    let text = "function f() {\n    // adds one ```comments-2.0 1```\n    return x + 1;\n}";
    let lines = text_lines(text);
    let comments = parse_file("src/f.js", &lines).unwrap();
    let refs: Vec<&CommentData> = comments.iter().collect();
    let ins = collect_hash_insertions(&refs);
    let changes: Vec<(usize, usize, &str)> = ins.iter().map(|(r, c, s)| (*r, *c, s.as_str())).collect();
    let updated = with_multiple_added_content_at(&lines, changes).unwrap();

    let again = parse_file("src/f.js", &text_lines(&updated)).unwrap();
    assert_eq!(again.len(), 1);
    assert_eq!(again[0].parse_error, None);
    assert_eq!(again[0].comment_hash_parsed, comments[0].hash_comment());
    assert_eq!(again[0].code_hash_parsed, comments[0].hash_code());
    assert!(ViolationChecker::default().get_violation(&again[0]).is_none());
}

#[test]
fn stamp_with_dependency_keeps_it_after_hashing() {
    let text = "// uses f ```comments-2.0 1 7-123```\nf();";
    let lines = text_lines(text);
    let comments = parse_file("g.js", &lines).unwrap();
    assert_eq!(comments[0].parse_error, Some(StampParseError::StampWithoutHashes));
    let refs: Vec<&CommentData> = comments.iter().collect();
    let ins = collect_hash_insertions(&refs);
    let changes: Vec<(usize, usize, &str)> = ins.iter().map(|(r, c, s)| (*r, *c, s.as_str())).collect();
    let updated = with_multiple_added_content_at(&lines, changes).unwrap();
    let again = parse_file("g.js", &text_lines(&updated)).unwrap();
    assert_eq!(again[0].parse_error, None);
    assert_eq!(again[0].dependency_list_parsed, vec!["7-123"]);
}

#[test]
fn hashes_are_decimal_and_ignore_punctuation_and_spacing() {
    let file = "a.js".to_string();
    let h1 = hash_text_in_file(&"Hello,   world!".to_string(), &file);
    let h2 = hash_text_in_file(&"Hello world".to_string(), &file);
    let h3 = hash_text_in_file(&"Hello there".to_string(), &file);
    let h4 = hash_text_in_file(&"Hello world".to_string(), &"b.js".to_string());
    assert!(is_decimal(&h1));
    assert_eq!(h1, h2);
    assert_ne!(h2, h3);
    assert_ne!(h2, h4);
    assert_ne!(h2, "Hello world");
}

#[test]
fn comment_and_code_hashes_follow_their_own_text() {
    let mut cm = CommentData::empty();
    let _ = cm.push_comment("describe ```comments-2.0 1```");
    cm.push_code("x = 1");
    let comment_hash = cm.hash_comment();
    let code_hash = cm.hash_code();
    cm.push_code("y = 2");
    assert_eq!(cm.hash_comment(), comment_hash);
    assert_ne!(cm.hash_code(), code_hash);
}

// ---------------------------------------------------------------- models

#[test]
fn stamp_offset_points_at_closing_backticks() {
    let line = "héllo ```comments-2.0 3```";
    let mut cm = CommentData::empty();
    let p = cm.push_comment(line).unwrap();
    assert_eq!(&line[p..p + 3], "```");
    assert_eq!(cm.lines_of_code_referenced, 3);
    assert_eq!(cm.raw_contents, "\nhéllo ");
}

#[test]
fn zero_lines_mark_the_comment_ignored() {
    let mut cm = CommentData::empty();
    let _ = cm.push_comment("not about code ```comments-2.0 0```");
    assert!(cm.should_be_ignored);
    assert_eq!(cm.lines_of_code_referenced, 0);
}

#[test]
fn stamp_with_dependency_list_only_lacks_hashes() {
    let mut cm = CommentData::empty();
    let _ = cm.push_comment("x ```comments-2.0 2 4-abc,5-def```");
    assert_eq!(cm.parse_error, Some(StampParseError::StampWithoutHashes));
    assert_eq!(cm.dependency_list_parsed, vec!["4-abc", "5-def"]);
}

#[test]
fn stamp_with_one_hash_lacks_the_code_hash() {
    let mut cm = CommentData::empty();
    let _ = cm.push_comment("x ```comments-2.0 1 abc```");
    assert_eq!(cm.parse_error, Some(StampParseError::StampWithoutCodeHash));
}

#[test]
fn pushed_code_ends_with_newline() {
    let mut cm = CommentData::empty();
    cm.push_code("a();");
    cm.push_code("b();");
    assert_eq!(cm.code_it_refers_to, "a();\nb();\n");
}

#[test]
fn number_lists_are_trimmed_and_skip_empty_entries() {
    assert_eq!(parse_num_list_from_str(" 1, ,2 ,,3"), vec!["1", "2", "3"]);
    assert!(parse_num_list_from_str(" , ").is_empty());
}

#[test]
fn empty_location_is_origin() {
    let l = SourceLocation::empty();
    assert_eq!((l.row, l.column), (0, 0));
}

// ---------------------------------------------------------------- parser

#[test]
fn stamp_that_is_not_a_number_stops_the_parser() {
    let text = "let a;\n   // bad ```comments-2.0 abc```\nlet b;";
    let err = parse_file("f.js", &text_lines(text)).unwrap_err();
    assert_eq!((err.row, err.column), (2, 3));
}

#[test]
fn stamp_with_too_many_fields_stops_the_parser() {
    let text = "/* a ```comments-2.0 1 2 3 4 5``` */\ncode";
    let err = parse_file("f.js", &text_lines(text)).unwrap_err();
    assert_eq!((err.row, err.column), (1, 0));
}

#[test]
fn referenced_code_lines_are_read_after_the_comment() {
    let text = "// two lines ```comments-2.0 2```\nline one\n  line two\nline three";
    let comments = parse_file("f.js", &text_lines(text)).unwrap();
    assert_eq!(comments.len(), 1);
    assert_eq!(comments[0].code_it_refers_to, "line one\nline two\n");
    assert_eq!(comments[0].lines_of_code_read, 2);
    assert_eq!(comments[0].file, "f.js");
}

#[test]
fn comment_at_end_of_file_is_kept() {
    let text = "code();\n// trailing ```comments-2.0 3```\nmore();";
    let comments = parse_file("f.js", &text_lines(text)).unwrap();
    assert_eq!(comments.len(), 1);
    assert_eq!(comments[0].lines_of_code_read, 1);
    assert!(comments[0].lines_of_code_read <= comments[0].lines_of_code_referenced);
}

#[test]
fn block_comment_stamp_end_is_in_its_line() {
    let text = "/*\n  describes ```comments-2.0 1```\n*/\nx();";
    let lines = text_lines(text);
    let comments = parse_file("f.js", &lines).unwrap();
    let end = comments[0].stamp_end.unwrap();
    assert_eq!(end.row, 2);
    assert_eq!(&lines[1][end.column..end.column + 3], "```");
}

// ------------------------------------------------------------ violations

#[test]
fn hash_comparison_covers_every_outcome() {
    let mut cm = CommentData::empty();
    cm.parse_error = None;
    cm.code_hash_parsed = "1".to_string();
    cm.comment_hash_parsed = "2".to_string();
    let one = "1".to_string();
    let two = "2".to_string();
    let nine = "9".to_string();
    assert_eq!(hash_check_result(&cm, &one, &two), HashCheckResult::BothHashesUpToDate);
    assert_eq!(hash_check_result(&cm, &one, &nine), HashCheckResult::CommentHashNotUpToDate);
    assert_eq!(hash_check_result(&cm, &nine, &two), HashCheckResult::CodeHashNotUpToDate);
    assert_eq!(hash_check_result(&cm, &nine, &nine), HashCheckResult::BothHashesInvalid);
    cm.parse_error = Some(StampParseError::StampWithoutHashes);
    assert_eq!(hash_check_result(&cm, &one, &two), HashCheckResult::HashesShouldBeGenerated);
}

#[test]
fn each_parse_error_gives_its_violation() {
    let checker = ViolationChecker::default();
    let cases = [
        (StampParseError::NoStampFound, CommentDoesNotReferenceSpecificCode),
        (StampParseError::StampWithoutClosingTag, ParseErrorThatShouldBeFixed),
        (StampParseError::StampWithoutLinesReferenced, ParseErrorThatShouldBeFixed),
        (StampParseError::StampWithoutCodeHash, ParseErrorThatShouldBeFixed),
        (StampParseError::StampWithoutHashes, CommentHashNotRegenerated),
    ];
    for (err, expected) in cases {
        let mut cm = CommentData::empty();
        cm.parse_error = Some(err);
        assert_eq!(checker.get_violation(&cm).unwrap().violation, expected);
    }
}

#[test]
fn both_hashes_changed_counts_as_changed_code() {
    let mut cm = stamped("//about ```comments-2.0 1```", "a()");
    let _ = cm.push_comment("more words");
    cm.push_code("b()");
    let v = ViolationChecker::default().get_violation(&cm).unwrap();
    assert_eq!(v.violation, CodeChangedCommentNot);
}

#[test]
fn dependency_without_number_does_not_exist() {
    let mut target = stamped("//target ```comments-2.0 1```", "a()");
    target.id = 3;
    let mut dep = stamped("//dep ```comments-2.0 1```", "b()");
    dep.dependency_list_parsed = vec!["x3-abc".to_string()];
    let input = vec![target, dep];
    let out = ViolationChecker::default().generate_violations_from_comments(&input);
    assert_eq!(out.len(), 1);
    assert_eq!(out[0].violation, DependsOnCommentThatDoesntExist);
}

#[test]
fn dependency_without_hash_is_a_changed_dependency() {
    let mut target = stamped("//target ```comments-2.0 1```", "a()");
    target.id = 3;
    let mut dep = stamped("//dep ```comments-2.0 1```", "b()");
    dep.dependency_list_parsed = vec!["3".to_string()];
    let input = vec![target, dep];
    let out = ViolationChecker::default().generate_violations_from_comments(&input);
    assert_eq!(out.len(), 1);
    assert_eq!(out[0].violation, DependsOnCommentThatChanged);
}

#[test]
fn own_violations_come_before_dependency_violations() {
    let mut dep = stamped("//dep ```comments-2.0 1```", "b()");
    dep.dependency_list_parsed = vec!["40-1".to_string(), "41-2".to_string()];
    let mut bare = CommentData::empty();
    let _ = bare.push_comment("no stamp here");
    let input = vec![dep, bare];
    let out = ViolationChecker::default().generate_violations_from_comments(&input);
    let kinds: Vec<CommentIntegrityRuleViolations> = out.iter().map(|v| v.violation).collect();
    assert_eq!(
        kinds,
        vec![
            CommentDoesNotReferenceSpecificCode,
            DependsOnCommentThatDoesntExist,
            DependsOnCommentThatDoesntExist
        ]
    );
}

#[test]
fn level_and_rule_names_round_trip() {
    assert_eq!(ViolationLevel::from_name(" notice ").unwrap(), ViolationLevel::Note);
    assert_eq!(ViolationLevel::Note.as_str(), "notice");
    assert_eq!(ViolationLevel::Warning.as_str(), "warning");
    assert_eq!(ViolationLevel::Error.as_str(), "error");
    assert_eq!(
        ViolationLevel::from_name("loud").unwrap_err(),
        "unknown level: loud"
    );
    assert_eq!(
        CommentIntegrityRuleViolations::from_name("depends-on-comment-that-changed").unwrap(),
        DependsOnCommentThatChanged
    );
    assert_eq!(
        CommentIntegrityRuleViolations::from_name("made-up-rule").unwrap_err(),
        "unknown violation: made-up-rule"
    );
    let parsed: ViolationLevel = "error".parse().unwrap();
    assert_eq!(parsed, ViolationLevel::Error);
}

#[test]
fn config_without_a_rule_makes_it_a_note() {
    let cfg = ViolationLevelsConfig::from_file(
        "cfg".to_string(),
        "this line has no equals sign\ncode-changed-comment-not = warning\n",
    )
    .unwrap();
    assert_eq!(cfg.level_of(CodeChangedCommentNot), ViolationLevel::Warning);
    assert_eq!(cfg.level_of(ParseErrorThatShouldBeFixed), ViolationLevel::Note);
}

#[test]
fn config_with_unknown_names_is_refused() {
    let e1 = ViolationLevelsConfig::from_file("cfg".to_string(), "code-changed-comment-not = loud")
        .err()
        .unwrap();
    assert_eq!(e1, "unknown level: loud");
    let e2 = ViolationChecker::with_config_file("cfg".to_string(), "nonsense = error")
        .err()
        .unwrap();
    assert_eq!(e2, "unknown violation: nonsense");
}

#[test]
fn violations_are_formatted_for_each_output() {
    let mut cm = CommentData::empty();
    cm.file = "src/a.js".to_string();
    cm.comment_location.start.row = 3;
    cm.comment_location.start.column = 4;
    cm.id = 9;
    cm.dependency_list_parsed = vec!["1-2".to_string()];
    let v = RuleViolationOnFile { violation: CodeChangedCommentNot, comment: &cm };
    let checker = ViolationChecker::default();
    let (github, level) = checker.display_to_user(&v, "github");
    assert_eq!(level, "error");
    assert_eq!(
        github,
        "::error file=src/a.js,line=3,col=4::Code hash changed but comment was not updated deps: [\"1-2\"] id: 9"
    );
    let (editor, _) = checker.display_to_user(&v, "editor");
    assert_eq!(
        editor,
        "src/a.js:3:5: error: Code hash changed but comment was not updated deps: [\"1-2\"] id: 9"
    );
    let (other, _) = checker.display_to_user(&v, "csv");
    assert_eq!(other, "Not a valid output format csv");
}

#[test]
fn violation_list_display() {
    let checker = ViolationChecker::default();
    assert_eq!(
        checker.display_violations_to_user(&[], "github"),
        "No violations found! All comments are up to date."
    );
    let mut cm = CommentData::empty();
    cm.file = "a".to_string();
    let vs = [
        RuleViolationOnFile { violation: CommentHashNotRegenerated, comment: &cm },
        RuleViolationOnFile { violation: CommentDoesNotReferenceSpecificCode, comment: &cm },
    ];
    let out = checker.display_violations_to_user(&vs, "github");
    assert_eq!(
        out,
        "Found 2 violation(s):\n\n::warning file=a,line=0,col=0::Comment hash needs regeneration deps: [] id: 0\n\n::warning file=a,line=0,col=0::Comment does not reference specific code (no stamp found) deps: [] id: 0"
    );
}

#[test]
fn exit_status_fails_only_on_errors() {
    let cm = CommentData::empty();
    assert_eq!(determine_exit_code(&[]), ExitStatus::Success);
    let warnings = [RuleViolationOnFile { violation: CommentHashNotRegenerated, comment: &cm }];
    assert_eq!(determine_exit_code(&warnings), ExitStatus::Success);
    let errors = [
        RuleViolationOnFile { violation: CommentHashNotRegenerated, comment: &cm },
        RuleViolationOnFile { violation: DependsOnCommentThatChanged, comment: &cm },
    ];
    assert_eq!(determine_exit_code(&errors), ExitStatus::Failure);
    assert_eq!(ViolationChecker::default().determine_exit_code(&errors), ExitStatus::Failure);
}

// ---------------------------------------------------------------- program

#[test]
fn program_without_arguments_shows_help() {
    let err = parse_program_args(&vec!["tool".to_string()]).err().unwrap();
    assert_eq!(
        err,
        format!("No arguments passed to executable, the help can be seen here: \n {}", HELP_PAGE)
    );
    assert!(help_page().contains("USAGE:"));
}

#[test]
fn options_are_read_by_name_and_later_ones_win() {
    let args: Vec<String> = ["tool", "ignored", "--source", "./src", "--verbose", "--source", "./lib"]
        .iter()
        .map(|s| s.to_string())
        .collect();
    let opts = parse_program_args(&args).ok().unwrap();
    assert_eq!(opts.get("source").unwrap(), "./lib");
    assert_eq!(opts.get("verbose").unwrap(), "");
    assert!(opts.get("ignored").is_none());
    assert!(!opts.is_empty());
    assert!(are_args_valid(&opts).is_ok());
}

#[test]
fn option_lists_and_directory_filters() {
    assert_eq!(split_option_list(" js,ts,,rs "), vec!["js", "ts", "", "rs"]);
    let ignored = vec!["node_modules".to_string(), "target".to_string()];
    assert!(should_descend_into("src", &ignored));
    assert!(!should_descend_into("target", &ignored));
    assert!(!should_descend_into(".git", &ignored));
    let exts = vec!["js".to_string()];
    assert!(is_allowed_extension("js", &exts));
    assert!(!is_allowed_extension("jsx", &exts));
    assert!(!uses_threads(999));
    assert!(uses_threads(1000));
}

#[test]
fn available_memory_is_read_from_meminfo() {
    let info = "MemTotal:       16000000 kB\nMemFree:         1000 kB\nMemAvailable:    123456 kB\n";
    assert_eq!(parse_mem_available(info), Some(123456));
    assert_eq!(parse_mem_available("MemTotal: 1 kB\n"), None);
    assert_eq!(parse_mem_available("MemAvailable: lots kB\n"), None);
}

#[test]
fn positions_count_bytes_and_line_breaks() {
    let content = "ab\ncdé\nf";
    assert_eq!(position_from_row_col(content, 1, 0), Some(0));
    assert_eq!(position_from_row_col(content, 2, 1), Some(4));
    assert_eq!(position_from_row_col(content, 2, 4), Some(7));
    assert_eq!(position_from_row_col(content, 2, 5), None);
    assert_eq!(position_from_row_col(content, 3, 1), Some(9));
    assert_eq!(position_from_row_col(content, 4, 0), None);
    assert_eq!(position_from_row_col(content, 0, 0), None);
}

#[test]
fn comments_are_grouped_by_file_in_order() {
    let mut a1 = CommentData::empty();
    a1.file = "a".to_string();
    a1.id = 1;
    let mut b1 = CommentData::empty();
    b1.file = "b".to_string();
    b1.id = 2;
    let mut a2 = CommentData::empty();
    a2.file = "a".to_string();
    a2.id = 3;
    let all = vec![a1, b1, a2];
    let groups = group_comments_by_file(&all);
    assert_eq!(groups.len(), 2);
    assert_eq!(groups[0].0, "a");
    assert_eq!(groups[0].1.iter().map(|c| c.id).collect::<Vec<u64>>(), vec![1, 3]);
    assert_eq!(groups[1].0, "b");
    assert_eq!(groups[1].1.iter().map(|c| c.id).collect::<Vec<u64>>(), vec![2]);
}

// ---------------------------------------------------------------- storage

#[test]
fn records_are_cut_into_transactions() {
    assert_eq!(transaction_chunks(5, 2), vec![(0, 2), (2, 4), (4, 5)]);
    assert_eq!(transaction_chunks(4, 2), vec![(0, 2), (2, 4)]);
    assert!(transaction_chunks(0, 3).is_empty());
    assert_eq!(transaction_chunks(3, 100), vec![(0, 3)]);
}

#[test]
fn comment_record_holds_what_is_stored() {
    let mut cm = stamped("//stored ```comments-2.0 2```", "x();");
    cm.file = "db.js".to_string();
    cm.comment_location.start.row = 5;
    cm.comment_location.start.column = 2;
    let rec = comment_record(&cm);
    assert_eq!(rec.contents, cm.raw_contents);
    assert_eq!(rec.code, "x();\n");
    assert_eq!(rec.contents_hash, cm.hash_comment());
    assert_eq!(rec.code_hash, cm.hash_code());
    assert_eq!(rec.file_path, "db.js");
    assert_eq!((rec.row, rec.column, rec.lines_of_code), (5, 2, 2));
    let db = SqliteDB::new("comments.db".to_string());
    assert_eq!(db.file(), "comments.db");
}

// ------------------------------------------------- functions taking hashes

#[test]
fn hashed_words_are_alphanumeric_and_non_empty() {
    let words = hash_words(&"  Hello,   wo-rld!  ... 42\tñandú ".to_string());
    assert_eq!(words, vec!["Hello", "world", "42", "ñandú"]);
    assert!(hash_words(&" !! ?? ".to_string()).is_empty());
}

#[test]
fn hash_pair_puts_the_comment_hash_first() {
    assert_eq!(hash_pair_text(&"11".to_string(), &"22".to_string()), " 11 22");
}

#[test]
fn insertions_use_the_given_hashes_in_order() {
    let text = "// a ```comments-2.0 1```\nx();\n// b ```comments-2.0 1 5 6```\ny();";
    let comments = parse_file("f.js", &text_lines(text)).unwrap();
    let refs: Vec<&CommentData> = comments.iter().collect();
    let mh = vec!["100".to_string(), "300".to_string()];
    let ch = vec!["200".to_string(), "400".to_string()];
    let ins = collect_hash_insertions_with(&refs, &mh, &ch);
    assert_eq!(ins, vec![(0, 22, " 100 200".to_string())]);
}

#[test]
fn record_keeps_the_given_hashes() {
    let cm = stamped("//r ```comments-2.0 1```", "z();");
    let rec = comment_record_with(&cm, "7".to_string(), "8".to_string());
    assert_eq!((rec.contents_hash.as_str(), rec.code_hash.as_str()), ("7", "8"));
}

#[test]
fn rule_follows_the_given_hashes() {
    let checker = ViolationChecker::default();
    let mut cm = CommentData::empty();
    cm.parse_error = None;
    cm.code_hash_parsed = "1".to_string();
    cm.comment_hash_parsed = "2".to_string();
    let (one, two, nine) = ("1".to_string(), "2".to_string(), "9".to_string());
    assert!(checker.violation_for_hashes(&cm, &one, &two).is_none());
    assert_eq!(
        checker.violation_for_hashes(&cm, &nine, &two).unwrap().violation,
        CodeChangedCommentNot
    );
    assert_eq!(
        checker.violation_for_hashes(&cm, &nine, &nine).unwrap().violation,
        CodeChangedCommentNot
    );
    assert_eq!(
        checker.violation_for_hashes(&cm, &one, &nine).unwrap().violation,
        CommentHashNotRegenerated
    );
    cm.should_be_ignored = true;
    assert!(checker.violation_for_hashes(&cm, &nine, &nine).is_none());
}

#[test]
fn project_violations_follow_the_given_hashes() {
    let mut a = CommentData::empty();
    a.parse_error = None;
    a.id = 14;
    a.code_hash_parsed = "1".to_string();
    a.comment_hash_parsed = "2".to_string();
    let mut d = CommentData::empty();
    d.parse_error = None;
    d.code_hash_parsed = "3".to_string();
    d.comment_hash_parsed = "4".to_string();
    d.dependency_list_parsed = vec!["14-2".to_string(), "15-0".to_string()];
    let input = vec![a, d];
    let code = vec!["1".to_string(), "3".to_string()];
    let text = vec!["2".to_string(), "5".to_string()];
    let out = ViolationChecker::default().violations_for_hashes(&input, &code, &text);
    let kinds: Vec<CommentIntegrityRuleViolations> = out.iter().map(|v| v.violation).collect();
    assert_eq!(kinds, vec![CommentHashNotRegenerated, DependsOnCommentThatDoesntExist]);
    assert_eq!(out[0].comment.id, 0);
}

#[test]
fn stamp_with_a_space_before_its_end_reads_back_hashes() {
    let text = "// adds one ```comments-2.0 1 ```\nreturn x + 1;";
    let lines = text_lines(text);
    let comments = parse_file("s.js", &lines).unwrap();
    let refs: Vec<&CommentData> = comments.iter().collect();
    let ins = collect_hash_insertions(&refs);
    let changes: Vec<(usize, usize, &str)> = ins.iter().map(|(r, c, s)| (*r, *c, s.as_str())).collect();
    let updated = with_multiple_added_content_at(&lines, changes).unwrap();
    let again = parse_file("s.js", &text_lines(&updated)).unwrap();
    assert_eq!(again[0].parse_error, None);
    assert_eq!(again[0].comment_hash_parsed, comments[0].hash_comment());
    assert_eq!(again[0].code_hash_parsed, comments[0].hash_code());
    assert!(again[0].dependency_list_parsed.is_empty());
}

#[test]
fn exit_status_follows_the_configured_levels() {
    let cm = CommentData::empty();
    let relaxed = ViolationChecker::with_config_file(
        "cfg".to_string(),
        "code-changed-comment-not = notice\ncomment-hash-not-regenerated = error\n",
    )
    .ok()
    .unwrap();
    let changed = [RuleViolationOnFile { violation: CodeChangedCommentNot, comment: &cm }];
    assert_eq!(relaxed.determine_exit_code(&changed), ExitStatus::Success);
    assert_eq!(ViolationChecker::default().determine_exit_code(&changed), ExitStatus::Failure);
    let stale = [RuleViolationOnFile { violation: CommentHashNotRegenerated, comment: &cm }];
    assert_eq!(relaxed.determine_exit_code(&stale), ExitStatus::Failure);
    assert_eq!(ViolationChecker::default().determine_exit_code(&stale), ExitStatus::Success);
    assert_eq!(relaxed.determine_exit_code(&[]), ExitStatus::Success);
}

#[test]
fn hash_inputs_are_the_normalized_words_and_file() {
    let mut cm = CommentData::empty();
    cm.file = "k.js".to_string();
    let _ = cm.push_comment("Sets  x! ```comments-2.0 1```");
    cm.push_code("x = f(1);");
    let (cw, cf) = cm.comment_hash_input();
    assert_eq!(cw, vec!["Sets", "x"]);
    assert_eq!(cf, "k.js");
    let (kw, kf) = cm.code_hash_input();
    assert_eq!(kw, vec!["x", "f1"]);
    assert_eq!(kf, "k.js");
    assert_eq!(cm.hash_comment(), hash_text_in_file(&cm.raw_contents, &cm.file));
    assert_eq!(cm.hash_code(), hash_text_in_file(&cm.code_it_refers_to, &cm.file));
}

#[test]
fn insertion_order_does_not_change_the_result() {
    let lines = text_lines("ab\ncd\nef");
    let a = with_multiple_added_content_at(&lines, vec![(0, 1, "X"), (2, 0, "Y"), (1, 2, "Z")]).unwrap();
    let b = with_multiple_added_content_at(&lines, vec![(1, 2, "Z"), (0, 1, "X"), (2, 0, "Y")]).unwrap();
    assert_eq!(a, b);
    assert_eq!(a, "aXb\ncdZ\nYef");
}
