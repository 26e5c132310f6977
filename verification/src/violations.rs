//! Integrity rules for stamped comments, their levels, and how violations are
//! reported.
use vstd::prelude::*;
use crate::models::{CommentData, CommentModel, StampParseError, HashCheckResult};
use crate::parser::comment_models;
use crate::text::{
    chars_eq, chars_of, decimal, decimal_chars, extend_chars, find, find_from_exec, join,
    lemma_find_from, lines_chars, lines_of, parse_unsigned, parse_unsigned_chars, is_digit,
    lemma_decimal_digits, lemma_find_from_first, lemma_parse_decimal, matches_at,
    push_str_chars, string_of, string_views, sub_chars, trim, trim_chars, views_of,
};

verus! {

broadcast use vstd::seq_lib::group_seq_properties;

// ------------------------------------------------------------------------
// Levels and rules
// ------------------------------------------------------------------------
/// How serious a violation is.
#[derive(PartialEq, Eq, Clone, Copy, Debug, Structural)]
pub enum ViolationLevel {
    Warning,
    Error,
    Note,
}

/// The name a level is written with.
pub open spec fn level_name(l: ViolationLevel) -> Seq<char> {
    match l {
        ViolationLevel::Warning => "warning"@,
        ViolationLevel::Error => "error"@,
        ViolationLevel::Note => "notice"@,
    }
}

/// The level written `name`, if any.
pub open spec fn level_named(name: Seq<char>) -> Option<ViolationLevel> {
    if name == "warning"@ {
        Some(ViolationLevel::Warning)
    } else if name == "error"@ {
        Some(ViolationLevel::Error)
    } else if name == "notice"@ {
        Some(ViolationLevel::Note)
    } else {
        None
    }
}

/// Reading a level from text: surrounding whitespace is ignored.
pub open spec fn parse_level_spec(s: Seq<char>) -> Result<ViolationLevel, Seq<char>> {
    match level_named(trim(s)) {
        Some(l) => Ok(l),
        None => Err("unknown level: "@ + trim(s)),
    }
}

/// A result with its error text as characters.
pub open spec fn text_result<T>(r: Result<T, String>) -> Result<T, Seq<char>> {
    match r {
        Ok(v) => Ok(v),
        Err(e) => Err(e@),
    }
}

impl ViolationLevel {
    /// The level's name.
    pub fn as_str(&self) -> (r: &'static str)
        ensures
            r@ == level_name(*self),
    {
        match self {
            ViolationLevel::Warning => "warning",
            ViolationLevel::Error => "error",
            ViolationLevel::Note => "notice",
        }
    }

    /// The level named by `s`, surrounding whitespace ignored.
    pub fn from_name(s: &str) -> (r: Result<Self, String>)
        ensures
            text_result(r) == parse_level_spec(s@),
    {
        let chars = chars_of(s);
        parse_level_chars(&chars)
    }
}

impl std::str::FromStr for ViolationLevel {
    type Err = String;

    fn from_str(s: &str) -> (r: Result<Self, String>)
        ensures
            text_result(r) == parse_level_spec(s@),
    {
        ViolationLevel::from_name(s)
    }
}

fn parse_level_chars(s: &Vec<char>) -> (r: Result<ViolationLevel, String>)
    ensures
        text_result(r) == parse_level_spec(s@),
{
    let t = trim_chars(s);
    if chars_eq(&t, &chars_of("warning")) {
        Ok(ViolationLevel::Warning)
    } else if chars_eq(&t, &chars_of("error")) {
        Ok(ViolationLevel::Error)
    } else if chars_eq(&t, &chars_of("notice")) {
        Ok(ViolationLevel::Note)
    } else {
        let mut msg = chars_of("unknown level: ");
        extend_chars(&mut msg, &t);
        Err(string_of(&msg))
    }
}

/// The integrity rules a comment can break.
#[derive(PartialEq, Eq, Debug, Hash, Clone, Copy, Structural)]
pub enum CommentIntegrityRuleViolations {
    CommentDoesNotReferenceSpecificCode,
    ParseErrorThatShouldBeFixed,
    CodeChangedCommentNot,
    CommentHashNotRegenerated,
    CommentThatOthersDependOnChanged,
    CommentThatOthersDependOnDeleted,
    DependsOnCommentThatDoesntExist,
    DependsOnCommentThatChanged,
}

/// The rule named `name` in a configuration file, if any.
pub open spec fn rule_named(name: Seq<char>) -> Option<CommentIntegrityRuleViolations> {
    if name == "comment-does-not-reference-specific-code"@ {
        Some(CommentIntegrityRuleViolations::CommentDoesNotReferenceSpecificCode)
    } else if name == "parse-error-that-should-be-fixed"@ {
        Some(CommentIntegrityRuleViolations::ParseErrorThatShouldBeFixed)
    } else if name == "code-changed-comment-not"@ {
        Some(CommentIntegrityRuleViolations::CodeChangedCommentNot)
    } else if name == "comment-hash-not-regenerated"@ {
        Some(CommentIntegrityRuleViolations::CommentHashNotRegenerated)
    } else if name == "comment-that-others-depend-on-changed"@ {
        Some(CommentIntegrityRuleViolations::CommentThatOthersDependOnChanged)
    } else if name == "comment-that-others-depend-on-deleted"@ {
        Some(CommentIntegrityRuleViolations::CommentThatOthersDependOnDeleted)
    } else if name == "depends-on-comment-that-doesnt-exist"@ {
        Some(CommentIntegrityRuleViolations::DependsOnCommentThatDoesntExist)
    } else if name == "depends-on-comment-that-changed"@ {
        Some(CommentIntegrityRuleViolations::DependsOnCommentThatChanged)
    } else {
        None
    }
}

/// Reading a rule name from text: surrounding whitespace is ignored.
pub open spec fn parse_rule_spec(s: Seq<char>) -> Result<CommentIntegrityRuleViolations, Seq<char>> {
    match rule_named(trim(s)) {
        Some(v) => Ok(v),
        None => Err("unknown violation: "@ + trim(s)),
    }
}

impl CommentIntegrityRuleViolations {
    /// The rule named by `s`, surrounding whitespace ignored.
    pub fn from_name(s: &str) -> (r: Result<Self, String>)
        ensures
            text_result(r) == parse_rule_spec(s@),
    {
        let chars = chars_of(s);
        parse_rule_chars(&chars)
    }
}

impl std::str::FromStr for CommentIntegrityRuleViolations {
    type Err = String;

    fn from_str(s: &str) -> (r: Result<Self, String>)
        ensures
            text_result(r) == parse_rule_spec(s@),
    {
        CommentIntegrityRuleViolations::from_name(s)
    }
}

fn parse_rule_chars(s: &Vec<char>) -> (r: Result<CommentIntegrityRuleViolations, String>)
    ensures
        text_result(r) == parse_rule_spec(s@),
{
    let t = trim_chars(s);
    if chars_eq(&t, &chars_of("comment-does-not-reference-specific-code")) {
        Ok(CommentIntegrityRuleViolations::CommentDoesNotReferenceSpecificCode)
    } else if chars_eq(&t, &chars_of("parse-error-that-should-be-fixed")) {
        Ok(CommentIntegrityRuleViolations::ParseErrorThatShouldBeFixed)
    } else if chars_eq(&t, &chars_of("code-changed-comment-not")) {
        Ok(CommentIntegrityRuleViolations::CodeChangedCommentNot)
    } else if chars_eq(&t, &chars_of("comment-hash-not-regenerated")) {
        Ok(CommentIntegrityRuleViolations::CommentHashNotRegenerated)
    } else if chars_eq(&t, &chars_of("comment-that-others-depend-on-changed")) {
        Ok(CommentIntegrityRuleViolations::CommentThatOthersDependOnChanged)
    } else if chars_eq(&t, &chars_of("comment-that-others-depend-on-deleted")) {
        Ok(CommentIntegrityRuleViolations::CommentThatOthersDependOnDeleted)
    } else if chars_eq(&t, &chars_of("depends-on-comment-that-doesnt-exist")) {
        Ok(CommentIntegrityRuleViolations::DependsOnCommentThatDoesntExist)
    } else if chars_eq(&t, &chars_of("depends-on-comment-that-changed")) {
        Ok(CommentIntegrityRuleViolations::DependsOnCommentThatChanged)
    } else {
        let mut msg = chars_of("unknown violation: ");
        extend_chars(&mut msg, &t);
        Err(string_of(&msg))
    }
}

/// The level each rule has unless a configuration says otherwise.
pub open spec fn default_level(v: CommentIntegrityRuleViolations) -> ViolationLevel {
    match v {
        CommentIntegrityRuleViolations::CommentDoesNotReferenceSpecificCode => ViolationLevel::Warning,
        CommentIntegrityRuleViolations::ParseErrorThatShouldBeFixed => ViolationLevel::Error,
        CommentIntegrityRuleViolations::CodeChangedCommentNot => ViolationLevel::Error,
        CommentIntegrityRuleViolations::CommentHashNotRegenerated => ViolationLevel::Warning,
        CommentIntegrityRuleViolations::CommentThatOthersDependOnChanged => ViolationLevel::Error,
        CommentIntegrityRuleViolations::CommentThatOthersDependOnDeleted => ViolationLevel::Error,
        CommentIntegrityRuleViolations::DependsOnCommentThatDoesntExist => ViolationLevel::Error,
        CommentIntegrityRuleViolations::DependsOnCommentThatChanged => ViolationLevel::Error,
    }
}

/// The message reported for each rule.
pub open spec fn message_of(v: CommentIntegrityRuleViolations) -> Seq<char> {
    match v {
        CommentIntegrityRuleViolations::CommentDoesNotReferenceSpecificCode =>
            "Comment does not reference specific code (no stamp found)"@,
        CommentIntegrityRuleViolations::ParseErrorThatShouldBeFixed => "Stamp has a parse error"@,
        CommentIntegrityRuleViolations::CodeChangedCommentNot =>
            "Code hash changed but comment was not updated"@,
        CommentIntegrityRuleViolations::CommentHashNotRegenerated => "Comment hash needs regeneration"@,
        CommentIntegrityRuleViolations::CommentThatOthersDependOnChanged =>
            "Comment changed but other comments depend on it"@,
        CommentIntegrityRuleViolations::CommentThatOthersDependOnDeleted =>
            "Comment deleted but other comments depend on it"@,
        CommentIntegrityRuleViolations::DependsOnCommentThatDoesntExist =>
            "Comment depends on comment that has been deleted"@,
        CommentIntegrityRuleViolations::DependsOnCommentThatChanged =>
            "Comment depends on comment that has changed"@,
    }
}

fn message(v: CommentIntegrityRuleViolations) -> (r: String)
    ensures
        r@ == message_of(v),
{
    match v {
        CommentIntegrityRuleViolations::CommentDoesNotReferenceSpecificCode =>
            "Comment does not reference specific code (no stamp found)".to_owned(),
        CommentIntegrityRuleViolations::ParseErrorThatShouldBeFixed =>
            "Stamp has a parse error".to_owned(),
        CommentIntegrityRuleViolations::CodeChangedCommentNot =>
            "Code hash changed but comment was not updated".to_owned(),
        CommentIntegrityRuleViolations::CommentHashNotRegenerated =>
            "Comment hash needs regeneration".to_owned(),
        CommentIntegrityRuleViolations::CommentThatOthersDependOnChanged =>
            "Comment changed but other comments depend on it".to_owned(),
        CommentIntegrityRuleViolations::CommentThatOthersDependOnDeleted =>
            "Comment deleted but other comments depend on it".to_owned(),
        CommentIntegrityRuleViolations::DependsOnCommentThatDoesntExist =>
            "Comment depends on comment that has been deleted".to_owned(),
        CommentIntegrityRuleViolations::DependsOnCommentThatChanged =>
            "Comment depends on comment that has changed".to_owned(),
    }
}

/// The default level and the message of a rule.
fn violation_to_message(violation: &CommentIntegrityRuleViolations) -> (r: (ViolationLevel, String))
    ensures
        r.0 == default_level(*violation),
        r.1@ == message_of(*violation),
{
    let level = match violation {
        CommentIntegrityRuleViolations::CommentDoesNotReferenceSpecificCode => ViolationLevel::Warning,
        CommentIntegrityRuleViolations::ParseErrorThatShouldBeFixed => ViolationLevel::Error,
        CommentIntegrityRuleViolations::CodeChangedCommentNot => ViolationLevel::Error,
        CommentIntegrityRuleViolations::CommentHashNotRegenerated => ViolationLevel::Warning,
        CommentIntegrityRuleViolations::CommentThatOthersDependOnChanged => ViolationLevel::Error,
        CommentIntegrityRuleViolations::CommentThatOthersDependOnDeleted => ViolationLevel::Error,
        CommentIntegrityRuleViolations::DependsOnCommentThatDoesntExist => ViolationLevel::Error,
        CommentIntegrityRuleViolations::DependsOnCommentThatChanged => ViolationLevel::Error,
    };
    (level, message(*violation))
}

// ------------------------------------------------------------------------
// Configured levels
// ------------------------------------------------------------------------
/// The slot of each rule in a configuration.
pub open spec fn rule_index(v: CommentIntegrityRuleViolations) -> int {
    match v {
        CommentIntegrityRuleViolations::CommentDoesNotReferenceSpecificCode => 0,
        CommentIntegrityRuleViolations::ParseErrorThatShouldBeFixed => 1,
        CommentIntegrityRuleViolations::CodeChangedCommentNot => 2,
        CommentIntegrityRuleViolations::CommentHashNotRegenerated => 3,
        CommentIntegrityRuleViolations::CommentThatOthersDependOnChanged => 4,
        CommentIntegrityRuleViolations::CommentThatOthersDependOnDeleted => 5,
        CommentIntegrityRuleViolations::DependsOnCommentThatDoesntExist => 6,
        CommentIntegrityRuleViolations::DependsOnCommentThatChanged => 7,
    }
}

fn rule_slot(v: CommentIntegrityRuleViolations) -> (r: usize)
    ensures
        r == rule_index(v),
        r < 8,
{
    match v {
        CommentIntegrityRuleViolations::CommentDoesNotReferenceSpecificCode => 0,
        CommentIntegrityRuleViolations::ParseErrorThatShouldBeFixed => 1,
        CommentIntegrityRuleViolations::CodeChangedCommentNot => 2,
        CommentIntegrityRuleViolations::CommentHashNotRegenerated => 3,
        CommentIntegrityRuleViolations::CommentThatOthersDependOnChanged => 4,
        CommentIntegrityRuleViolations::CommentThatOthersDependOnDeleted => 5,
        CommentIntegrityRuleViolations::DependsOnCommentThatDoesntExist => 6,
        CommentIntegrityRuleViolations::DependsOnCommentThatChanged => 7,
    }
}

/// The levels set in a configuration, by rule.
pub open spec fn levels_map(levels: Seq<Option<ViolationLevel>>) -> Map<
    CommentIntegrityRuleViolations,
    ViolationLevel,
> {
    Map::new(
        |v: CommentIntegrityRuleViolations| levels[rule_index(v)] is Some,
        |v: CommentIntegrityRuleViolations| levels[rule_index(v)]->0,
    )
}

/// The levels of the default configuration: every rule at its default level.
pub open spec fn default_levels() -> Map<CommentIntegrityRuleViolations, ViolationLevel> {
    Map::new(|v: CommentIntegrityRuleViolations| true, |v: CommentIntegrityRuleViolations| default_level(v))
}

/// The configuration lines read so far: a line `RULE = LEVEL` sets the level
/// of a rule (later lines win), lines without `=` are skipped, and the first
/// line with an unknown rule or level is an error.
pub open spec fn config_from_lines(ls: Seq<Seq<char>>) -> Result<
    Map<CommentIntegrityRuleViolations, ViolationLevel>,
    Seq<char>,
>
    decreases ls.len(),
{
    if ls.len() == 0 {
        Ok(Map::empty())
    } else {
        match config_from_lines(ls.drop_last()) {
            Err(e) => Err(e),
            Ok(m) => {
                let l = ls.last();
                match find(l, seq!['=']) {
                    None => Ok(m),
                    Some(i) => match parse_rule_spec(trim(l.take(i))) {
                        Err(e) => Err(e),
                        Ok(v) => match parse_level_spec(trim(l.skip(i + 1))) {
                            Err(e) => Err(e),
                            Ok(lv) => Ok(m.insert(v, lv)),
                        },
                    },
                }
            },
        }
    }
}

/// The levels a configuration text sets.
pub open spec fn config_spec(text: Seq<char>) -> Result<
    Map<CommentIntegrityRuleViolations, ViolationLevel>,
    Seq<char>,
> {
    config_from_lines(lines_of(text))
}

/// The level of each rule, as configured.
pub struct ViolationLevelsConfig {
    path: String,
    levels: Vec<Option<ViolationLevel>>,
}

impl View for ViolationLevelsConfig {
    type V = Map<CommentIntegrityRuleViolations, ViolationLevel>;

    closed spec fn view(&self) -> Map<CommentIntegrityRuleViolations, ViolationLevel> {
        levels_map(self.levels@)
    }
}

/// The level of rule `v` under the levels `m`: a rule not configured is a note.
pub open spec fn configured_level(
    m: Map<CommentIntegrityRuleViolations, ViolationLevel>,
    v: CommentIntegrityRuleViolations,
) -> ViolationLevel {
    if m.contains_key(v) {
        m[v]
    } else {
        ViolationLevel::Note
    }
}

impl Default for ViolationLevelsConfig {
    fn default() -> (r: Self)
        ensures
            r@ == default_levels(),
    {
        let mut levels: Vec<Option<ViolationLevel>> = Vec::new();
        levels.push(Some(ViolationLevel::Warning));
        levels.push(Some(ViolationLevel::Error));
        levels.push(Some(ViolationLevel::Error));
        levels.push(Some(ViolationLevel::Warning));
        levels.push(Some(ViolationLevel::Error));
        levels.push(Some(ViolationLevel::Error));
        levels.push(Some(ViolationLevel::Error));
        levels.push(Some(ViolationLevel::Error));
        let r = Self { path: String::new(), levels };
        assert(r@ =~= default_levels());
        r
    }
}

impl ViolationLevelsConfig {
    #[verifier::type_invariant]
    spec fn eight_slots(&self) -> bool {
        self.levels.len() == 8
    }

    /// The level of rule `violation`; a rule not configured is a note.
    pub fn level_of(&self, violation: CommentIntegrityRuleViolations) -> (r: ViolationLevel)
        ensures
            r == configured_level(self@, violation),
    {
        proof {
            use_type_invariant(self);
        }
        match self.levels[rule_slot(violation)] {
            Some(l) => l,
            None => ViolationLevel::Note,
        }
    }

    /// The configuration read from `contents`, the text of the file at `path`.
    pub fn from_file(path: String, contents: &str) -> (r: Result<Self, String>)
        ensures
            match (r, config_spec(contents@)) {
                (Ok(c), Ok(m)) => c@ == m,
                (Err(e), Err(m)) => e@ == m,
                _ => false,
            },
    {
        let chars = chars_of(contents);
        let lines = lines_chars(&chars);
        let ghost ls = views_of(lines@);
        let mut levels: Vec<Option<ViolationLevel>> = Vec::new();
        let mut k: usize = 0;
        while k < 8
            invariant
                k <= 8,
                levels@.len() == k,
                forall|j: int| 0 <= j < k ==> levels@[j] is None,
            decreases 8 - k,
        {
            levels.push(None);
            k = k + 1;
        }
        let mut eq: Vec<char> = Vec::new();
        eq.push('=');
        assert(eq@ =~= seq!['=']);
        assert(levels_map(levels@) =~= Map::<CommentIntegrityRuleViolations, ViolationLevel>::empty());
        let mut i: usize = 0;
        while i < lines.len()
            invariant
                i <= lines.len(),
                ls == views_of(lines@),
                ls == lines_of(contents@),
                eq@ == seq!['='],
                levels@.len() == 8,
                config_from_lines(ls.take(i as int)) == Ok::<
                    Map<CommentIntegrityRuleViolations, ViolationLevel>,
                    Seq<char>,
                >(levels_map(levels@)),
            decreases lines.len() - i,
        {
            let line = &lines[i];
            assert(ls.take(i as int + 1).drop_last() =~= ls.take(i as int));
            assert(ls.take(i as int + 1).last() == line@);
            let found = find_from_exec(line, &eq, 0);
            proof {
                lemma_find_from(line@, seq!['='], 0);
            }
            if let Some(at) = found {
                let key_part = sub_chars(line, 0, at);
                assert(key_part@ =~= line@.take(at as int));
                let key = trim_chars(&key_part);
                let value_part = sub_chars(line, at + 1, line.len());
                assert(value_part@ =~= line@.skip(at + 1));
                let value = trim_chars(&value_part);
                let rule = match parse_rule_chars(&key) {
                    Ok(v) => v,
                    Err(e) => {
                        proof {
                            lemma_config_stops(ls, i as int + 1);
                        }
                        return Err(e);
                    },
                };
                let level = match parse_level_chars(&value) {
                    Ok(l) => l,
                    Err(e) => {
                        proof {
                            lemma_config_stops(ls, i as int + 1);
                        }
                        return Err(e);
                    },
                };
                let ghost before = levels@;
                levels.set(rule_slot(rule), Some(level));
                assert(levels_map(levels@) =~= levels_map(before).insert(rule, level));
            }
            i = i + 1;
        }
        assert(ls.take(lines.len() as int) =~= ls);
        Ok(Self { path, levels })
    }
}

/// Once reading a configuration fails, it stays failed.
proof fn lemma_config_stops(ls: Seq<Seq<char>>, n: int)
    requires
        0 <= n <= ls.len(),
        config_from_lines(ls.take(n)) is Err,
    ensures
        config_from_lines(ls) == config_from_lines(ls.take(n)),
    decreases ls.len() - n,
{
    if n < ls.len() {
        assert(ls.take(n + 1).drop_last() =~= ls.take(n));
        lemma_config_stops(ls, n + 1);
    } else {
        assert(ls.take(n) =~= ls);
    }
}


// ------------------------------------------------------------------------
// Reporting
// ------------------------------------------------------------------------
/// What `format!("{:?}", s)` gives for a string slice: the text in double
/// quotes, with backslashes, double quotes and characters that are not
/// printable written as escapes (single quotes are left as they are).
pub uninterp spec fn str_debug(s: Seq<char>) -> Seq<char>;

/// `<str as Debug>::fmt`, written to a new string.
#[verifier::external_body]
fn debug_str(s: &str) -> (r: String)
    ensures
        r@ == str_debug(s@),
{
    format!("{:?}", s)
}

/// How a list of strings is shown with `{:?}`: `[` and `]` around the items,
/// each shown with `{:?}`, separated by `, `.
pub open spec fn debug_list(items: Seq<Seq<char>>) -> Seq<char> {
    "["@ + join(items.map_values(|s: Seq<char>| str_debug(s)), ", "@) + "]"@
}

fn debug_list_chars(items: &Vec<String>) -> (r: Vec<char>)
    ensures
        r@ == debug_list(string_views(items@)),
{
    let ghost its = string_views(items@);
    let ghost shown = its.map_values(|s: Seq<char>| str_debug(s));
    let mut acc: Vec<char> = Vec::new();
    let sep = chars_of(", ");
    let mut i: usize = 0;
    assert(shown.take(0) =~= Seq::<Seq<char>>::empty());
    while i < items.len()
        invariant
            i <= items.len(),
            its == string_views(items@),
            shown == its.map_values(|s: Seq<char>| str_debug(s)),
            sep@ == ", "@,
            acc@ == join(shown.take(i as int), ", "@),
        decreases items.len() - i,
    {
        let d = debug_str(items[i].as_str());
        let dv = chars_of(d.as_str());
        assert(shown.take(i as int + 1).drop_last() =~= shown.take(i as int));
        assert(shown[i as int] == str_debug(items@[i as int]@));
        if i > 0 {
            extend_chars(&mut acc, &sep);
        }
        extend_chars(&mut acc, &dv);
        proof {
            if i == 0 {
                assert(acc@ =~= shown.take(1)[0]);
            }
        }
        i = i + 1;
    }
    assert(shown.take(items.len() as int) =~= shown);
    let mut r = chars_of("[");
    extend_chars(&mut r, &acc);
    push_str_chars(&mut r, "]");
    r
}

/// A violation as it is reported in `output_format` (`github` or `editor`),
/// with the level written `level` and the message `msg`.
pub open spec fn format_violation_spec(
    output_format: Seq<char>,
    level: Seq<char>,
    c: CommentModel,
    msg: Seq<char>,
) -> Seq<char> {
    let row = decimal(c.comment_location.start.row as nat);
    let deps = debug_list(c.dependency_list_parsed);
    let id = decimal(c.id as nat);
    if output_format == "github"@ {
        "::"@ + level + " file="@ + c.file + ",line="@ + row + ",col="@ + decimal(
            c.comment_location.start.column as nat,
        ) + "::"@ + msg + " deps: "@ + deps + " id: "@ + id
    } else if output_format == "editor"@ {
        c.file + ":"@ + row + ":"@ + decimal(c.comment_location.start.column as nat + 1) + ": "@
            + level + ": "@ + msg + " deps: "@ + deps + " id: "@ + id
    } else {
        "Not a valid output format "@ + output_format
    }
}

/// The numbers column shows in the editor format start at 1.
pub open spec fn column_fits(c: CommentModel, output_format: Seq<char>) -> bool {
    output_format == "editor"@ ==> c.comment_location.start.column < usize::MAX
}

fn format_violation(output_format: &str, level: &str, comment: &CommentData, msg: &str) -> (r:
    String)
    requires
        column_fits(comment@, output_format@),
    ensures
        r@ == format_violation_spec(output_format@, level@, comment@, msg@),
{
    let fmt = chars_of(output_format);
    let file = chars_of(comment.file.as_str());
    let row = decimal_chars(comment.comment_location.start.row as u128);
    let deps = debug_list_chars(&comment.dependency_list_parsed);
    let id = decimal_chars(comment.id as u128);
    let mut out: Vec<char> = Vec::new();
    if chars_eq(&fmt, &chars_of("github")) {
        let col = decimal_chars(comment.comment_location.start.column as u128);
        push_str_chars(&mut out, "::");
        push_str_chars(&mut out, level);
        push_str_chars(&mut out, " file=");
        extend_chars(&mut out, &file);
        push_str_chars(&mut out, ",line=");
        extend_chars(&mut out, &row);
        push_str_chars(&mut out, ",col=");
        extend_chars(&mut out, &col);
        push_str_chars(&mut out, "::");
        push_str_chars(&mut out, msg);
        push_str_chars(&mut out, " deps: ");
        extend_chars(&mut out, &deps);
        push_str_chars(&mut out, " id: ");
        extend_chars(&mut out, &id);
    } else if chars_eq(&fmt, &chars_of("editor")) {
        let col = decimal_chars(comment.comment_location.start.column as u128 + 1);
        extend_chars(&mut out, &file);
        push_str_chars(&mut out, ":");
        extend_chars(&mut out, &row);
        push_str_chars(&mut out, ":");
        extend_chars(&mut out, &col);
        push_str_chars(&mut out, ": ");
        push_str_chars(&mut out, level);
        push_str_chars(&mut out, ": ");
        push_str_chars(&mut out, msg);
        push_str_chars(&mut out, " deps: ");
        extend_chars(&mut out, &deps);
        push_str_chars(&mut out, " id: ");
        extend_chars(&mut out, &id);
    } else {
        push_str_chars(&mut out, "Not a valid output format ");
        extend_chars(&mut out, &fmt);
    }
    string_of(&out)
}

/// A rule broken by a comment.
#[derive(Debug)]
pub struct RuleViolationOnFile<'a> {
    pub violation: CommentIntegrityRuleViolations,
    pub comment: &'a CommentData,
}

impl<'a> View for RuleViolationOnFile<'a> {
    type V = (CommentIntegrityRuleViolations, CommentModel);

    open spec fn view(&self) -> (CommentIntegrityRuleViolations, CommentModel) {
        (self.violation, self.comment@)
    }
}

/// The rules and comments of a list of violations.
pub open spec fn violation_views<'a>(v: Seq<RuleViolationOnFile<'a>>) -> Seq<
    (CommentIntegrityRuleViolations, CommentModel),
> {
    v.map_values(|x: RuleViolationOnFile<'a>| x@)
}

/// The rule a possible violation is about.
pub open spec fn rule_of<'a>(r: Option<RuleViolationOnFile<'a>>) -> Option<
    CommentIntegrityRuleViolations,
> {
    match r {
        Some(x) => Some(x.violation),
        None => None,
    }
}

/// What the process reports when it ends.
#[derive(PartialEq, Eq, Clone, Copy, Debug, Structural)]
pub enum ExitStatus {
    Success,
    Failure,
}

/// The run fails exactly when some violation is an error at its level under
/// the configured levels `levels`.
pub open spec fn exit_status_with(
    levels: Map<CommentIntegrityRuleViolations, ViolationLevel>,
    vs: Seq<(CommentIntegrityRuleViolations, CommentModel)>,
) -> ExitStatus {
    if exists|k: int|
        0 <= k < vs.len() && configured_level(levels, #[trigger] vs[k].0) == ViolationLevel::Error {
        ExitStatus::Failure
    } else {
        ExitStatus::Success
    }
}

/// The run fails exactly when some violation is an error at its default level.
pub open spec fn exit_status_spec(vs: Seq<(CommentIntegrityRuleViolations, CommentModel)>) -> ExitStatus {
    if exists|k: int| 0 <= k < vs.len() && default_level(#[trigger] vs[k].0) == ViolationLevel::Error {
        ExitStatus::Failure
    } else {
        ExitStatus::Success
    }
}

/// The exit status for the violations found.
pub fn determine_exit_code(violations: &[RuleViolationOnFile]) -> (r: ExitStatus)
    ensures
        r == exit_status_spec(violation_views(violations@)),
{
    let ghost vs = violation_views(violations@);
    let mut i: usize = 0;
    while i < violations.len()
        invariant
            i <= violations.len(),
            vs == violation_views(violations@),
            forall|k: int| 0 <= k < i ==> default_level(#[trigger] vs[k].0) != ViolationLevel::Error,
        decreases violations.len() - i,
    {
        let (level, _) = violation_to_message(&violations[i].violation);
        if level == ViolationLevel::Error {
            assert(default_level(vs[i as int].0) == ViolationLevel::Error);
            return ExitStatus::Failure;
        }
        i = i + 1;
    }
    ExitStatus::Success
}

/// A decimal numeral of a `u64`: the form of every hash.
pub open spec fn is_hash_text(s: Seq<char>) -> bool {
    exists|n: u64| s == decimal(n as nat)
}

/// How the hashes in a stamp compare with the hashes of the current code and
/// comment text.
pub open spec fn hash_check_spec(
    parse_error: Option<StampParseError>,
    code_hash_now: Seq<char>,
    comment_hash_now: Seq<char>,
    code_hash_parsed: Seq<char>,
    comment_hash_parsed: Seq<char>,
) -> HashCheckResult {
    if parse_error == Some(StampParseError::StampWithoutHashes) {
        HashCheckResult::HashesShouldBeGenerated
    } else {
        let code_ok = code_hash_now == code_hash_parsed;
        let comment_ok = comment_hash_now == comment_hash_parsed;
        if code_ok && comment_ok {
            HashCheckResult::BothHashesUpToDate
        } else if code_ok {
            HashCheckResult::CommentHashNotUpToDate
        } else if comment_ok {
            HashCheckResult::CodeHashNotUpToDate
        } else {
            HashCheckResult::BothHashesInvalid
        }
    }
}

/// Whether the rule comment `c` breaks depends on the hashes of its current
/// code and text: it is not ignored and its stamp was read completely.
pub open spec fn needs_hashes(c: CommentModel) -> bool {
    !c.should_be_ignored && c.parse_error is None
}

/// How the hashes in the stamps of `cs` compare with the hashes `code_hashes`
/// and `comment_hashes` of their current code and text.
pub open spec fn checks_of(
    cs: Seq<CommentModel>,
    code_hashes: Seq<Seq<char>>,
    comment_hashes: Seq<Seq<char>>,
) -> Seq<HashCheckResult> {
    Seq::new(
        cs.len(),
        |i: int|
            hash_check_spec(
                cs[i].parse_error,
                code_hashes[i],
                comment_hashes[i],
                cs[i].code_hash_parsed,
                cs[i].comment_hash_parsed,
            ),
    )
}

/// The rule comment `c` breaks, given how its hashes compare.
pub open spec fn violation_given(c: CommentModel, check: HashCheckResult) -> Option<
    CommentIntegrityRuleViolations,
> {
    if c.should_be_ignored {
        None
    } else {
        match c.parse_error {
            Some(StampParseError::NoStampFound) => Some(
                CommentIntegrityRuleViolations::CommentDoesNotReferenceSpecificCode,
            ),
            Some(StampParseError::StampWithoutClosingTag) => Some(
                CommentIntegrityRuleViolations::ParseErrorThatShouldBeFixed,
            ),
            Some(StampParseError::StampWithoutLinesReferenced) => Some(
                CommentIntegrityRuleViolations::ParseErrorThatShouldBeFixed,
            ),
            Some(StampParseError::StampWithoutCodeHash) => Some(
                CommentIntegrityRuleViolations::ParseErrorThatShouldBeFixed,
            ),
            _ => match check {
                HashCheckResult::HashesShouldBeGenerated => Some(
                    CommentIntegrityRuleViolations::CommentHashNotRegenerated,
                ),
                HashCheckResult::CodeHashNotUpToDate => Some(
                    CommentIntegrityRuleViolations::CodeChangedCommentNot,
                ),
                HashCheckResult::BothHashesInvalid => Some(
                    CommentIntegrityRuleViolations::CodeChangedCommentNot,
                ),
                HashCheckResult::CommentHashNotUpToDate => Some(
                    CommentIntegrityRuleViolations::CommentHashNotRegenerated,
                ),
                HashCheckResult::BothHashesUpToDate => None,
            },
        }
    }
}

/// Compares the hashes written in the stamp of `comment` with the hashes
/// `code_hash` and `comment_hash` of its current code and text.
pub fn hash_check_result(comment: &CommentData, code_hash: &String, comment_hash: &String) -> (r:
    HashCheckResult)
    ensures
        r == hash_check_spec(
            comment.parse_error,
            code_hash@,
            comment_hash@,
            comment.code_hash_parsed@,
            comment.comment_hash_parsed@,
        ),
{
    if let Some(StampParseError::StampWithoutHashes) = comment.parse_error {
        return HashCheckResult::HashesShouldBeGenerated;
    }
    let code_hash_is_updated = *code_hash == comment.code_hash_parsed;
    let comment_hash_is_updated = *comment_hash == comment.comment_hash_parsed;
    if code_hash_is_updated && comment_hash_is_updated {
        return HashCheckResult::BothHashesUpToDate;
    }
    if code_hash_is_updated && !comment_hash_is_updated {
        return HashCheckResult::CommentHashNotUpToDate;
    }
    if !code_hash_is_updated && comment_hash_is_updated {
        return HashCheckResult::CodeHashNotUpToDate;
    }
    HashCheckResult::BothHashesInvalid
}

// ------------------------------------------------------------------------
// Dependencies between comments
// ------------------------------------------------------------------------
/// The comment a dependency `ID-HASH` names (or `ID` alone), if `ID` is a number.
pub open spec fn dependency_id(d: Seq<char>) -> Option<nat> {
    match find(d, seq!['-']) {
        Some(i) => parse_unsigned(d.take(i), u64::MAX as nat),
        None => parse_unsigned(d, u64::MAX as nat),
    }
}

/// The comment hash a dependency records (empty when it records none).
pub open spec fn dependency_hash(d: Seq<char>) -> Seq<char> {
    match find(d, seq!['-']) {
        Some(i) => d.skip(i + 1),
        None => Seq::empty(),
    }
}

/// The first comment at or after position `j` whose id is `id`.
pub open spec fn first_with_id(cs: Seq<CommentModel>, id: nat, j: int) -> Option<int>
    decreases cs.len() - j,
{
    if j < 0 || j >= cs.len() {
        None
    } else if cs[j].id == id {
        Some(j)
    } else {
        first_with_id(cs, id, j + 1)
    }
}

/// The rule a dependency `d` breaks among the comments `cs`: the comment it
/// names does not exist, or its comment hash is not the one recorded.
pub open spec fn dependency_violation(cs: Seq<CommentModel>, d: Seq<char>) -> Option<
    CommentIntegrityRuleViolations,
> {
    match dependency_id(d) {
        None => Some(CommentIntegrityRuleViolations::DependsOnCommentThatDoesntExist),
        Some(id) => match first_with_id(cs, id, 0) {
            None => Some(CommentIntegrityRuleViolations::DependsOnCommentThatDoesntExist),
            Some(j) => if dependency_hash(d) != cs[j].comment_hash_parsed {
                Some(CommentIntegrityRuleViolations::DependsOnCommentThatChanged)
            } else {
                None
            },
        },
    }
}

/// The violations of comment `c`'s dependencies `ds`, in order.
pub open spec fn dependencies_of(cs: Seq<CommentModel>, c: CommentModel, ds: Seq<Seq<char>>) -> Seq<
    (CommentIntegrityRuleViolations, CommentModel),
>
    decreases ds.len(),
{
    if ds.len() == 0 {
        Seq::empty()
    } else {
        let r = dependencies_of(cs, c, ds.drop_last());
        match dependency_violation(cs, ds.last()) {
            Some(v) => r.push((v, c)),
            None => r,
        }
    }
}

/// The dependency violations of the first `n` comments of `cs`.
pub open spec fn dependency_violations_upto(cs: Seq<CommentModel>, n: int) -> Seq<
    (CommentIntegrityRuleViolations, CommentModel),
>
    decreases n,
{
    if n <= 0 {
        Seq::empty()
    } else {
        dependency_violations_upto(cs, n - 1) + dependencies_of(
            cs,
            cs[n - 1],
            cs[n - 1].dependency_list_parsed,
        )
    }
}

/// The dependency violations of the comments `cs`.
pub open spec fn dependency_violations(cs: Seq<CommentModel>) -> Seq<
    (CommentIntegrityRuleViolations, CommentModel),
> {
    dependency_violations_upto(cs, cs.len() as int)
}

/// The violations of the first `n` comments themselves, given their hash checks.
pub open spec fn comment_violations_upto(
    cs: Seq<CommentModel>,
    checks: Seq<HashCheckResult>,
    n: int,
) -> Seq<(CommentIntegrityRuleViolations, CommentModel)>
    decreases n,
{
    if n <= 0 {
        Seq::empty()
    } else {
        let r = comment_violations_upto(cs, checks, n - 1);
        match violation_given(cs[n - 1], checks[n - 1]) {
            Some(v) => r.push((v, cs[n - 1])),
            None => r,
        }
    }
}

fn first_index_with_id(comments: &Vec<CommentData>, id: u64) -> (r: Option<usize>)
    ensures
        r matches Some(j) ==> j < comments.len(),
        match r {
            Some(j) => first_with_id(comment_models(comments@), id as nat, 0) == Some(j as int),
            None => first_with_id(comment_models(comments@), id as nat, 0) is None,
        },
{
    let ghost cs = comment_models(comments@);
    let mut j: usize = 0;
    while j < comments.len()
        invariant
            j <= comments.len(),
            cs == comment_models(comments@),
            first_with_id(cs, id as nat, 0) == first_with_id(cs, id as nat, j as int),
        decreases comments.len() - j,
    {
        assert(cs[j as int].id == comments@[j as int].id);
        if comments[j].id == id {
            return Some(j);
        }
        j = j + 1;
    }
    None
}

fn dependency_outcome(comments: &Vec<CommentData>, dep: &String) -> (r: Option<
    CommentIntegrityRuleViolations,
>)
    ensures
        r == dependency_violation(comment_models(comments@), dep@),
{
    let d = chars_of(dep.as_str());
    let mut dash: Vec<char> = Vec::new();
    dash.push('-');
    assert(dash@ =~= seq!['-']);
    let at = find_from_exec(&d, &dash, 0);
    proof {
        lemma_find_from(d@, seq!['-'], 0);
    }
    let (id_text, hash_text) = match at {
        Some(i) => (sub_chars(&d, 0, i), sub_chars(&d, i + 1, d.len())),
        None => (sub_chars(&d, 0, d.len()), Vec::new()),
    };
    assert(id_text@ =~= match find(d@, seq!['-']) {
        Some(i) => d@.take(i),
        None => d@,
    });
    assert(hash_text@ =~= dependency_hash(d@));
    let id = match parse_unsigned_chars(&id_text, u64::MAX) {
        Some(v) => v,
        None => {
            return Some(CommentIntegrityRuleViolations::DependsOnCommentThatDoesntExist);
        },
    };
    match first_index_with_id(comments, id) {
        None => Some(CommentIntegrityRuleViolations::DependsOnCommentThatDoesntExist),
        Some(j) => {
            let recorded = chars_of(comments[j].comment_hash_parsed.as_str());
            if !chars_eq(&hash_text, &recorded) {
                Some(CommentIntegrityRuleViolations::DependsOnCommentThatChanged)
            } else {
                None
            }
        },
    }
}

/// The violations of the dependencies recorded by the comments, in order of
/// the comments and of their dependencies.
fn get_dependecy_violations<'a>(comments_of_project: &'a Vec<CommentData>) -> (r: Vec<
    RuleViolationOnFile<'a>,
>)
    ensures
        violation_views(r@) == dependency_violations(comment_models(comments_of_project@)),
{
    let ghost cs = comment_models(comments_of_project@);
    let mut result: Vec<RuleViolationOnFile<'a>> = Vec::new();
    let mut i: usize = 0;
    assert(violation_views(result@) =~= dependency_violations_upto(cs, 0));
    while i < comments_of_project.len()
        invariant
            i <= comments_of_project.len(),
            cs == comment_models(comments_of_project@),
            violation_views(result@) == dependency_violations_upto(cs, i as int),
        decreases comments_of_project.len() - i,
    {
        let cm = &comments_of_project[i];
        let ghost ds = string_views(cm.dependency_list_parsed@);
        let ghost start = violation_views(result@);
        assert(cs[i as int] == cm@);
        let mut j: usize = 0;
        while j < cm.dependency_list_parsed.len()
            invariant
                j <= cm.dependency_list_parsed.len(),
                cs == comment_models(comments_of_project@),
                cm == &comments_of_project@[i as int],
                ds == string_views(cm.dependency_list_parsed@),
                ds == cm@.dependency_list_parsed,
                violation_views(result@) == start + dependencies_of(cs, cm@, ds.take(j as int)),
            decreases cm.dependency_list_parsed.len() - j,
        {
            let outcome = dependency_outcome(comments_of_project, &cm.dependency_list_parsed[j]);
            assert(ds.take(j as int + 1).drop_last() =~= ds.take(j as int));
            assert(ds[j as int] == cm.dependency_list_parsed@[j as int]@);
            if let Some(v) = outcome {
                let ghost before = result@;
                result.push(RuleViolationOnFile { comment: cm, violation: v });
                assert(violation_views(result@) =~= violation_views(before).push((v, cm@)));
            }
            j = j + 1;
        }
        assert(ds.take(cm.dependency_list_parsed.len() as int) =~= ds);
        i = i + 1;
    }
    assert(cs.len() == comments_of_project.len());
    result
}

/// Checks comments against the integrity rules, with the level of each rule
/// taken from a configuration.
pub struct ViolationChecker {
    pub config: ViolationLevelsConfig,
}

impl Default for ViolationChecker {
    fn default() -> (r: Self)
        ensures
            r.config@ == default_levels(),
    {
        ViolationChecker { config: ViolationLevelsConfig::default() }
    }
}

impl ViolationChecker {
    /// A checker with the levels read from `contents`, the text of the
    /// configuration file at `path`.
    pub fn with_config_file(path: String, contents: &str) -> (r: Result<Self, String>)
        ensures
            match (r, config_spec(contents@)) {
                (Ok(c), Ok(m)) => c.config@ == m,
                (Err(e), Err(m)) => e@ == m,
                _ => false,
            },
    {
        match ViolationLevelsConfig::from_file(path, contents) {
            Ok(config) => Ok(Self { config }),
            Err(e) => Err(e),
        }
    }

    /// The configured level and the message of a rule.
    fn violation_to_message(&self, violation: &CommentIntegrityRuleViolations) -> (r: (
        ViolationLevel,
        String,
    ))
        ensures
            r.0 == configured_level(self.config@, *violation),
            r.1@ == message_of(*violation),
    {
        let level = self.config.level_of(*violation);
        (level, message(*violation))
    }

    /// A violation as shown to the user in `output_format`, and its level's name.
    pub fn display_to_user(&self, file_violation: &RuleViolationOnFile, output_format: &str) -> (r: (
        String,
        String,
    ))
        requires
            column_fits(file_violation.comment@, output_format@),
        ensures
            r.0@ == format_violation_spec(
                output_format@,
                level_name(configured_level(self.config@, file_violation.violation)),
                file_violation.comment@,
                message_of(file_violation.violation),
            ),
            r.1@ == level_name(configured_level(self.config@, file_violation.violation)),
    {
        let (level, message) = self.violation_to_message(&file_violation.violation);
        (
            format_violation(output_format, level.as_str(), file_violation.comment, message.as_str()),
            level.as_str().to_owned(),
        )
    }

    /// The rule `comment` breaks when its current code hashes to `code_hash`
    /// and its text to `comment_hash`: an ignored comment breaks none; a
    /// comment without stamp, or whose stamp is incomplete, breaks the rule for
    /// its case; otherwise the rule follows from how those hashes compare with
    /// the ones in its stamp.
    pub fn violation_for_hashes<'a>(
        &self,
        comment: &'a CommentData,
        code_hash: &String,
        comment_hash: &String,
    ) -> (r: Option<RuleViolationOnFile<'a>>)
        ensures
            rule_of(r) == violation_given(
                comment@,
                hash_check_spec(
                    comment.parse_error,
                    code_hash@,
                    comment_hash@,
                    comment.code_hash_parsed@,
                    comment.comment_hash_parsed@,
                ),
            ),
            r matches Some(x) ==> x.comment == comment,
    {
        if comment.should_be_ignored {
            return None;
        }
        match comment.parse_error {
            Some(StampParseError::NoStampFound) => {
                return Some(
                    RuleViolationOnFile {
                        violation: CommentIntegrityRuleViolations::CommentDoesNotReferenceSpecificCode,
                        comment,
                    },
                );
            },
            Some(StampParseError::StampWithoutClosingTag)
            | Some(StampParseError::StampWithoutLinesReferenced)
            | Some(StampParseError::StampWithoutCodeHash) => {
                return Some(
                    RuleViolationOnFile {
                        violation: CommentIntegrityRuleViolations::ParseErrorThatShouldBeFixed,
                        comment,
                    },
                );
            },
            _ => {},
        }
        let hash_check_result = hash_check_result(comment, code_hash, comment_hash);
        match hash_check_result {
            HashCheckResult::HashesShouldBeGenerated => Some(
                RuleViolationOnFile {
                    violation: CommentIntegrityRuleViolations::CommentHashNotRegenerated,
                    comment,
                },
            ),
            HashCheckResult::CodeHashNotUpToDate | HashCheckResult::BothHashesInvalid => Some(
                RuleViolationOnFile {
                    violation: CommentIntegrityRuleViolations::CodeChangedCommentNot,
                    comment,
                },
            ),
            HashCheckResult::CommentHashNotUpToDate => Some(
                RuleViolationOnFile {
                    violation: CommentIntegrityRuleViolations::CommentHashNotRegenerated,
                    comment,
                },
            ),
            HashCheckResult::BothHashesUpToDate => None,
        }
    }

    /// The current hashes of `comment`'s code and text, when the rule it breaks
    /// depends on them (empty texts otherwise).
    fn current_hashes(comment: &CommentData) -> (r: (String, String))
        ensures
            needs_hashes(comment@) ==> is_hash_text(r.0@) && is_hash_text(r.1@) && call_ensures(
                CommentData::hash_code,
                (comment,),
                r.0,
            ) && call_ensures(CommentData::hash_comment, (comment,), r.1),
    {
        if !comment.should_be_ignored && comment.parse_error.is_none() {
            let code = CommentData::hash_code;
            let text = CommentData::hash_comment;
            (code(comment), text(comment))
        } else {
            (String::new(), String::new())
        }
    }

    /// The rule `comment` breaks, if any, with the current hashes of its code
    /// and text (`violation_for_hashes`).
    pub fn get_violation<'a>(&self, comment: &'a CommentData) -> (r: Option<RuleViolationOnFile<'a>>)
        ensures
            exists|code_hash: String, comment_hash: String|
                #![trigger hash_check_spec(comment.parse_error, code_hash@, comment_hash@, comment.code_hash_parsed@, comment.comment_hash_parsed@)]
                (needs_hashes(comment@) ==> call_ensures(CommentData::hash_code, (comment,), code_hash)
                    && call_ensures(CommentData::hash_comment, (comment,), comment_hash)
                    && is_hash_text(code_hash@) && is_hash_text(comment_hash@)) && rule_of(r)
                    == violation_given(
                    comment@,
                    hash_check_spec(
                        comment.parse_error,
                        code_hash@,
                        comment_hash@,
                        comment.code_hash_parsed@,
                        comment.comment_hash_parsed@,
                    ),
                ),
            r matches Some(x) ==> x.comment == comment,
            comment.should_be_ignored ==> r is None,
    {
        let (code_hash, comment_hash) = Self::current_hashes(comment);
        self.violation_for_hashes(comment, &code_hash, &comment_hash)
    }

    /// The exit status for the violations found: failure when one of them is an
    /// error at the level this checker is configured with.
    pub fn determine_exit_code(&self, violations: &[RuleViolationOnFile]) -> (r: ExitStatus)
        ensures
            r == exit_status_with(self.config@, violation_views(violations@)),
    {
        let ghost vs = violation_views(violations@);
        let mut i: usize = 0;
        while i < violations.len()
            invariant
                i <= violations.len(),
                vs == violation_views(violations@),
                forall|k: int|
                    0 <= k < i ==> configured_level(self.config@, #[trigger] vs[k].0)
                        != ViolationLevel::Error,
            decreases violations.len() - i,
        {
            let (level, _) = self.violation_to_message(&violations[i].violation);
            if level == ViolationLevel::Error {
                assert(configured_level(self.config@, vs[i as int].0) == ViolationLevel::Error);
                return ExitStatus::Failure;
            }
            i = i + 1;
        }
        ExitStatus::Success
    }

    /// All violations shown to the user in `output_format`, with a header, or a
    /// message saying there are none.
    pub fn display_violations_to_user(
        &self,
        violations: &[RuleViolationOnFile],
        output_format: &str,
    ) -> (r: String)
        requires
            forall|k: int|
                0 <= k < violations@.len() ==> column_fits(
                    (#[trigger] violations@[k]).comment@,
                    output_format@,
                ),
        ensures
            r@ == display_all_spec(self.config@, violation_views(violations@), output_format@),
    {
        if violations.len() == 0 {
            return "No violations found! All comments are up to date.".to_owned();
        }
        let ghost vs = violation_views(violations@);
        let ghost shown = vs.map_values(
            |x: (CommentIntegrityRuleViolations, CommentModel)|
                display_line(self.config@, x, output_format@),
        );
        let mut out = chars_of("Found ");
        let n = decimal_chars(violations.len() as u128);
        extend_chars(&mut out, &n);
        push_str_chars(&mut out, " violation(s):\n\n");
        let ghost head = out@;
        let mut body: Vec<char> = Vec::new();
        let mut idx: usize = 0;
        assert(shown.take(0) =~= Seq::<Seq<char>>::empty());
        while idx < violations.len()
            invariant
                idx <= violations.len(),
                vs == violation_views(violations@),
                shown == vs.map_values(
                    |x: (CommentIntegrityRuleViolations, CommentModel)|
                        display_line(self.config@, x, output_format@),
                ),
                forall|k: int|
                    0 <= k < violations@.len() ==> column_fits(
                        (#[trigger] violations@[k]).comment@,
                        output_format@,
                    ),
                body@ == join(shown.take(idx as int), "\n\n"@),
            decreases violations.len() - idx,
        {
            let (text, _) = self.display_to_user(&violations[idx], output_format);
            let tv = chars_of(text.as_str());
            assert(shown.take(idx as int + 1).drop_last() =~= shown.take(idx as int));
            assert(shown[idx as int] == text@);
            if idx > 0 {
                push_str_chars(&mut body, "\n\n");
            }
            extend_chars(&mut body, &tv);
            proof {
                if idx == 0 {
                    assert(body@ =~= shown.take(1)[0]);
                }
            }
            idx = idx + 1;
        }
        assert(shown.take(violations.len() as int) =~= shown);
        extend_chars(&mut out, &body);
        string_of(&out)
    }

    /// The violations of the comments of a project, given the hashes of
    /// their current code (`code_hashes`) and text (`comment_hashes`): first
    /// those of each comment on its own, in order, then those of their
    /// dependencies.
    pub fn violations_for_hashes<'a>(
        &self,
        comments_of_project: &'a Vec<CommentData>,
        code_hashes: &Vec<String>,
        comment_hashes: &Vec<String>,
    ) -> (r: Vec<RuleViolationOnFile<'a>>)
        requires
            code_hashes.len() == comments_of_project.len(),
            comment_hashes.len() == comments_of_project.len(),
        ensures
            violation_views(r@) == comment_violations_upto(
                comment_models(comments_of_project@),
                checks_of(
                    comment_models(comments_of_project@),
                    string_views(code_hashes@),
                    string_views(comment_hashes@),
                ),
                comments_of_project@.len() as int,
            ) + dependency_violations(comment_models(comments_of_project@)),
    {
        let ghost cs = comment_models(comments_of_project@);
        let ghost checks = checks_of(cs, string_views(code_hashes@), string_views(comment_hashes@));
        let mut result: Vec<RuleViolationOnFile<'a>> = Vec::new();
        let mut i: usize = 0;
        assert(violation_views(result@) =~= Seq::<(CommentIntegrityRuleViolations, CommentModel)>::empty());
        while i < comments_of_project.len()
            invariant
                i <= comments_of_project.len(),
                code_hashes.len() == comments_of_project.len(),
                comment_hashes.len() == comments_of_project.len(),
                cs == comment_models(comments_of_project@),
                checks == checks_of(cs, string_views(code_hashes@), string_views(comment_hashes@)),
                violation_views(result@) == comment_violations_upto(cs, checks, i as int),
            decreases comments_of_project.len() - i,
        {
            let found = self.violation_for_hashes(
                &comments_of_project[i],
                &code_hashes[i],
                &comment_hashes[i],
            );
            assert(cs[i as int] == comments_of_project@[i as int]@);
            assert(string_views(code_hashes@)[i as int] == code_hashes@[i as int]@);
            assert(string_views(comment_hashes@)[i as int] == comment_hashes@[i as int]@);
            assert(checks[i as int] == hash_check_spec(
                cs[i as int].parse_error,
                code_hashes@[i as int]@,
                comment_hashes@[i as int]@,
                cs[i as int].code_hash_parsed,
                cs[i as int].comment_hash_parsed,
            ));
            if let Some(v) = found {
                let ghost before = result@;
                result.push(v);
                assert(violation_views(result@) =~= violation_views(before).push(v@));
            }
            i = i + 1;
        }
        let mut deps = get_dependecy_violations(comments_of_project);
        let ghost within = result@;
        let ghost dv = deps@;
        result.append(&mut deps);
        assert(violation_views(result@) =~= violation_views(within) + violation_views(dv));
        result
    }

    /// The violations of the comments of a project, with the current hashes of
    /// their code and text (`violations_for_hashes`).
    pub fn generate_violations_from_comments<'a>(
        &self,
        comments_of_project: &'a Vec<CommentData>,
    ) -> (r: Vec<RuleViolationOnFile<'a>>)
        ensures
            exists|code_hashes: Seq<String>, comment_hashes: Seq<String>|
                #![trigger checks_of(comment_models(comments_of_project@), string_views(code_hashes), string_views(comment_hashes))]
                code_hashes.len() == comments_of_project@.len() && comment_hashes.len()
                    == comments_of_project@.len() && (forall|i: int|
                    0 <= i < comments_of_project@.len() && needs_hashes(
                        #[trigger] comments_of_project@[i]@,
                    ) ==> call_ensures(
                        CommentData::hash_code,
                        (&comments_of_project@[i],),
                        code_hashes[i],
                    ) && call_ensures(
                        CommentData::hash_comment,
                        (&comments_of_project@[i],),
                        comment_hashes[i],
                    ) && is_hash_text(code_hashes[i]@) && is_hash_text(comment_hashes[i]@))
                    && violation_views(r@) == comment_violations_upto(
                    comment_models(comments_of_project@),
                    checks_of(
                        comment_models(comments_of_project@),
                        string_views(code_hashes),
                        string_views(comment_hashes),
                    ),
                    comments_of_project@.len() as int,
                ) + dependency_violations(comment_models(comments_of_project@)),
    {
        let mut code_hashes: Vec<String> = Vec::new();
        let mut comment_hashes: Vec<String> = Vec::new();
        let mut i: usize = 0;
        while i < comments_of_project.len()
            invariant
                i <= comments_of_project.len(),
                code_hashes.len() == i,
                comment_hashes.len() == i,
                forall|k: int|
                    0 <= k < i && needs_hashes(#[trigger] comments_of_project@[k]@) ==> call_ensures(
                        CommentData::hash_code,
                        (&comments_of_project@[k],),
                        code_hashes@[k],
                    ) && call_ensures(
                        CommentData::hash_comment,
                        (&comments_of_project@[k],),
                        comment_hashes@[k],
                    ) && is_hash_text(code_hashes@[k]@) && is_hash_text(comment_hashes@[k]@),
            decreases comments_of_project.len() - i,
        {
            let (code_hash, comment_hash) = Self::current_hashes(&comments_of_project[i]);
            code_hashes.push(code_hash);
            comment_hashes.push(comment_hash);
            i = i + 1;
        }
        let r = self.violations_for_hashes(comments_of_project, &code_hashes, &comment_hashes);
        r
    }

    /// The violations of the dependencies recorded by the comments.
    fn get_dependecy_violations<'a>(&self, comments_of_project: &'a Vec<CommentData>) -> (r: Vec<
        RuleViolationOnFile<'a>,
    >)
        ensures
            violation_views(r@) == dependency_violations(comment_models(comments_of_project@)),
    {
        get_dependecy_violations(comments_of_project)
    }
}

/// One violation as shown to the user.
pub open spec fn display_line(
    levels: Map<CommentIntegrityRuleViolations, ViolationLevel>,
    x: (CommentIntegrityRuleViolations, CommentModel),
    output_format: Seq<char>,
) -> Seq<char> {
    format_violation_spec(
        output_format,
        level_name(configured_level(levels, x.0)),
        x.1,
        message_of(x.0),
    )
}

/// The report of all violations `vs`.
pub open spec fn display_all_spec(
    levels: Map<CommentIntegrityRuleViolations, ViolationLevel>,
    vs: Seq<(CommentIntegrityRuleViolations, CommentModel)>,
    output_format: Seq<char>,
) -> Seq<char> {
    if vs.len() == 0 {
        "No violations found! All comments are up to date."@
    } else {
        "Found "@ + decimal(vs.len()) + " violation(s):\n\n"@ + join(
            vs.map_values(
                |x: (CommentIntegrityRuleViolations, CommentModel)|
                    display_line(levels, x, output_format),
            ),
            "\n\n"@,
        )
    }
}

// ------------------------------------------------------------------------
// Laws
// ------------------------------------------------------------------------
/// A comment the user asked to ignore breaks no rule, however its hashes compare.
pub proof fn lemma_ignored_comment_breaks_no_rule(c: CommentModel, check: HashCheckResult)
    requires
        c.should_be_ignored,
    ensures
        violation_given(c, check) is None,
{
}

/// A complete stamp whose hashes are those of the current comment text and
/// code breaks no rule.
pub proof fn lemma_up_to_date_stamp_breaks_no_rule(c: CommentModel)
    requires
        c.parse_error is None,
    ensures
        hash_check_spec(
            c.parse_error,
            c.code_hash_parsed,
            c.comment_hash_parsed,
            c.code_hash_parsed,
            c.comment_hash_parsed,
        ) == HashCheckResult::BothHashesUpToDate,
        violation_given(
            c,
            hash_check_spec(
                c.parse_error,
                c.code_hash_parsed,
                c.comment_hash_parsed,
                c.code_hash_parsed,
                c.comment_hash_parsed,
            ),
        ) is None,
{
}

/// For a complete stamp of a comment that is not ignored, current hashes
/// that differ from the stamp's decide the rule: a changed code hash means
/// the code changed without the comment; an unchanged code hash with a
/// changed comment hash means the comment's hash was not regenerated.
pub proof fn lemma_changed_hashes_break_their_rule(
    c: CommentModel,
    code_hash: Seq<char>,
    comment_hash: Seq<char>,
)
    requires
        needs_hashes(c),
    ensures
        code_hash != c.code_hash_parsed ==> violation_given(
            c,
            hash_check_spec(c.parse_error, code_hash, comment_hash, c.code_hash_parsed, c.comment_hash_parsed),
        ) == Some(CommentIntegrityRuleViolations::CodeChangedCommentNot),
        code_hash == c.code_hash_parsed && comment_hash != c.comment_hash_parsed ==> violation_given(
            c,
            hash_check_spec(c.parse_error, code_hash, comment_hash, c.code_hash_parsed, c.comment_hash_parsed),
        ) == Some(CommentIntegrityRuleViolations::CommentHashNotRegenerated),
        code_hash == c.code_hash_parsed && comment_hash == c.comment_hash_parsed ==> violation_given(
            c,
            hash_check_spec(c.parse_error, code_hash, comment_hash, c.code_hash_parsed, c.comment_hash_parsed),
        ) is None,
{
}

/// The default configuration gives every rule its default level: the level a
/// checker built by `Default` reports for a rule is the one the fixed table
/// (`default_level`) gives, with the same message; so under the default
/// configuration the run fails exactly when the fixed table says it does.
pub proof fn lemma_default_config_gives_default_levels(
    v: CommentIntegrityRuleViolations,
    vs: Seq<(CommentIntegrityRuleViolations, CommentModel)>,
)
    ensures
        configured_level(default_levels(), v) == default_level(v),
        exit_status_with(default_levels(), vs) == exit_status_spec(vs),
{
    assert forall|k: int| 0 <= k < vs.len() implies configured_level(
        default_levels(),
        #[trigger] vs[k].0,
    ) == default_level(vs[k].0) by {}
}

/// The run fails as soon as any violation, at any position, is an error at its
/// configured level, and succeeds only when none is; so the status of two lists
/// of violations put together fails exactly when the status of either fails.
pub proof fn lemma_exit_status_fails_on_any_error(
    levels: Map<CommentIntegrityRuleViolations, ViolationLevel>,
    vs: Seq<(CommentIntegrityRuleViolations, CommentModel)>,
    ws: Seq<(CommentIntegrityRuleViolations, CommentModel)>,
)
    ensures
        forall|k: int|
            0 <= k < vs.len() && configured_level(levels, #[trigger] vs[k].0) == ViolationLevel::Error
                ==> exit_status_with(levels, vs) == ExitStatus::Failure,
        (forall|k: int|
            0 <= k < vs.len() ==> configured_level(levels, #[trigger] vs[k].0)
                != ViolationLevel::Error) ==> exit_status_with(levels, vs) == ExitStatus::Success,
        (exit_status_with(levels, vs + ws) == ExitStatus::Failure) == (exit_status_with(levels, vs)
            == ExitStatus::Failure || exit_status_with(levels, ws) == ExitStatus::Failure),
        forall|k: int|
            0 <= k < vs.len() && default_level(#[trigger] vs[k].0) == ViolationLevel::Error
                ==> exit_status_spec(vs) == ExitStatus::Failure,
        (forall|k: int| 0 <= k < vs.len() ==> default_level(#[trigger] vs[k].0) != ViolationLevel::Error)
            ==> exit_status_spec(vs) == ExitStatus::Success,
{
    let both = vs + ws;
    if exit_status_with(levels, both) == ExitStatus::Failure {
        let k = choose|k: int|
            0 <= k < both.len() && configured_level(levels, #[trigger] both[k].0)
                == ViolationLevel::Error;
        if k < vs.len() {
            assert(both[k] == vs[k]);
        } else {
            assert(both[k] == ws[k - vs.len()]);
        }
    }
    if exit_status_with(levels, vs) == ExitStatus::Failure {
        let k = choose|k: int|
            0 <= k < vs.len() && configured_level(levels, #[trigger] vs[k].0) == ViolationLevel::Error;
        assert(both[k] == vs[k]);
    }
    if exit_status_with(levels, ws) == ExitStatus::Failure {
        let k = choose|k: int|
            0 <= k < ws.len() && configured_level(levels, #[trigger] ws[k].0) == ViolationLevel::Error;
        assert(both[vs.len() + k] == ws[k]);
    }
}

/// The positions of the comments among the first `n` of `cs` that break a
/// rule, in order.
proof fn violating_positions(cs: Seq<CommentModel>, checks: Seq<HashCheckResult>, n: int) -> (idx:
    Seq<int>)
    requires
        0 <= n <= cs.len(),
        n <= checks.len(),
    ensures
        idx.len() == comment_violations_upto(cs, checks, n).len(),
        forall|j: int|
            0 <= j < idx.len() ==> 0 <= #[trigger] idx[j] < n && violation_given(cs[idx[j]], checks[idx[j]])
                == Some(comment_violations_upto(cs, checks, n)[j].0) && comment_violations_upto(
                cs,
                checks,
                n,
            )[j].1 == cs[idx[j]],
        forall|j1: int, j2: int| 0 <= j1 < j2 < idx.len() ==> idx[j1] < idx[j2],
        forall|k: int|
            0 <= k < n && (#[trigger] violation_given(cs[k], checks[k])) is Some ==> idx.contains(k),
    decreases n,
{
    if n == 0 {
        Seq::empty()
    } else {
        let prev = violating_positions(cs, checks, n - 1);
        let r0 = comment_violations_upto(cs, checks, n - 1);
        if violation_given(cs[n - 1], checks[n - 1]) is Some {
            let idx = prev.push(n - 1);
            assert(idx[prev.len() as int] == n - 1);
            assert forall|k: int|
                0 <= k < n && (#[trigger] violation_given(cs[k], checks[k])) is Some implies idx.contains(
                k,
            ) by {
                if k < n - 1 {
                    let j = choose|j: int| 0 <= j < prev.len() && prev[j] == k;
                    assert(idx[j] == k);
                }
            }
            idx
        } else {
            prev
        }
    }
}

/// Every comment's own violation is reported, once, in the order of the
/// comments, and nothing else is: the own violations of the comments `cs`
/// with hash checks `checks` are the violations `violation_given` finds for
/// the comments that break a rule, taken in order, each with its comment.
pub proof fn lemma_every_comment_violation_reported(
    cs: Seq<CommentModel>,
    checks: Seq<HashCheckResult>,
)
    requires
        checks.len() == cs.len(),
    ensures
        exists|idx: Seq<int>|
            #![trigger idx.len()]
            idx.len() == comment_violations_upto(cs, checks, cs.len() as int).len() && (forall|j: int|
                0 <= j < idx.len() ==> 0 <= #[trigger] idx[j] < cs.len() && violation_given(
                    cs[idx[j]],
                    checks[idx[j]],
                ) == Some(comment_violations_upto(cs, checks, cs.len() as int)[j].0)
                    && comment_violations_upto(cs, checks, cs.len() as int)[j].1 == cs[idx[j]])
                && (forall|j1: int, j2: int| 0 <= j1 < j2 < idx.len() ==> idx[j1] < idx[j2])
                && (forall|k: int|
                0 <= k < cs.len() && (#[trigger] violation_given(cs[k], checks[k])) is Some
                    ==> idx.contains(k)),
{
    let idx = violating_positions(cs, checks, cs.len() as int);
    assert(idx.len() == comment_violations_upto(cs, checks, cs.len() as int).len());
}

/// A dependency written `ID-HASH` is broken exactly when it should be: when
/// no comment has the id `ID` it depends on a comment that does not exist;
/// when the first comment with that id records the comment hash `HASH` it is
/// not broken; otherwise it depends on a changed comment.
pub proof fn lemma_dependency_on_recorded_hash(cs: Seq<CommentModel>, id: u64, h: Seq<char>)
    ensures
        dependency_violation(cs, decimal(id as nat) + seq!['-'] + h) == match first_with_id(
            cs,
            id as nat,
            0,
        ) {
            None => Some(CommentIntegrityRuleViolations::DependsOnCommentThatDoesntExist),
            Some(j) => if h == cs[j].comment_hash_parsed {
                None
            } else {
                Some(CommentIntegrityRuleViolations::DependsOnCommentThatChanged)
            },
        },
{
    let d = decimal(id as nat);
    let w = d + seq!['-'] + h;
    lemma_decimal_digits(id as nat);
    assert(matches_at(w, seq!['-'], d.len() as int)) by {
        assert(w.subrange(d.len() as int, d.len() + 1int) =~= seq!['-']);
    }
    assert forall|j: int| 0 <= j < d.len() implies !matches_at(w, seq!['-'], j) by {
        assert(is_digit(d[j]));
        assert(w.subrange(j, j + 1)[0] == d[j]);
    }
    lemma_find_from_first(w, seq!['-'], 0, d.len() as int);
    assert(w.take(d.len() as int) =~= d);
    assert(w.skip(d.len() + 1int) =~= h);
    lemma_parse_decimal(id as nat, u64::MAX as nat);
}

} // verus!
