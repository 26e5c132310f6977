//! The decisions of the command-line program: its arguments, which files it
//! reads, and how comments are grouped by file.
use vstd::prelude::*;
use crate::models::{CommentData, CommentModel};
use crate::parser::comment_models;
use crate::source_code_replacer::ref_models;
use crate::text::{
    byte_len, byte_len_of, find_from, utf8_width, lemma_byte_len_append, lemma_byte_len_push,
    lemma_split_from_nonempty, split_from, str_byte_len, strip_cr, chars_eq, chars_of, join, lemma_find_from, lines_chars, lines_of,
    parse_unsigned, parse_unsigned_chars, push_str_chars, split_chars, split_on, starts_with,
    starts_with_exec, string_of, string_views, trim, trim_chars, trim_start, trim_start_chars,
    views_of, extend_chars,
};

verus! {

broadcast use vstd::seq_lib::group_seq_properties;

/// The program's usage text.
pub const HELP_PAGE: &'static str = "
USAGE:
    $EXEC --source <PATH> --file-extensions <EXTS> --ignored-dirs <DIRS> [OPTIONS]

DESCRIPTION:
    A tool to parse and track code comments that reference specific lines of code.
    Comments can be 'stamped' with ```comments-2.0 N COMMENT_HASH CODE_HASH``` to 
    indicate they reference the next N lines of code and include integrity hashes.
    
    The tool stores can detect:
    - Comments without stamps (unstamped comments)
    - Code that changed but comment didn't (stale comments)
    - Comments that changed but code didn't 
    - Dependencies between comments, and generate warnings when a dependency is deleted or changed

REQUIRED FLAGS:
    --source <PATH>
        Path to the source code directory to analyze

    --file-extensions <EXTS>
        Comma-separated list of file extensions to process
        Example: --file-extensions rs,js,cpp

    --ignored-dirs <DIRS>
        Comma-separated list of directory names to skip during traversal
        Example: --ignored-dirs node_modules,target,build

OPTIONAL FLAGS:
    --db <PATH>
        Path to SQLite database file (default: comments.sqlite)
    --regenerate
        Flag to generate hashes for comments that have not be hashed yet
    --output-format <github>
        How to print out the violations
COMMENT STAMP FORMAT:
    Single-line comments:
        // Your comment text ```comments-2.0 0 comment_hash code_hash```
        
    Multi-line comments:
        /* Your comment text
           across multiple lines
```comments-2.0 0 comment_hash code_hash```
        */

    Where:
        N(=0)            = Number of lines of code this comment references
        COMMENT_HASH = Hash of the comment content (auto-generated)
        CODE_HASH    = Hash of the referenced code (auto-generated)

    Special cases:
        - N=0: Comment will be ignored in integrity checks
        - Missing hashes: Tool will flag for hash generation
        - Mismatched hashes: Tool will flag as code or comment changed
        - Missing stamp: The violation will be reported on tool run
INTEGRITY CHECKS:
    The tool performs the following checks:
    ✓ Detects comments without stamps
    ✓ Detects stamps without hashes (needs generation)
    ✓ Detects code changes (code hash mismatch)
    ✓ Detects comment changes (comment hash mismatch)
    ✓ Tracks location information (file, row, column)

EXAMPLES:
    # Analyze a Rust project
    $EXEC --source ./my-project --file-extensions rs --ignored-dirs target

    # Analyze multiple file types with custom database
    $EXEC --source ./codebase --file-extensions js,ts,jsx --ignored-dirs node_modules,dist --db ./my-comments.db

    # Example properly stamped comment in source code:
    // This function validates user input by trimming whitespace
    // and checking minimum length requirements
    //     ```comments-2.0 3 1234567890 0987654321```
    function validateInput(data) {
        const trimmed = data.trim();
        return trimmed.length > 0;
    }

    # Example comment to be ignored (N=0):
    // General note about the file architecture
    // ```comments-2.0 0```

";

/// The program's usage text.
pub fn help_page() -> (r: String)
    ensures
        r@ == HELP_PAGE@,
{
    HELP_PAGE.to_owned()
}

/// The error when the program is started without arguments.
pub open spec fn no_arguments_message() -> Seq<char> {
    "No arguments passed to executable, the help can be seen here: \n "@ + HELP_PAGE@
}

/// Options given as `--name value`, by name; a later value for a name wins.
pub struct ProgramOptions {
    entries: Vec<(String, String)>,
}

/// The options given by the name/value pairs `es`, in order.
pub open spec fn options_map(es: Seq<(Seq<char>, Seq<char>)>) -> Map<Seq<char>, Seq<char>>
    decreases es.len(),
{
    if es.len() == 0 {
        Map::empty()
    } else {
        options_map(es.drop_last()).insert(es.last().0, es.last().1)
    }
}

/// Name/value pairs as character sequences.
pub open spec fn pair_views(v: Seq<(String, String)>) -> Seq<(Seq<char>, Seq<char>)> {
    v.map_values(|p: (String, String)| (p.0@, p.1@))
}

impl View for ProgramOptions {
    type V = Map<Seq<char>, Seq<char>>;

    closed spec fn view(&self) -> Map<Seq<char>, Seq<char>> {
        options_map(pair_views(self.entries@))
    }
}

proof fn lemma_options_map_last(es: Seq<(Seq<char>, Seq<char>)>, key: Seq<char>, j: int)
    requires
        0 <= j < es.len(),
        es[j].0 == key,
        forall|k: int| j < k < es.len() ==> es[k].0 != key,
    ensures
        options_map(es).contains_key(key),
        options_map(es)[key] == es[j].1,
    decreases es.len(),
{
    if j < es.len() - 1 {
        lemma_options_map_last(es.drop_last(), key, j);
    }
}

proof fn lemma_options_map_absent(es: Seq<(Seq<char>, Seq<char>)>, key: Seq<char>)
    requires
        forall|k: int| 0 <= k < es.len() ==> es[k].0 != key,
    ensures
        !options_map(es).contains_key(key),
    decreases es.len(),
{
    if es.len() > 0 {
        lemma_options_map_absent(es.drop_last(), key);
    }
}

impl ProgramOptions {
    /// The value given for option `key`, if it was given.
    pub fn get(&self, key: &str) -> (r: Option<&String>)
        ensures
            match r {
                Some(v) => self@.contains_key(key@) && self@[key@] == v@,
                None => !self@.contains_key(key@),
            },
    {
        let ghost es = pair_views(self.entries@);
        let k = chars_of(key);
        let mut j: usize = self.entries.len();
        while j > 0
            invariant
                j <= self.entries.len(),
                es == pair_views(self.entries@),
                k@ == key@,
                forall|i: int| j <= i < es.len() ==> es[i].0 != key@,
            decreases j,
        {
            let name = chars_of(self.entries[j - 1].0.as_str());
            assert(es[j - 1].0 == name@);
            if chars_eq(&name, &k) {
                proof {
                    lemma_options_map_last(es, key@, j - 1);
                }
                return Some(&self.entries[j - 1].1);
            }
            j = j - 1;
        }
        proof {
            lemma_options_map_absent(es, key@);
        }
        None
    }

    /// Whether no option was given.
    pub fn is_empty(&self) -> (r: bool)
        ensures
            r == (self@.dom().len() == 0),
    {
        let ghost es = pair_views(self.entries@);
        proof {
            if es.len() == 0 {
                assert(options_map(es) =~= Map::empty());
            } else {
                lemma_options_map_last(es, es.last().0, es.len() - 1);
                assert(options_map(es).dom().contains(es.last().0));
                assert(options_map(es).dom().finite()) by {
                    lemma_options_map_finite(es);
                }
            }
        }
        self.entries.len() == 0
    }
}

proof fn lemma_options_map_finite(es: Seq<(Seq<char>, Seq<char>)>)
    ensures
        options_map(es).dom().finite(),
    decreases es.len(),
{
    if es.len() > 0 {
        lemma_options_map_finite(es.drop_last());
    }
}

/// The name and value of one `--name value` argument: the first word is the
/// name, the second (if any) the value.
pub open spec fn option_of(piece: Seq<char>) -> (Seq<char>, Seq<char>) {
    let words = split_on(piece, seq![' ']);
    (words[0], if words.len() >= 2 { words[1] } else { Seq::empty() })
}

/// The name/value pairs of the argument pieces `ps`, in order.
pub open spec fn options_of(ps: Seq<Seq<char>>) -> Seq<(Seq<char>, Seq<char>)> {
    ps.map_values(|p: Seq<char>| option_of(p))
}

/// The options of a command line whose first element is the program: the
/// arguments are joined with spaces and cut at each `--`; what precedes the
/// first `--` is ignored.
pub open spec fn program_args_spec(args: Seq<Seq<char>>) -> Result<Map<Seq<char>, Seq<char>>, Seq<char>> {
    if args.len() == 1 {
        Err(no_arguments_message())
    } else {
        let pieces = split_on(join(args.skip(1), seq![' ']), seq!['-', '-']);
        Ok(options_map(options_of(pieces.skip(1))))
    }
}

/// Reads the command line `args`, whose first element is the program.
pub fn parse_program_args(args: &Vec<String>) -> (r: Result<ProgramOptions, String>)
    requires
        args@.len() >= 1,
    ensures
        match (r, program_args_spec(string_views(args@))) {
            (Ok(o), Ok(m)) => o@ == m,
            (Err(e), Err(m)) => e@ == m,
            _ => false,
        },
{
    let ghost av = string_views(args@);
    if args.len() == 1 {
        let mut msg = chars_of("No arguments passed to executable, the help can be seen here: \n ");
        push_str_chars(&mut msg, HELP_PAGE);
        return Err(string_of(&msg));
    }
    let mut joined: Vec<char> = Vec::new();
    let mut i: usize = 1;
    let ghost rest = av.skip(1);
    while i < args.len()
        invariant
            1 <= i <= args.len(),
            av == string_views(args@),
            rest == av.skip(1),
            joined@ == join(rest.take(i - 1), seq![' ']),
        decreases args.len() - i,
    {
        let a = chars_of(args[i].as_str());
        assert(rest.take(i as int).drop_last() =~= rest.take(i - 1));
        assert(rest.take(i as int).last() == a@);
        if i > 1 {
            joined.push(' ');
        }
        extend_chars(&mut joined, &a);
        proof {
            if i == 1 {
                assert(joined@ =~= rest.take(1)[0]);
            } else {
                assert(joined@ =~= join(rest.take(i - 1), seq![' ']) + seq![' '] + a@);
            }
        }
        i = i + 1;
    }
    assert(rest.take(args.len() - 1) =~= rest);
    let mut dashes: Vec<char> = Vec::new();
    dashes.push('-');
    dashes.push('-');
    assert(dashes@ =~= seq!['-', '-']);
    let pieces = split_chars(&joined, &dashes);
    let ghost ps = views_of(pieces@);
    let mut space: Vec<char> = Vec::new();
    space.push(' ');
    assert(space@ =~= seq![' ']);
    let mut entries: Vec<(String, String)> = Vec::new();
    let mut k: usize = 1;
    while k < pieces.len()
        invariant
            1 <= k <= pieces.len(),
            ps == views_of(pieces@),
            space@ == seq![' '],
            pair_views(entries@) == options_of(ps.skip(1).take(k - 1)),
        decreases pieces.len() - k,
    {
        let words = split_chars(&pieces[k], &space);
        assert(ps[k as int] == pieces@[k as int]@);
        assert(views_of(words@)[0] == words@[0]@);
        let key = string_of(&words[0]);
        let value = if words.len() >= 2 {
            assert(views_of(words@)[1] == words@[1]@);
            string_of(&words[1])
        } else {
            String::new()
        };
        let ghost before = entries@;
        entries.push((key, value));
        assert(ps.skip(1).take(k as int) =~= ps.skip(1).take(k - 1).push(ps[k as int]));
        assert(pair_views(entries@) =~= pair_views(before).push((key@, value@)));
        assert(options_of(ps.skip(1).take(k as int)) =~= options_of(ps.skip(1).take(k - 1)).push(
            option_of(ps[k as int]),
        ));
        k = k + 1;
    }
    assert(ps.skip(1).take(pieces.len() - 1) =~= ps.skip(1));
    Ok(ProgramOptions { entries })
}

/// Checks combinations of options; every combination is accepted.
pub fn are_args_valid(args: &ProgramOptions) -> (r: Result<(), &'static str>)
    ensures
        r is Ok,
{
    Ok(())
}

/// The comma-separated items of an option value, after trimming the value.
pub fn split_option_list(value: &str) -> (r: Vec<String>)
    ensures
        string_views(r@) == split_on(trim(value@), seq![',']),
{
    let v = chars_of(value);
    let t = trim_chars(&v);
    let mut comma: Vec<char> = Vec::new();
    comma.push(',');
    assert(comma@ =~= seq![',']);
    let parts = split_chars(&t, &comma);
    let ghost ps = views_of(parts@);
    let mut r: Vec<String> = Vec::new();
    let mut i: usize = 0;
    while i < parts.len()
        invariant
            i <= parts.len(),
            ps == views_of(parts@),
            string_views(r@) == ps.take(i as int),
        decreases parts.len() - i,
    {
        let s = string_of(&parts[i]);
        let ghost before = r@;
        r.push(s);
        assert(string_views(r@) =~= string_views(before).push(s@));
        assert(ps.take(i as int + 1) =~= ps.take(i as int).push(ps[i as int]));
        i = i + 1;
    }
    assert(ps.take(parts.len() as int) =~= ps);
    r
}

/// Whether `name` is one of `names`.
fn contains_name(names: &Vec<String>, name: &str) -> (r: bool)
    ensures
        r == string_views(names@).contains(name@),
{
    let n = chars_of(name);
    let ghost vs = string_views(names@);
    let mut i: usize = 0;
    while i < names.len()
        invariant
            i <= names.len(),
            vs == string_views(names@),
            n@ == name@,
            forall|k: int| 0 <= k < i ==> vs[k] != name@,
        decreases names.len() - i,
    {
        let c = chars_of(names[i].as_str());
        assert(vs[i as int] == c@);
        if chars_eq(&c, &n) {
            return true;
        }
        i = i + 1;
    }
    false
}

/// Whether a directory named `dir_name` is searched for source files: it is
/// not one of the ignored directories and its name does not start with `.`.
pub fn should_descend_into(dir_name: &str, ignored_dirs: &Vec<String>) -> (r: bool)
    ensures
        r == (!string_views(ignored_dirs@).contains(dir_name@) && !starts_with(
            dir_name@,
            seq!['.'],
        )),
{
    let name = chars_of(dir_name);
    let mut dot: Vec<char> = Vec::new();
    dot.push('.');
    assert(dot@ =~= seq!['.']);
    !contains_name(ignored_dirs, dir_name) && !starts_with_exec(&name, &dot)
}

/// Whether a file with extension `extension` is read.
pub fn is_allowed_extension(extension: &str, file_extensions_allowed: &Vec<String>) -> (r: bool)
    ensures
        r == string_views(file_extensions_allowed@).contains(extension@),
{
    contains_name(file_extensions_allowed, extension)
}

/// Whether processing `files_to_process` files is worth several threads.
pub fn uses_threads(files_to_process: u64) -> (r: bool)
    ensures
        r == (files_to_process >= 1000),
{
    files_to_process >= 1000
}

/// The first line of `ls` at or after `j` that starts with `prefix`.
pub open spec fn first_line_with_prefix(ls: Seq<Seq<char>>, prefix: Seq<char>, j: int) -> Option<int>
    decreases ls.len() - j,
{
    if j < 0 || j >= ls.len() {
        None
    } else if starts_with(ls[j], prefix) {
        Some(j)
    } else {
        first_line_with_prefix(ls, prefix, j + 1)
    }
}

/// The available memory in kB that a `/proc/meminfo` text reports: the number
/// after the colon on the first line starting with `MemAvailable`.
pub open spec fn mem_available_spec(meminfo: Seq<char>) -> Option<nat> {
    let ls = lines_of(meminfo);
    match first_line_with_prefix(ls, "MemAvailable"@, 0) {
        None => None,
        Some(j) => {
            let parts = split_on(ls[j], seq![':']);
            if parts.len() < 2 {
                None
            } else {
                let fields = split_on(trim_start(parts[1]), seq![' ']);
                parse_unsigned(fields[0], usize::MAX as nat)
            }
        },
    }
}

/// Reads the available memory in kB from the text of `/proc/meminfo`.
pub fn parse_mem_available(meminfo_contents: &str) -> (r: Option<usize>)
    ensures
        match r {
            Some(v) => mem_available_spec(meminfo_contents@) == Some(v as nat),
            None => mem_available_spec(meminfo_contents@) is None,
        },
{
    let text = chars_of(meminfo_contents);
    let lines = lines_chars(&text);
    let ghost ls = views_of(lines@);
    let prefix = chars_of("MemAvailable");
    let mut j: usize = 0;
    while j < lines.len()
        invariant
            j <= lines.len(),
            ls == views_of(lines@),
            ls == lines_of(meminfo_contents@),
            prefix@ == "MemAvailable"@,
            first_line_with_prefix(ls, "MemAvailable"@, 0) == first_line_with_prefix(
                ls,
                "MemAvailable"@,
                j as int,
            ),
        decreases lines.len() - j,
    {
        assert(ls[j as int] == lines@[j as int]@);
        if starts_with_exec(&lines[j], &prefix) {
            let mut colon: Vec<char> = Vec::new();
            colon.push(':');
            assert(colon@ =~= seq![':']);
            let parts = split_chars(&lines[j], &colon);
            if parts.len() < 2 {
                return None;
            }
            assert(views_of(parts@)[1] == parts@[1]@);
            let t = trim_start_chars(&parts[1]);
            let mut space: Vec<char> = Vec::new();
            space.push(' ');
            assert(space@ =~= seq![' ']);
            let fields = split_chars(&t, &space);
            assert(views_of(fields@)[0] == fields@[0]@);
            return match parse_unsigned_chars(&fields[0], usize::MAX as u64) {
                Some(v) => Some(v as usize),
                None => None,
            };
        }
        j = j + 1;
    }
    None
}

/// The files of the comments `cs`, each once, in order of first appearance.
pub open spec fn files_in_order(cs: Seq<CommentModel>) -> Seq<Seq<char>>
    decreases cs.len(),
{
    if cs.len() == 0 {
        Seq::empty()
    } else {
        let r = files_in_order(cs.drop_last());
        if r.contains(cs.last().file) {
            r
        } else {
            r.push(cs.last().file)
        }
    }
}

/// The comments of `cs` that belong to file `file`, in order.
pub open spec fn with_file(cs: Seq<CommentModel>, file: Seq<char>) -> Seq<CommentModel>
    decreases cs.len(),
{
    if cs.len() == 0 {
        Seq::empty()
    } else {
        let r = with_file(cs.drop_last(), file);
        if cs.last().file == file {
            r.push(cs.last())
        } else {
            r
        }
    }
}

/// The comments grouped by file: one group per file, files in order of first
/// appearance, each group holding that file's comments in order.
pub fn group_comments_by_file<'a>(comments: &'a Vec<CommentData>) -> (r: Vec<
    (String, Vec<&'a CommentData>),
>)
    ensures
        r@.len() == files_in_order(comment_models(comments@)).len(),
        forall|k: int|
            0 <= k < r@.len() ==> (#[trigger] r@[k]).0@ == files_in_order(
                comment_models(comments@),
            )[k] && ref_models(r@[k].1@) == with_file(comment_models(comments@), r@[k].0@),
{
    let ghost cs = comment_models(comments@);
    let mut files: Vec<String> = Vec::new();
    let mut i: usize = 0;
    while i < comments.len()
        invariant
            i <= comments.len(),
            cs == comment_models(comments@),
            string_views(files@) == files_in_order(cs.take(i as int)),
        decreases comments.len() - i,
    {
        assert(cs.take(i as int + 1).drop_last() =~= cs.take(i as int));
        assert(cs.take(i as int + 1).last() == comments@[i as int]@);
        if !contains_name(&files, comments[i].file.as_str()) {
            let f = comments[i].file.clone();
            let ghost before = files@;
            files.push(f);
            assert(string_views(files@) =~= string_views(before).push(f@));
        }
        i = i + 1;
    }
    assert(cs.take(comments.len() as int) =~= cs);
    let mut groups: Vec<(String, Vec<&'a CommentData>)> = Vec::new();
    let mut g: usize = 0;
    while g < files.len()
        invariant
            g <= files.len(),
            cs == comment_models(comments@),
            string_views(files@) == files_in_order(cs),
            groups@.len() == g,
            forall|k: int|
                0 <= k < g ==> (#[trigger] groups@[k]).0@ == files_in_order(cs)[k] && ref_models(
                    groups@[k].1@,
                ) == with_file(cs, groups@[k].0@),
        decreases files.len() - g,
    {
        let f = files[g].clone();
        let name = chars_of(f.as_str());
        let mut members: Vec<&'a CommentData> = Vec::new();
        let mut j: usize = 0;
        while j < comments.len()
            invariant
                j <= comments.len(),
                cs == comment_models(comments@),
                name@ == f@,
                ref_models(members@) == with_file(cs.take(j as int), f@),
            decreases comments.len() - j,
        {
            assert(cs.take(j as int + 1).drop_last() =~= cs.take(j as int));
            assert(cs.take(j as int + 1).last() == comments@[j as int]@);
            let other = chars_of(comments[j].file.as_str());
            if chars_eq(&other, &name) {
                let ghost before = members@;
                members.push(&comments[j]);
                assert(ref_models(members@) =~= ref_models(before).push(comments@[j as int]@));
            }
            j = j + 1;
        }
        assert(cs.take(comments.len() as int) =~= cs);
        assert(string_views(files@)[g as int] == f@);
        let ghost before = groups@;
        groups.push((f, members));
        assert(forall|k: int| 0 <= k < g ==> groups@[k] == before[k]);
        g = g + 1;
    }
    groups
}

/// The number of comments in the groups of the files `fs`.
pub open spec fn grouped_count(cs: Seq<CommentModel>, fs: Seq<Seq<char>>) -> nat
    decreases fs.len(),
{
    if fs.len() == 0 {
        0
    } else {
        grouped_count(cs, fs.drop_last()) + with_file(cs, fs.last()).len()
    }
}

proof fn lemma_files_in_order(cs: Seq<CommentModel>)
    ensures
        forall|f: Seq<char>|
            #[trigger] files_in_order(cs).contains(f) <==> exists|k: int|
                0 <= k < cs.len() && #[trigger] cs[k].file == f,
        files_in_order(cs).no_duplicates(),
    decreases cs.len(),
{
    if cs.len() > 0 {
        let d = cs.drop_last();
        lemma_files_in_order(d);
        let x = cs.last();
        assert forall|f: Seq<char>| #[trigger] files_in_order(cs).contains(f) <==> exists|k: int|
            0 <= k < cs.len() && #[trigger] cs[k].file == f by {
            if files_in_order(cs).contains(f) {
                if files_in_order(d).contains(f) {
                    let k = choose|k: int| 0 <= k < d.len() && #[trigger] d[k].file == f;
                    assert(cs[k] == d[k]);
                } else {
                    assert(f == x.file);
                    assert(cs[cs.len() - 1].file == f);
                }
            }
            if exists|k: int| 0 <= k < cs.len() && #[trigger] cs[k].file == f {
                let k = choose|k: int| 0 <= k < cs.len() && #[trigger] cs[k].file == f;
                if k < cs.len() - 1 {
                    assert(d[k] == cs[k]);
                    assert(files_in_order(d).contains(f));
                } else {
                    assert(f == x.file);
                }
            }
        }
    }
}

proof fn lemma_with_file_empty(cs: Seq<CommentModel>, f: Seq<char>)
    requires
        forall|k: int| 0 <= k < cs.len() ==> (#[trigger] cs[k]).file != f,
    ensures
        with_file(cs, f).len() == 0,
    decreases cs.len(),
{
    if cs.len() > 0 {
        let d = cs.drop_last();
        assert forall|k: int| 0 <= k < d.len() implies (#[trigger] d[k]).file != f by {
            assert(d[k] == cs[k]);
        }
        lemma_with_file_empty(d, f);
        assert(cs[cs.len() - 1].file != f);
    }
}

proof fn lemma_with_file_holds(cs: Seq<CommentModel>, k: int)
    requires
        0 <= k < cs.len(),
    ensures
        with_file(cs, cs[k].file).contains(cs[k]),
    decreases cs.len(),
{
    let d = cs.drop_last();
    let f = cs[k].file;
    if k == cs.len() - 1 {
        assert(with_file(cs, f) == with_file(d, f).push(cs[k]));
        assert(with_file(cs, f)[with_file(d, f).len() as int] == cs[k]);
    } else {
        assert(d[k] == cs[k]);
        lemma_with_file_holds(d, k);
        let i = choose|i: int| 0 <= i < with_file(d, f).len() && with_file(d, f)[i] == cs[k];
        if cs.last().file == f {
            assert(with_file(cs, f)[i] == cs[k]);
        }
    }
}

proof fn lemma_grouped_count_push(cs: Seq<CommentModel>, x: CommentModel, fs: Seq<Seq<char>>)
    requires
        fs.no_duplicates(),
    ensures
        grouped_count(cs.push(x), fs) == grouped_count(cs, fs) + (if fs.contains(x.file) {
            1nat
        } else {
            0nat
        }),
    decreases fs.len(),
{
    if fs.len() > 0 {
        let d = fs.drop_last();
        assert(d.no_duplicates()) by {
            assert forall|i: int, j: int| 0 <= i < d.len() && 0 <= j < d.len() && i != j implies d[i]
                != d[j] by {
                assert(d[i] == fs[i] && d[j] == fs[j]);
            }
        }
        lemma_grouped_count_push(cs, x, d);
        assert(cs.push(x).drop_last() =~= cs);
        assert(cs.push(x).last() == x);
        if fs.last() == x.file {
            assert(!d.contains(x.file)) by {
                if d.contains(x.file) {
                    let i = choose|i: int| 0 <= i < d.len() && d[i] == x.file;
                    assert(fs[i] == fs[fs.len() - 1]);
                }
            }
            assert(fs.contains(x.file)) by {
                assert(fs[fs.len() - 1] == x.file);
            }
        } else {
            assert(fs.contains(x.file) == d.contains(x.file)) by {
                if fs.contains(x.file) {
                    let i = choose|i: int| 0 <= i < fs.len() && fs[i] == x.file;
                    assert(i < fs.len() - 1);
                    assert(d[i] == x.file);
                }
                if d.contains(x.file) {
                    let i = choose|i: int| 0 <= i < d.len() && d[i] == x.file;
                    assert(fs[i] == x.file);
                }
            }
        }
    }
}

/// Grouping comments by file keeps every comment in exactly one group: each
/// comment's file has a group and that group holds it, no file has two groups,
/// and the groups together hold as many comments as there are.
pub proof fn lemma_grouping_keeps_every_comment(cs: Seq<CommentModel>)
    ensures
        forall|k: int|
            0 <= k < cs.len() ==> files_in_order(cs).contains(#[trigger] cs[k].file) && with_file(
                cs,
                cs[k].file,
            ).contains(cs[k]),
        files_in_order(cs).no_duplicates(),
        grouped_count(cs, files_in_order(cs)) == cs.len(),
    decreases cs.len(),
{
    lemma_files_in_order(cs);
    assert forall|k: int| 0 <= k < cs.len() implies files_in_order(cs).contains(
        #[trigger] cs[k].file,
    ) && with_file(cs, cs[k].file).contains(cs[k]) by {
        lemma_with_file_holds(cs, k);
    }
    if cs.len() > 0 {
        let d = cs.drop_last();
        let x = cs.last();
        lemma_grouping_keeps_every_comment(d);
        lemma_files_in_order(d);
        assert(d.push(x) =~= cs);
        let fd = files_in_order(d);
        lemma_grouped_count_push(d, x, fd);
        if !fd.contains(x.file) {
            let fc = files_in_order(cs);
            assert(fc == fd.push(x.file));
            assert(fc.drop_last() =~= fd);
            assert forall|k: int| 0 <= k < d.len() implies (#[trigger] d[k]).file != x.file by {
                if d[k].file == x.file {
                    assert(fd.contains(d[k].file));
                }
            }
            lemma_with_file_empty(d, x.file);
            assert(with_file(cs, x.file) == with_file(d, x.file).push(x));
        }
    }
}

/// The byte offset at which line `n` of `ls` starts, counting one byte for
/// each line break.
pub open spec fn line_start_offset(ls: Seq<Seq<char>>, n: int) -> nat
    decreases n,
{
    if n <= 0 {
        0
    } else {
        line_start_offset(ls, n - 1) + byte_len(ls[n - 1]) + 1
    }
}

/// The byte offset in `content` of 1-based row `row` and byte column `col`,
/// when the row exists and the column is within it.
pub open spec fn position_spec(content: Seq<char>, row: u64, col: u64) -> Option<nat> {
    let ls = lines_of(content);
    if 1 <= row && row <= ls.len() {
        if col > byte_len(ls[row - 1]) {
            None
        } else {
            Some(line_start_offset(ls, row - 1) + col as nat)
        }
    } else {
        None
    }
}

/// The byte length of pieces joined by one-byte separators.
pub open spec fn pieces_bytes(ps: Seq<Seq<char>>) -> nat
    decreases ps.len(),
{
    if ps.len() == 0 {
        0
    } else if ps.len() == 1 {
        byte_len(ps[0])
    } else {
        byte_len(ps[0]) + 1 + pieces_bytes(ps.drop_first())
    }
}

proof fn lemma_split_newline_bytes(s: Seq<char>, i: int)
    requires
        0 <= i <= s.len(),
    ensures
        pieces_bytes(split_from(s, seq!['\n'], i)) == byte_len(s.skip(i)),
    decreases s.len() + 1 - i,
{
    let p = seq!['\n'];
    lemma_find_from(s, p, i);
    if find_from(s, p, i) is Some {
        let k = find_from(s, p, i)->0;
        assert(s[k] == '\n') by {
            assert(s.subrange(k, k + 1)[0] == s[k]);
        }
        lemma_split_newline_bytes(s, k + 1);
        lemma_split_from_nonempty(s, p, k + 1);
        let rest = split_from(s, p, k + 1);
        let all = split_from(s, p, i);
        assert(all.drop_first() =~= rest);
        lemma_skip_newline_bytes(s, i, k);
    }
}

proof fn lemma_skip_newline_bytes(s: Seq<char>, i: int, k: int)
    requires
        0 <= i <= k < s.len(),
        s[k] == '\n',
    ensures
        byte_len(s.skip(i)) == byte_len(s.subrange(i, k)) + 1 + byte_len(s.skip(k + 1)),
{
    assert(s.skip(i) =~= s.subrange(i, k) + (seq!['\n'] + s.skip(k + 1)));
    lemma_byte_len_append(s.subrange(i, k), seq!['\n'] + s.skip(k + 1));
    lemma_byte_len_append(seq!['\n'], s.skip(k + 1));
    assert(seq!['\n'].drop_first() =~= Seq::<char>::empty());
    assert(byte_len(seq!['\n']) == utf8_width('\n') + byte_len(seq!['\n'].drop_first()));
}

proof fn lemma_pieces_prefix(ps: Seq<Seq<char>>, n: int)
    requires
        0 <= n < ps.len(),
    ensures
        line_start_offset(ps, n) + pieces_bytes(ps.skip(n)) == pieces_bytes(ps),
        byte_len(ps[n]) <= pieces_bytes(ps.skip(n)),
    decreases n,
{
    if n > 0 {
        lemma_pieces_prefix(ps, n - 1);
        let t = ps.skip(n - 1);
        assert(t.drop_first() =~= ps.skip(n));
        assert(t[0] == ps[n - 1]);
    }
    let u = ps.skip(n);
    assert(u[0] == ps[n]);
}

proof fn lemma_strip_cr_bytes(l: Seq<char>)
    ensures
        byte_len(strip_cr(l)) <= byte_len(l),
{
    if l.len() > 0 && l.last() == '\r' {
        assert(l =~= l.drop_last().push('\r'));
        lemma_byte_len_push(l.drop_last(), '\r');
    }
}

proof fn lemma_line_offsets_mono(ls: Seq<Seq<char>>, ps: Seq<Seq<char>>, n: int)
    requires
        0 <= n <= ls.len(),
        ls.len() <= ps.len(),
        forall|k: int| 0 <= k < ls.len() ==> byte_len(#[trigger] ls[k]) <= byte_len(ps[k]),
    ensures
        line_start_offset(ls, n) <= line_start_offset(ps, n),
    decreases n,
{
    if n > 0 {
        lemma_line_offsets_mono(ls, ps, n - 1);
    }
}

/// A line of a text, with what precedes it, fits in the text.
proof fn lemma_line_within_text(content: Seq<char>, n: int)
    requires
        0 <= n < lines_of(content).len(),
    ensures
        line_start_offset(lines_of(content), n) + byte_len(lines_of(content)[n]) <= byte_len(
            content,
        ),
{
    let ls = lines_of(content);
    let ps = split_on(content, seq!['\n']);
    lemma_split_from_nonempty(content, seq!['\n'], 0);
    lemma_split_newline_bytes(content, 0);
    assert(content.skip(0) =~= content);
    assert forall|k: int| 0 <= k < ls.len() implies byte_len(#[trigger] ls[k]) <= byte_len(ps[k]) by {
        if k < ps.len() - 1 {
            lemma_strip_cr_bytes(ps[k]);
        }
    }
    lemma_line_offsets_mono(ls, ps, n);
    lemma_pieces_prefix(ps, n);
}

/// The byte offset in `content` of the 1-based row `row` and byte column `col`;
/// `None` when there is no such row or the column is past the row's end.
pub fn position_from_row_col(content: &str, row: u64, col: u64) -> (r: Option<usize>)
    ensures
        match r {
            Some(p) => position_spec(content@, row, col) == Some(p as nat),
            None => position_spec(content@, row, col) is None,
        },
{
    let total = str_byte_len(content);
    let text = chars_of(content);
    let lines = lines_chars(&text);
    let ghost ls = views_of(lines@);
    let mut current_row: u64 = 0;
    let mut position: usize = 0;
    let mut i: usize = 0;
    while i < lines.len()
        invariant
            i <= lines.len(),
            ls == views_of(lines@),
            ls == lines_of(content@),
            total == byte_len(content@),
            current_row == i,
            i < lines.len() ==> position == line_start_offset(ls, i as int),
            !(1 <= row && row <= i),
        decreases lines.len() - i,
    {
        proof {
            lemma_line_within_text(content@, i as int);
        }
        assert(ls[i as int] == lines@[i as int]@);
        let line_len = byte_len_of(&lines[i]);
        current_row = current_row + 1;
        if current_row == row {
            if col > line_len as u64 {
                return None;
            }
            return Some(position + col as usize);
        }
        if i + 1 < lines.len() {
            proof {
                lemma_line_within_text(content@, i as int + 1);
            }
            position = position + line_len + 1;
        }
        i = i + 1;
    }
    None
}

} // verus!
