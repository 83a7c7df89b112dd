//! Which paths the scanner and the watcher pass over: gitignore patterns,
//! matched by the `ignore` crate, applied to a path and to the directories
//! above it.

use crate::paths::join;
use crate::paths::join_components;
use crate::paths::path_components;
use crate::paths::split_components;
use crate::paths::to_chars;
use vstd::prelude::*;

verus! {

/// The matcher built from a list of patterns.
#[verifier::external_type_specification]
#[verifier::external_body]
pub struct ExGitignore(ignore::gitignore::Gitignore);

/// The builder that gathers the patterns.
#[verifier::external_type_specification]
#[verifier::external_body]
pub struct ExGitignoreBuilder(ignore::gitignore::GitignoreBuilder);

/// Why a pattern or a list of patterns was refused.
#[verifier::external_type_specification]
#[verifier::external_body]
pub struct ExIgnoreError(ignore::Error);

/// What the patterns say of one path.
#[derive(Debug, PartialEq, Eq, Clone, Copy)]
pub enum Verdict {
    /// No pattern speaks of the path.
    Unmatched,
    /// The last pattern that speaks of it ignores it.
    Ignore,
    /// The last pattern that speaks of it is negated: the path is kept.
    Whitelist,
}

/// The lines that a builder holds, first to last: of each line that it
/// accepted, what it kept of it.
pub uninterp spec fn builder_lines(builder: ignore::gitignore::GitignoreBuilder) -> Seq<Seq<char>>;

/// The lines that a matcher holds: those of its builder when it was built.
pub uninterp spec fn matcher_lines(matcher: ignore::gitignore::Gitignore) -> Seq<Seq<char>>;

/// Whether a line ends in a backslash and a space: an escaped space, which
/// is no white space to take off.
pub open spec fn ends_in_escaped_space(line: Seq<char>) -> bool {
    line.len() >= 2 && line[line.len() - 2] == '\\' && line[line.len() - 1] == ' '
}

/// What a builder keeps of a line that it accepts: nothing of a comment,
/// which begins with `#`, and nothing of a line that is blank; of any other
/// line the line without the white space at its end, or the whole line where
/// it ends in an escaped space.
pub open spec fn kept_line(line: Seq<char>) -> Seq<Seq<char>> {
    if line.len() > 0 && line[0] == '#' {
        Seq::empty()
    } else {
        let text = if ends_in_escaped_space(line) {
            line
        } else {
            line.take(line.len() - trailing_white(line))
        };
        if text.len() == 0 {
            Seq::empty()
        } else {
            seq![text]
        }
    }
}

/// What a builder keeps of lines that it accepts, first to last.
pub open spec fn kept_lines(lines: Seq<Seq<char>>) -> Seq<Seq<char>>
    decreases lines.len(),
{
    if lines.len() == 0 {
        Seq::empty()
    } else {
        kept_lines(lines.drop_last()) + kept_line(lines.last())
    }
}

/// Whether the builder accepts a line: it is blank, a comment, or a glob
/// that parses.
pub uninterp spec fn line_accepted(line: Seq<char>) -> bool;

/// Whether a matcher can be built from the lines.
pub uninterp spec fn lines_build(lines: Seq<Seq<char>>) -> bool;

/// What a matcher built from the lines says of a path taken by itself, the
/// directories above it left aside.
pub uninterp spec fn glob_verdict(lines: Seq<Seq<char>>, path: Seq<char>, is_dir: bool) -> Verdict;

/// `GitignoreBuilder::new` with the empty path as root. Trusted: the new
/// builder has accepted no line.
#[verifier::external_body]
fn new_builder() -> (builder: ignore::gitignore::GitignoreBuilder)
    ensures
        builder_lines(builder) == Seq::<Seq<char>>::empty(),
{
    ignore::gitignore::GitignoreBuilder::new("")
}

/// `GitignoreBuilder::add_line` for a line that comes from no file.
/// Trusted: whether the line is accepted depends on the line alone; of an
/// accepted line the builder keeps what `kept_line` says, after what it
/// held before; and a refused line leaves the builder as it was.
#[verifier::external_body]
fn add_line(builder: &mut ignore::gitignore::GitignoreBuilder, line: &str) -> (added: Result<
    (),
    ignore::Error,
>)
    ensures
        added is Ok <==> line_accepted(line@),
        added is Ok ==> builder_lines(*final(builder)) == builder_lines(*old(builder))
            + kept_line(line@),
        added is Err ==> builder_lines(*final(builder)) == builder_lines(*old(builder)),
{
    match builder.add_line(None, line) {
        Ok(_) => Ok(()),
        Err(e) => Err(e),
    }
}

/// `GitignoreBuilder::build`. Trusted: whether it succeeds depends on the
/// lines that the builder holds alone, and the matcher holds exactly those.
#[verifier::external_body]
fn build_matcher(builder: &ignore::gitignore::GitignoreBuilder) -> (built: Result<
    ignore::gitignore::Gitignore,
    ignore::Error,
>)
    ensures
        built is Ok <==> lines_build(builder_lines(*builder)),
        built matches Ok(matcher) ==> matcher_lines(matcher) == builder_lines(*builder),
{
    builder.build()
}

/// `Gitignore::empty`. Trusted: it is a matcher that holds no line.
#[verifier::external_body]
fn empty_matcher() -> (matcher: ignore::gitignore::Gitignore)
    ensures
        matcher_lines(matcher) == Seq::<Seq<char>>::empty(),
{
    ignore::gitignore::Gitignore::empty()
}

/// `Gitignore::matched`. Trusted: the verdict depends on the lines that the
/// matcher holds, the path and the directory flag alone, and a matcher that
/// holds no line matches nothing.
#[verifier::external_body]
fn matched(matcher: &ignore::gitignore::Gitignore, path: &str, is_dir: bool) -> (verdict: Verdict)
    ensures
        verdict == glob_verdict(matcher_lines(*matcher), path@, is_dir),
        matcher_lines(*matcher).len() == 0 ==> verdict == Verdict::Unmatched,
{
    match matcher.matched(path, is_dir) {
        ignore::Match::None => Verdict::Unmatched,
        ignore::Match::Ignore(_) => Verdict::Ignore,
        ignore::Match::Whitelist(_) => Verdict::Whitelist,
    }
}

/// `Path::is_dir`: whether the path names a directory on disk right now.
/// Nothing is claimed of the answer.
#[verifier::external_body]
fn path_is_dir(path: &str) -> bool {
    std::path::Path::new(path).is_dir()
}

/// The text of an error of the `ignore` crate, as its `Display` gives it.
/// Nothing is claimed of the text.
#[verifier::external_body]
fn error_text(error: &ignore::Error) -> String {
    format!("{error}")
}

/// Why a list of patterns gives no configuration.
#[derive(Debug, PartialEq, Eq)]
pub enum IgnoreError {
    /// The pattern at `index` is not a glob that parses.
    Pattern { index: usize, message: String },
    /// Each pattern parses, but no matcher can be built from them together.
    Build { message: String },
}

impl IgnoreError {
    /// The error as text: the message that came with it.
    pub fn to_text(&self) -> (text: String)
        ensures
            text@ == match self {
                IgnoreError::Pattern { index, message } => message@,
                IgnoreError::Build { message } => message@,
            },
    {
        match self {
            IgnoreError::Pattern { index: _, message } => message.clone(),
            IgnoreError::Build { message } => message.clone(),
        }
    }
}

/// What the directories above a path say of it: the verdict of the nearest
/// of the first `k` directories on the path of which a pattern speaks. Each
/// is matched as a directory, by the path that leads to it.
pub open spec fn ancestor_verdict(lines: Seq<Seq<char>>, names: Seq<Seq<char>>, k: int) -> Verdict
    decreases k,
{
    if k <= 0 || k > names.len() {
        Verdict::Unmatched
    } else {
        match glob_verdict(lines, join_components(names.take(k)), true) {
            Verdict::Unmatched => ancestor_verdict(lines, names, k - 1),
            verdict => verdict,
        }
    }
}

/// What the patterns say of a path: what they say of the path itself, or,
/// where they say nothing of it, what they say of the nearest directory
/// above it of which they speak.
pub open spec fn path_verdict(lines: Seq<Seq<char>>, path: Seq<char>, is_dir: bool) -> Verdict {
    match glob_verdict(lines, path, is_dir) {
        Verdict::Unmatched => {
            let names = path_components(path);
            ancestor_verdict(lines, names, names.len() - 1)
        },
        verdict => verdict,
    }
}

/// Whether the patterns ignore a path: what a matcher that holds what is
/// kept of them says of it. Comments and blank lines among the patterns
/// say nothing.
pub open spec fn ignores(patterns: Seq<Seq<char>>, path: Seq<char>, is_dir: bool) -> bool {
    path_verdict(kept_lines(patterns), path, is_dir) == Verdict::Ignore
}

/// The index of the first line that the builder refuses, or the number of
/// lines when it accepts them all.
pub open spec fn first_refused(lines: Seq<Seq<char>>) -> int
    decreases lines.len(),
{
    if lines.len() == 0 {
        0
    } else {
        let before = first_refused(lines.drop_last());
        if before < lines.len() - 1 {
            before
        } else if line_accepted(lines.last()) {
            lines.len() as int
        } else {
            lines.len() - 1
        }
    }
}

/// The set of patterns that the scanner and the watcher ignore.
pub struct IgnoreConfig {
    gitignore: ignore::gitignore::Gitignore,
    patterns: Vec<String>,
}

impl View for IgnoreConfig {
    type V = Seq<Seq<char>>;

    closed spec fn view(&self) -> Seq<Seq<char>> {
        self.patterns.deep_view()
    }
}

impl IgnoreConfig {
    #[verifier::type_invariant]
    spec fn matcher_is_of_patterns(&self) -> bool {
        matcher_lines(self.gitignore) == kept_lines(self.patterns.deep_view())
    }

    /// The configuration for a list of gitignore patterns. It is refused at
    /// the first pattern that does not parse, and where no matcher can be
    /// built from patterns that each parse.
    pub fn new(patterns: &[&str]) -> (result: Result<IgnoreConfig, IgnoreError>)
        ensures
            match result {
                Ok(config) => {
                    &&& config@ == patterns.deep_view()
                    &&& first_refused(patterns.deep_view()) == patterns.len()
                    &&& lines_build(kept_lines(patterns.deep_view()))
                },
                Err(IgnoreError::Pattern { index, message }) => {
                    &&& index < patterns.len()
                    &&& index == first_refused(patterns.deep_view())
                },
                Err(IgnoreError::Build { message }) => {
                    &&& first_refused(patterns.deep_view()) == patterns.len()
                    &&& !lines_build(kept_lines(patterns.deep_view()))
                },
            },
    {
        let ghost lines = patterns.deep_view();
        let mut builder = new_builder();
        let mut kept: Vec<String> = Vec::new();
        let mut i: usize = 0;
        assert(lines.take(0) =~= Seq::<Seq<char>>::empty());
        assert(kept.deep_view() =~= Seq::<Seq<char>>::empty());
        while i < patterns.len()
            invariant
                lines == patterns.deep_view(),
                i <= patterns.len(),
                builder_lines(builder) == kept_lines(lines.take(i as int)),
                kept.deep_view() == lines.take(i as int),
                first_refused(lines.take(i as int)) == i,
            decreases patterns.len() - i,
        {
            let ghost before = kept.deep_view();
            proof {
                assert(lines.take(i + 1).drop_last() =~= lines.take(i as int));
                assert(lines.take(i + 1).last() == patterns[i as int]@);
                assert(lines.take(i + 1) =~= lines.take(i as int).push(patterns[i as int]@));
            }
            match add_line(&mut builder, patterns[i]) {
                Ok(_) => {},
                Err(e) => {
                    proof {
                        lemma_first_refused_stays(lines, i + 1, lines.len() as int);
                        assert(lines.take(lines.len() as int) =~= lines);
                    }
                    return Err(IgnoreError::Pattern { index: i, message: error_text(&e) });
                },
            }
            kept.push(patterns[i].to_owned());
            assert(kept.deep_view() =~= before.push(patterns[i as int]@));
            i += 1;
        }
        assert(lines.take(i as int) =~= lines);
        match build_matcher(&builder) {
            Ok(gitignore) => Ok(IgnoreConfig { gitignore, patterns: kept }),
            Err(e) => Err(IgnoreError::Build { message: error_text(&e) }),
        }
    }

    /// The configuration without patterns, which ignores nothing.
    pub fn empty() -> (config: IgnoreConfig)
        ensures
            config@ == Seq::<Seq<char>>::empty(),
    {
        let patterns: Vec<String> = Vec::new();
        assert(patterns.deep_view() =~= Seq::<Seq<char>>::empty());
        IgnoreConfig { gitignore: empty_matcher(), patterns }
    }

    /// The patterns of the configuration.
    pub fn patterns(&self) -> (patterns: &[String])
        ensures
            patterns.deep_view() == self@,
    {
        let patterns = self.patterns.as_slice();
        assert(patterns.deep_view() =~= self.patterns.deep_view());
        patterns
    }

    /// Whether a path is ignored, given whether it names a directory. The
    /// patterns are asked of the path itself and then of each directory
    /// above it, from the nearest up; the first verdict decides.
    pub fn is_ignored_as(&self, path: &str, is_dir: bool) -> (ignored: bool)
        ensures
            ignored == ignores(self@, path@, is_dir),
            kept_lines(self@).len() == 0 ==> !ignored,
            self@.len() == 0 ==> !ignored,
    {
        proof {
            use_type_invariant(self);
        }
        let ghost lines = kept_lines(self@);
        match matched(&self.gitignore, path, is_dir) {
            Verdict::Ignore => true,
            Verdict::Whitelist => false,
            Verdict::Unmatched => {
                let names = split_components(path);
                if names.len() == 0 {
                    return false;
                }
                let mut k: usize = names.len() - 1;
                while k > 0
                    invariant
                        k < names.len(),
                        lines == kept_lines(self@),
                        lines == matcher_lines(self.gitignore),
                        names.deep_view() == path_components(path@),
                        ancestor_verdict(lines, names.deep_view(), k as int) == ancestor_verdict(
                            lines,
                            names.deep_view(),
                            names.len() - 1,
                        ),
                        glob_verdict(lines, path@, is_dir) == Verdict::Unmatched,
                    decreases k,
                {
                    let above = join(&names, k);
                    match matched(&self.gitignore, above.as_str(), true) {
                        Verdict::Ignore => {
                            return true;
                        },
                        Verdict::Whitelist => {
                            return false;
                        },
                        Verdict::Unmatched => {
                            k -= 1;
                        },
                    }
                }
                false
            },
        }
    }

    /// Whether a path is ignored. Whether it names a directory is asked of
    /// the disk, so the answer is the one for a directory or the one for a
    /// file.
    pub fn is_ignored(&self, path: &str) -> (ignored: bool)
        ensures
            ignored == ignores(self@, path@, true) || ignored == ignores(self@, path@, false),
            kept_lines(self@).len() == 0 ==> !ignored,
            self@.len() == 0 ==> !ignored,
    {
        let is_dir = path_is_dir(path);
        self.is_ignored_as(path, is_dir)
    }
}

/// A refused line stays the first refused one when lines follow it.
pub proof fn lemma_first_refused_stays(lines: Seq<Seq<char>>, n: int, m: int)
    requires
        0 < n <= m <= lines.len(),
        first_refused(lines.take(n)) < n,
    ensures
        first_refused(lines.take(m)) == first_refused(lines.take(n)),
    decreases m - n,
{
    if n < m {
        lemma_first_refused_stays(lines, n, m - 1);
        assert(lines.take(m).drop_last() =~= lines.take(m - 1));
    }
}

/// Whether a character is white space: one of the code points that Unicode
/// gives the property White_Space.
pub open spec fn is_white(c: char) -> bool {
    let u = c as u32;
    ||| 0x09 <= u <= 0x0D
    ||| u == 0x20
    ||| u == 0x85
    ||| u == 0xA0
    ||| u == 0x1680
    ||| 0x2000 <= u <= 0x200A
    ||| u == 0x2028
    ||| u == 0x2029
    ||| u == 0x202F
    ||| u == 0x205F
    ||| u == 0x3000
}

/// Whether a character is white space.
pub fn char_is_whitespace(c: char) -> (white: bool)
    ensures
        white == is_white(c),
{
    let u: u32 = c as u32;
    (0x09 <= u && u <= 0x0D) || u == 0x20 || u == 0x85 || u == 0xA0 || u == 0x1680 || (0x2000 <= u
        && u <= 0x200A) || u == 0x2028 || u == 0x2029 || u == 0x202F || u == 0x205F || u == 0x3000
}

/// The number of white characters at the start of a line.
pub open spec fn leading_white(s: Seq<char>) -> int
    decreases s.len(),
{
    if s.len() > 0 && is_white(s[0]) {
        1 + leading_white(s.skip(1))
    } else {
        0
    }
}

/// The number of white characters at the end of a line.
pub open spec fn trailing_white(s: Seq<char>) -> int
    decreases s.len(),
{
    if s.len() > 0 && is_white(s.last()) {
        1 + trailing_white(s.drop_last())
    } else {
        0
    }
}

/// A line without the white space at its start and at its end.
pub open spec fn trimmed(s: Seq<char>) -> Seq<char> {
    let start = leading_white(s);
    if start >= s.len() {
        Seq::empty()
    } else {
        s.subrange(start, s.len() - trailing_white(s))
    }
}

/// Whether a line of a patterns file holds a pattern: trimmed, it is not
/// empty and does not begin with `#`.
pub open spec fn holds_pattern(line: Seq<char>) -> bool {
    let text = trimmed(line);
    text.len() > 0 && text[0] != '#'
}

/// The patterns of the lines of a patterns file: the lines that hold one,
/// trimmed, in their order.
pub open spec fn pattern_lines(lines: Seq<Seq<char>>) -> Seq<Seq<char>>
    decreases lines.len(),
{
    if lines.len() == 0 {
        Seq::empty()
    } else {
        let before = pattern_lines(lines.drop_last());
        if holds_pattern(lines.last()) {
            before.push(trimmed(lines.last()))
        } else {
            before
        }
    }
}

proof fn lemma_leading_white(s: Seq<char>, k: int)
    requires
        0 <= k <= s.len(),
        forall|j: int| 0 <= j < k ==> is_white(s[j]),
        k == s.len() || !is_white(s[k]),
    ensures
        leading_white(s) == k,
    decreases k,
{
    if k > 0 {
        lemma_leading_white(s.skip(1), k - 1);
    }
}

proof fn lemma_trailing_white(s: Seq<char>, k: int)
    requires
        0 <= k <= s.len(),
        forall|j: int| s.len() - k <= j < s.len() ==> is_white(s[j]),
        k == s.len() || !is_white(s[s.len() - k - 1]),
    ensures
        trailing_white(s) == k,
    decreases k,
{
    if k > 0 {
        lemma_trailing_white(s.drop_last(), k - 1);
    }
}

/// A line without the white space at its start and at its end.
pub fn trim(line: &str) -> (text: &str)
    ensures
        text@ == trimmed(line@),
{
    let chars = to_chars(line);
    let n: usize = chars.len();
    let mut start: usize = 0;
    while start < n && char_is_whitespace(chars[start])
        invariant
            start <= n,
            n == chars.len(),
            forall|j: int| 0 <= j < start ==> is_white(chars[j]),
        decreases n - start,
    {
        start += 1;
    }
    proof {
        lemma_leading_white(chars@, start as int);
    }
    if start == n {
        let text = line.substring_char(0, 0);
        assert(text@ =~= Seq::<char>::empty());
        return text;
    }
    let mut end: usize = n;
    while end > start + 1 && char_is_whitespace(chars[end - 1])
        invariant
            start < end <= n,
            n == chars.len(),
            !is_white(chars[start as int]),
            forall|j: int| end <= j < n ==> is_white(chars[j]),
        decreases end,
    {
        end -= 1;
    }
    proof {
        lemma_trailing_white(chars@, n - end);
    }
    line.substring_char(start, end)
}

impl IgnoreConfig {
    /// The configuration for the lines of a patterns file. Lines that are
    /// blank or begin with `#` hold no pattern; every other line, trimmed, is
    /// one. The outcome is that of `new` on those patterns.
    pub fn from_lines(lines: &Vec<String>) -> (result: Result<IgnoreConfig, IgnoreError>)
        ensures
            match result {
                Ok(config) => {
                    &&& config@ == pattern_lines(lines.deep_view())
                    &&& first_refused(config@) == config@.len()
                    &&& lines_build(kept_lines(config@))
                },
                Err(IgnoreError::Pattern { index, message }) => {
                    &&& index < pattern_lines(lines.deep_view()).len()
                    &&& index == first_refused(pattern_lines(lines.deep_view()))
                },
                Err(IgnoreError::Build { message }) => {
                    &&& first_refused(pattern_lines(lines.deep_view())) == pattern_lines(
                        lines.deep_view(),
                    ).len()
                    &&& !lines_build(kept_lines(pattern_lines(lines.deep_view())))
                },
            },
    {
        let ghost all = lines.deep_view();
        let mut patterns: Vec<&str> = Vec::new();
        let mut i: usize = 0;
        assert(all.take(0) =~= Seq::<Seq<char>>::empty());
        assert(patterns.deep_view() =~= Seq::<Seq<char>>::empty());
        while i < lines.len()
            invariant
                i <= lines.len(),
                all == lines.deep_view(),
                patterns.deep_view() == pattern_lines(all.take(i as int)),
            decreases lines.len() - i,
        {
            let ghost before = patterns.deep_view();
            let text = trim(lines[i].as_str());
            proof {
                assert(all.take(i + 1).drop_last() =~= all.take(i as int));
                assert(all.take(i + 1).last() == lines[i as int]@);
            }
            let chars = to_chars(text);
            if chars.len() > 0 && chars[0] != '#' {
                patterns.push(text);
                assert(patterns.deep_view() =~= before.push(text@));
            }
            i += 1;
        }
        assert(all.take(i as int) =~= all);
        let slice = patterns.as_slice();
        assert(slice.deep_view() =~= patterns.deep_view());
        IgnoreConfig::new(slice)
    }
}

} // verus!
