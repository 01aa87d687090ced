//! The listing parser: a tree-style listing of password entries, drawn with
//! box-drawing glyphs and colored with terminal escape sequences, becomes the
//! ordered list of full entry paths.
use vstd::prelude::*;
use crate::text::{after_first, chars_of, is_white, is_whitespace, push_char, split_lines, string_of, text_lines};

verus! {

/// The escape sequence that opens a directory name.
pub open spec fn dir_marker() -> Seq<char> {
    seq!['\u{1b}', '[', '0', '1', ';', '3', '4', 'm']
}

/// The escape sequence that resets the color.
pub open spec fn reset_marker() -> Seq<char> {
    seq!['\u{1b}', '[', '0', 'm']
}

/// The zero-padded form of the reset sequence.
pub open spec fn padded_reset_marker() -> Seq<char> {
    seq!['\u{1b}', '[', '0', '0', 'm']
}

/// `pat` occurs in `s` at position `i`.
pub open spec fn occurs_at(s: Seq<char>, pat: Seq<char>, i: int) -> bool {
    0 <= i && i + pat.len() <= s.len() && s.subrange(i, i + pat.len()) == pat
}

/// `pat` occurs somewhere in `s`.
pub open spec fn occurs_in(s: Seq<char>, pat: Seq<char>) -> bool {
    exists|i: int| occurs_at(s, pat, i)
}

/// `pat` ends `s`.
pub open spec fn ends_with(s: Seq<char>, pat: Seq<char>) -> bool {
    s.len() >= pat.len() && occurs_at(s, pat, s.len() - pat.len())
}

/// The length of the escape sequence that ends `s`, or 0.
pub open spec fn trailing_marker_len(s: Seq<char>) -> nat {
    if ends_with(s, dir_marker()) {
        dir_marker().len()
    } else if ends_with(s, reset_marker()) {
        reset_marker().len()
    } else if ends_with(s, padded_reset_marker()) {
        padded_reset_marker().len()
    } else {
        0
    }
}

/// `s` holds none of the escape sequences and no non-breaking space.
pub open spec fn is_clean(s: Seq<char>) -> bool {
    &&& !occurs_in(s, dir_marker())
    &&& !occurs_in(s, reset_marker())
    &&& !occurs_in(s, padded_reset_marker())
    &&& !s.contains('\u{a0}')
}

/// A non-breaking space reads as a plain space.
pub open spec fn plain_char(c: char) -> char {
    if c == '\u{a0}' {
        ' '
    } else {
        c
    }
}

/// `s` read from left to right with every non-breaking space made a plain
/// space, and an escape sequence taken off the text read so far whenever it
/// ends with one; so no escape sequence is left, even one that only forms
/// once another is gone.
pub open spec fn strip_markers(s: Seq<char>) -> Seq<char>
    decreases s.len(),
{
    if s.len() == 0 {
        Seq::empty()
    } else {
        let t = strip_markers(s.drop_last()).push(plain_char(s.last()));
        t.take(t.len() - trailing_marker_len(t))
    }
}

fn dir_marker_chars() -> (r: Vec<char>)
    ensures
        r@ == dir_marker(),
{
    let r = vec!['\u{1b}', '[', '0', '1', ';', '3', '4', 'm'];
    assert(r@ =~= dir_marker());
    r
}

fn reset_marker_chars() -> (r: Vec<char>)
    ensures
        r@ == reset_marker(),
{
    let r = vec!['\u{1b}', '[', '0', 'm'];
    assert(r@ =~= reset_marker());
    r
}

fn padded_reset_marker_chars() -> (r: Vec<char>)
    ensures
        r@ == padded_reset_marker(),
{
    let r = vec!['\u{1b}', '[', '0', '0', 'm'];
    assert(r@ =~= padded_reset_marker());
    r
}

/// Whether `pat` occurs in `s` at position `i`.
fn matches_at(s: &Vec<char>, i: usize, pat: &Vec<char>) -> (r: bool)
    requires
        i <= s.len(),
    ensures
        r == occurs_at(s@, pat@, i as int),
{
    if pat.len() > s.len() - i {
        return false;
    }
    let mut j: usize = 0;
    while j < pat.len()
        invariant
            i + pat.len() <= s.len(),
            j <= pat.len(),
            forall|k: int| 0 <= k < j ==> s@[i + k] == pat@[k],
        decreases pat.len() - j,
    {
        if s[i + j] != pat[j] {
            assert(s@.subrange(i as int, i + pat.len())[j as int] != pat@[j as int]);
            return false;
        }
        j = j + 1;
    }
    assert(s@.subrange(i as int, i + pat.len()) =~= pat@);
    true
}

/// Whether `pat` occurs anywhere in `s`.
fn occurs(s: &Vec<char>, pat: &Vec<char>) -> (r: bool)
    ensures
        r == occurs_in(s@, pat@),
{
    let mut i: usize = 0;
    while i < s.len()
        invariant
            i <= s.len(),
            forall|k: int| 0 <= k < i ==> !occurs_at(s@, pat@, k),
        decreases s.len() - i,
    {
        if matches_at(s, i, pat) {
            return true;
        }
        i = i + 1;
    }
    if matches_at(s, i, pat) {
        return true;
    }
    assert forall|k: int| !occurs_at(s@, pat@, k) by {
        if 0 <= k && k + pat@.len() <= s@.len() {
            assert(k < i || k == i);
        }
    }
    false
}

/// The length of the escape sequence that ends `s`.
fn trailing_marker(s: &Vec<char>, dir: &Vec<char>, reset: &Vec<char>, padded: &Vec<char>) -> (r:
    usize)
    requires
        dir@ == dir_marker(),
        reset@ == reset_marker(),
        padded@ == padded_reset_marker(),
    ensures
        r == trailing_marker_len(s@),
{
    if s.len() >= 8 && matches_at(s, s.len() - 8, dir) {
        8
    } else if s.len() >= 4 && matches_at(s, s.len() - 4, reset) {
        4
    } else if s.len() >= 5 && matches_at(s, s.len() - 5, padded) {
        5
    } else {
        0
    }
}

/// `s` with its escape sequences removed and non-breaking spaces made plain.
fn strip_markers_chars(s: &Vec<char>) -> (r: Vec<char>)
    ensures
        r@ == strip_markers(s@),
{
    let dir = dir_marker_chars();
    let reset = reset_marker_chars();
    let padded = padded_reset_marker_chars();
    let mut r: Vec<char> = Vec::new();
    let mut i: usize = 0;
    assert(s@.take(0) =~= Seq::<char>::empty());
    while i < s.len()
        invariant
            i <= s.len(),
            dir@ == dir_marker(),
            reset@ == reset_marker(),
            padded@ == padded_reset_marker(),
            r@ == strip_markers(s@.take(i as int)),
        decreases s.len() - i,
    {
        assert(s@.take(i + 1).drop_last() =~= s@.take(i as int));
        assert(s@.take(i + 1).last() == s@[i as int]);
        let c = if s[i] == '\u{a0}' {
            ' '
        } else {
            s[i]
        };
        r.push(c);
        let n = trailing_marker(&r, &dir, &reset, &padded);
        r.truncate(r.len() - n);
        i = i + 1;
    }
    assert(s@.take(s.len() as int) =~= s@);
    r
}

proof fn lemma_prefix_clean(s: Seq<char>, n: int)
    requires
        is_clean(s),
        0 <= n <= s.len(),
    ensures
        is_clean(s.take(n)),
{
    let t = s.take(n);
    assert forall|pat: Seq<char>, i: int| occurs_at(t, pat, i) implies occurs_at(s, pat, i) by {
        assert(t.subrange(i, i + pat.len()) =~= s.subrange(i, i + pat.len()));
    }
    if t.contains('\u{a0}') {
        let i = choose|i: int| 0 <= i < t.len() && t[i] == '\u{a0}';
        assert(s[i] == '\u{a0}');
    }
}

/// A sequence that `prev` lacks occurs in `prev` with one more character
/// only where it ends the whole.
proof fn lemma_occurs_after_push(prev: Seq<char>, c: char, pat: Seq<char>)
    requires
        !occurs_in(prev, pat),
        !ends_with(prev.push(c), pat),
    ensures
        !occurs_in(prev.push(c), pat),
{
    let t = prev.push(c);
    assert forall|i: int| !occurs_at(t, pat, i) by {
        if occurs_at(t, pat, i) {
            if i + pat.len() <= prev.len() {
                assert(t.subrange(i, i + pat.len()) =~= prev.subrange(i, i + pat.len()));
                assert(occurs_at(prev, pat, i));
            }
        }
    }
}

/// Stripping leaves no escape sequence and no non-breaking space.
pub proof fn lemma_strip_clean(s: Seq<char>)
    ensures
        is_clean(strip_markers(s)),
    decreases s.len(),
{
    if s.len() > 0 {
        lemma_strip_clean(s.drop_last());
        let prev = strip_markers(s.drop_last());
        let t = prev.push(plain_char(s.last()));
        let n = trailing_marker_len(t);
        let r = t.take(t.len() - n);
        if n > 0 {
            assert(r =~= prev.take(t.len() - n));
            lemma_prefix_clean(prev, t.len() - n);
        } else {
            assert(r =~= t);
            lemma_occurs_after_push(prev, plain_char(s.last()), dir_marker());
            lemma_occurs_after_push(prev, plain_char(s.last()), reset_marker());
            lemma_occurs_after_push(prev, plain_char(s.last()), padded_reset_marker());
            if t.contains('\u{a0}') {
                let i = choose|i: int| 0 <= i < t.len() && t[i] == '\u{a0}';
                if i < prev.len() {
                    assert(prev[i] == '\u{a0}');
                }
            }
        }
    }
}

/// Stripping a text that holds no escape sequence and no non-breaking space
/// changes nothing.
pub proof fn lemma_strip_keeps_clean(s: Seq<char>)
    requires
        is_clean(s),
    ensures
        strip_markers(s) == s,
    decreases s.len(),
{
    if s.len() > 0 {
        lemma_prefix_clean(s, s.len() - 1);
        assert(s.take(s.len() - 1) =~= s.drop_last());
        lemma_strip_keeps_clean(s.drop_last());
        assert(s[s.len() - 1] != '\u{a0}');
        assert(s.drop_last().push(plain_char(s.last())) =~= s);
        assert(trailing_marker_len(s) == 0);
        assert(s.take(s.len() as int) =~= s);
    }
}

/// Stripping a line twice gives what stripping it once gives.
pub proof fn lemma_strip_idempotent(s: Seq<char>)
    ensures
        strip_markers(strip_markers(s)) == strip_markers(s),
{
    lemma_strip_clean(s);
    lemma_strip_keeps_clean(strip_markers(s));
}

/// Strips the escape sequences from a listing line and makes its
/// non-breaking spaces plain. The result holds none of the escape sequences
/// and no non-breaking space, so stripping it again changes nothing.
pub fn strip_ansi_line(line: &str) -> (r: String)
    ensures
        r@ == strip_markers(line@),
        is_clean(r@),
        strip_markers(r@) == r@,
{
    let s = strip_markers_chars(&chars_of(line));
    proof {
        lemma_strip_idempotent(line@);
        lemma_strip_clean(line@);
    }
    string_of(&s, 0, s.len())
}

/// A glyph that draws the branches of the tree.
pub open spec fn is_branch_glyph(c: char) -> bool {
    c == '├' || c == '└' || c == '─' || c == '│'
}

/// A character of the indentation that precedes a name.
pub open spec fn is_indent_char(c: char) -> bool {
    c == ' ' || is_branch_glyph(c)
}

/// A character of the indentation that counts toward its width.
pub open spec fn is_width_char(c: char) -> bool {
    c == ' ' || c == '│'
}

/// Within the leading run of indentation characters of `s`, the number of
/// spaces and vertical bars.
pub open spec fn indent_width(s: Seq<char>) -> nat
    decreases s.len(),
{
    if s.len() > 0 && is_indent_char(s[0]) {
        (if is_width_char(s[0]) {
            1nat
        } else {
            0nat
        }) + indent_width(s.drop_first())
    } else {
        0
    }
}

/// The nesting depth of a listing line: four columns per level.
pub open spec fn line_depth(line: Seq<char>) -> nat {
    indent_width(strip_markers(line)) / 4
}

/// A listing line names a directory when it holds both the directory color
/// and the color reset.
pub open spec fn line_is_directory(line: Seq<char>) -> bool {
    occurs_in(line, dir_marker()) && occurs_in(line, reset_marker())
}

/// `s` without its leading whitespace and branch glyphs.
pub open spec fn skip_branches(s: Seq<char>) -> Seq<char>
    decreases s.len(),
{
    if s.len() > 0 && (is_white(s[0]) || is_branch_glyph(s[0])) {
        skip_branches(s.drop_first())
    } else {
        s
    }
}

/// The name that a listing line shows.
pub open spec fn segment_value(line: Seq<char>) -> Seq<char> {
    skip_branches(strip_markers(line))
}

fn is_indent(c: char) -> (r: bool)
    ensures
        r == is_indent_char(c),
{
    c == ' ' || c == '├' || c == '└' || c == '─' || c == '│'
}

/// The width of the leading indentation of a line already stripped.
fn indent_of(s: &Vec<char>) -> (r: usize)
    ensures
        r == indent_width(s@),
{
    let mut n: usize = 0;
    let mut i: usize = 0;
    assert(s@.skip(0) =~= s@);
    while i < s.len() && is_indent(s[i])
        invariant
            n <= i <= s.len(),
            indent_width(s@) == n + indent_width(s@.skip(i as int)),
        decreases s.len() - i,
    {
        assert(s@.skip(i as int).drop_first() =~= s@.skip(i + 1));
        if s[i] == ' ' || s[i] == '│' {
            n = n + 1;
        }
        i = i + 1;
    }
    n
}

/// The nesting depth of a listing line.
pub fn get_line_indent(line: &str) -> (r: usize)
    ensures
        r == line_depth(line@),
{
    indent_of(&strip_markers_chars(&chars_of(line))) / 4
}

fn line_is_directory_chars(line: &Vec<char>) -> (r: bool)
    ensures
        r == line_is_directory(line@),
{
    occurs(line, &dir_marker_chars()) && occurs(line, &reset_marker_chars())
}

/// Whether a listing line names a directory.
pub fn is_line_directory(line: &str) -> (r: bool)
    ensures
        r == line_is_directory(line@),
{
    line_is_directory_chars(&chars_of(line))
}

/// The name shown by a line already stripped.
fn name_of(s: &Vec<char>) -> (r: String)
    ensures
        r@ == skip_branches(s@),
{
    let mut i: usize = 0;
    assert(s@.skip(0) =~= s@);
    while i < s.len() && (is_whitespace(s[i]) || s[i] == '├' || s[i] == '└' || s[i] == '─' || s[i]
        == '│')
        invariant
            i <= s.len(),
            skip_branches(s@) == skip_branches(s@.skip(i as int)),
        decreases s.len() - i,
    {
        assert(s@.skip(i as int).drop_first() =~= s@.skip(i + 1));
        i = i + 1;
    }
    let r = string_of(s, i, s.len());
    assert(s@.subrange(i as int, s.len() as int) =~= s@.skip(i as int));
    r
}

/// A line and its stripped form lie at the same depth.
pub proof fn lemma_depth_of_stripped(line: Seq<char>)
    ensures
        line_depth(strip_markers(line)) == line_depth(line),
{
    lemma_strip_idempotent(line);
}

proof fn lemma_suffix_clean(s: Seq<char>)
    requires
        is_clean(s),
        s.len() > 0,
    ensures
        is_clean(s.drop_first()),
{
    let t = s.drop_first();
    assert forall|pat: Seq<char>, i: int| occurs_at(t, pat, i) implies occurs_at(s, pat, i + 1) by {
        assert(t.subrange(i, i + pat.len()) =~= s.subrange(i + 1, i + 1 + pat.len()));
    }
    if t.contains('\u{a0}') {
        let i = choose|i: int| 0 <= i < t.len() && t[i] == '\u{a0}';
        assert(s[i + 1] == '\u{a0}');
    }
}

proof fn lemma_skip_branches(s: Seq<char>)
    ensures
        skip_branches(skip_branches(s)) == skip_branches(s),
        is_clean(s) ==> is_clean(skip_branches(s)),
    decreases s.len(),
{
    if s.len() > 0 && (is_white(s[0]) || is_branch_glyph(s[0])) {
        if is_clean(s) {
            lemma_suffix_clean(s);
        }
        lemma_skip_branches(s.drop_first());
    }
}

/// The name that a listing line shows, without escape sequences and
/// indentation. Taking the name of that name changes nothing.
pub fn strip_line(line: &str) -> (r: String)
    ensures
        r@ == segment_value(line@),
        segment_value(r@) == r@,
{
    proof {
        let t = strip_markers(line@);
        lemma_strip_clean(line@);
        lemma_skip_branches(t);
        lemma_strip_keeps_clean(skip_branches(t));
    }
    name_of(&strip_markers_chars(&chars_of(line)))
}

/// One level of the path being built: a name, and whether it is a directory.
#[derive(Debug)]
pub struct PathSegment {
    pub value: String,
    pub is_directory: bool,
}

/// What a [`PathSegment`] stands for.
pub struct SegmentModel {
    pub value: Seq<char>,
    pub is_directory: bool,
}

impl View for PathSegment {
    type V = SegmentModel;

    open spec fn view(&self) -> SegmentModel {
        SegmentModel { value: self.value@, is_directory: self.is_directory }
    }
}

/// The segment that a listing line contributes.
pub open spec fn line_segment(line: Seq<char>) -> SegmentModel {
    SegmentModel { value: segment_value(line), is_directory: line_is_directory(line) }
}

/// The stack after one more line: cut to the line's depth, then the line's
/// segment on top.
pub open spec fn push_line(stack: Seq<SegmentModel>, line: Seq<char>) -> Seq<SegmentModel> {
    let d = line_depth(line);
    (if stack.len() > d {
        stack.take(d as int)
    } else {
        stack
    }).push(line_segment(line))
}

/// The stack after the given lines, starting from an empty one.
pub open spec fn stack_after(lines: Seq<Seq<char>>) -> Seq<SegmentModel>
    decreases lines.len(),
{
    if lines.len() == 0 {
        Seq::empty()
    } else {
        push_line(stack_after(lines.drop_last()), lines.last())
    }
}

/// The names on a stack joined by `/`.
pub open spec fn join_path(stack: Seq<SegmentModel>) -> Seq<char>
    decreases stack.len(),
{
    if stack.len() == 0 {
        Seq::empty()
    } else if stack.len() == 1 {
        stack[0].value
    } else {
        join_path(stack.drop_last()) + seq!['/'] + stack.last().value
    }
}

/// The paths emitted for the given lines: one for each line that does not
/// name a directory, the stack joined at that moment.
pub open spec fn leaf_paths(lines: Seq<Seq<char>>) -> Seq<Seq<char>>
    decreases lines.len(),
{
    if lines.len() == 0 {
        Seq::empty()
    } else if line_is_directory(lines.last()) {
        leaf_paths(lines.drop_last())
    } else {
        leaf_paths(lines.drop_last()).push(join_path(stack_after(lines)))
    }
}

/// The lines of a listing that describe the tree: all but the header.
pub open spec fn tree_lines(text: Seq<char>) -> Seq<Seq<char>> {
    after_first(text_lines(text))
}

/// The full paths that a listing names, in order.
pub open spec fn listing_paths(text: Seq<char>) -> Seq<Seq<char>> {
    leaf_paths(tree_lines(text))
}

/// The path that the stack spells, names joined by `/`.
fn join_stack(stack: &Vec<PathSegment>) -> (r: String)
    ensures
        r@ == join_path(stack@.map_values(|p: PathSegment| p@)),
{
    let ghost st = stack@.map_values(|p: PathSegment| p@);
    let mut r = String::new();
    let mut j: usize = 0;
    assert(st.take(0) =~= Seq::<SegmentModel>::empty());
    while j < stack.len()
        invariant
            j <= stack.len(),
            st == stack@.map_values(|p: PathSegment| p@),
            r@ == join_path(st.take(j as int)),
        decreases stack.len() - j,
    {
        assert(st.take(j + 1).drop_last() =~= st.take(j as int));
        if j > 0 {
            push_char(&mut r, '/');
        }
        r.append(stack[j].value.as_str());
        j = j + 1;
    }
    assert(st.take(stack.len() as int) =~= st);
    r
}

/// Parses a listing into the full paths of its entries, in order. The first
/// line is a header and is skipped; each later line is cut to its depth on
/// the stack of names, and a line that is no directory emits the stack
/// joined by `/`.
pub fn parse_passwords(passwords_list: &str) -> (r: Vec<String>)
    ensures
        r@.map_values(|p: String| p@) == listing_paths(passwords_list@),
{
    let text = chars_of(passwords_list);
    let lines = split_lines(&text);
    let ghost all = text_lines(text@);
    let ghost entries = tree_lines(text@);
    let mut passwords: Vec<String> = Vec::new();
    let mut stack: Vec<PathSegment> = Vec::new();
    let mut idx: usize = 1;
    assert(entries.take(0) =~= Seq::<Seq<char>>::empty());
    while idx < lines.len()
        invariant
            1 <= idx,
            lines.len() == all.len(),
            forall|k: int| 0 <= k < lines.len() ==> (#[trigger] lines[k])@ == all[k],
            all == text_lines(text@),
            entries == tree_lines(text@),
            text@ == passwords_list@,
            idx < lines.len() ==> entries.len() == lines.len() - 1,
            idx <= lines.len() || (lines.len() == 0 && idx == 1),
            stack@.map_values(|p: PathSegment| p@) == stack_after(entries.take(idx - 1)),
            passwords@.map_values(|p: String| p@) == leaf_paths(entries.take(idx - 1)),
        decreases lines.len() - idx,
    {
        let line = &lines[idx];
        let ghost done = entries.take(idx - 1);
        let ghost now = entries.take(idx as int);
        assert(now.drop_last() =~= done);
        assert(now.last() == line@);
        let clean = strip_markers_chars(line);
        let depth = indent_of(&clean) / 4;
        let is_directory = line_is_directory_chars(line);
        stack.truncate(depth);
        stack.push(PathSegment { value: name_of(&clean), is_directory });
        assert(stack@.map_values(|p: PathSegment| p@) =~= stack_after(now));
        if !is_directory {
            let path = join_stack(&stack);
            passwords.push(path);
            assert(passwords@.map_values(|p: String| p@) =~= leaf_paths(now));
        } else {
            assert(passwords@.map_values(|p: String| p@) =~= leaf_paths(now));
        }
        idx = idx + 1;
    }
    assert(entries.take(entries.len() as int) =~= entries);
    passwords
}

/// The number of lines that do not name a directory.
pub open spec fn count_leaf_lines(lines: Seq<Seq<char>>) -> nat
    decreases lines.len(),
{
    if lines.len() == 0 {
        0
    } else {
        count_leaf_lines(lines.drop_last()) + if line_is_directory(lines.last()) {
            0nat
        } else {
            1nat
        }
    }
}

proof fn lemma_leaf_paths_len(lines: Seq<Seq<char>>)
    ensures
        leaf_paths(lines).len() == count_leaf_lines(lines),
    decreases lines.len(),
{
    if lines.len() > 0 {
        lemma_leaf_paths_len(lines.drop_last());
    }
}

/// A listing emits exactly one path for each of its tree lines that does not
/// name a directory.
pub proof fn lemma_one_path_per_leaf(text: Seq<char>)
    ensures
        listing_paths(text).len() == count_leaf_lines(tree_lines(text)),
{
    lemma_leaf_paths_len(tree_lines(text));
}

/// Each line is at most one level deeper than the line before it, and the
/// first line is at the top level.
pub open spec fn well_nested(lines: Seq<Seq<char>>) -> bool {
    forall|k: int|
        0 <= k < lines.len() ==> line_depth(#[trigger] lines[k]) <= if k == 0 {
            0
        } else {
            line_depth(lines[k - 1]) + 1
        }
}

/// The number of `/` in `s`.
pub open spec fn slash_count(s: Seq<char>) -> nat
    decreases s.len(),
{
    if s.len() == 0 {
        0
    } else {
        slash_count(s.drop_last()) + if s.last() == '/' {
            1nat
        } else {
            0nat
        }
    }
}

proof fn lemma_slash_count_concat(a: Seq<char>, b: Seq<char>)
    ensures
        slash_count(a + b) == slash_count(a) + slash_count(b),
    decreases b.len(),
{
    if b.len() > 0 {
        assert((a + b).drop_last() =~= a + b.drop_last());
        lemma_slash_count_concat(a, b.drop_last());
    } else {
        assert(a + b =~= a);
    }
}

proof fn lemma_slash_count_none(s: Seq<char>)
    requires
        !s.contains('/'),
    ensures
        slash_count(s) == 0,
    decreases s.len(),
{
    if s.len() > 0 {
        assert(!s.drop_last().contains('/')) by {
            if s.drop_last().contains('/') {
                let i = choose|i: int| 0 <= i < s.drop_last().len() && s.drop_last()[i] == '/';
                assert(s[i] == '/');
            }
        }
        lemma_slash_count_none(s.drop_last());
        assert(s[s.len() - 1] != '/');
    }
}

proof fn lemma_join_slashes(stack: Seq<SegmentModel>)
    requires
        stack.len() >= 1,
        forall|i: int| 0 <= i < stack.len() ==> !(#[trigger] stack[i]).value.contains('/'),
    ensures
        slash_count(join_path(stack)) == stack.len() - 1,
    decreases stack.len(),
{
    if stack.len() == 1 {
        lemma_slash_count_none(stack[0].value);
    } else {
        let front = stack.drop_last();
        assert forall|i: int| 0 <= i < front.len() implies !(#[trigger] front[i]).value.contains('/') by {
            assert(front[i] == stack[i]);
        }
        lemma_join_slashes(front);
        lemma_slash_count_concat(join_path(front), seq!['/']);
        assert(seq!['/'].drop_last() =~= Seq::<char>::empty());
        assert(slash_count(Seq::<char>::empty()) == 0);
        assert(seq!['/'].last() == '/');
        assert(slash_count(seq!['/']) == 1);
        lemma_slash_count_concat(join_path(front) + seq!['/'], stack.last().value);
        lemma_slash_count_none(stack.last().value);
    }
}

proof fn lemma_stack_names(lines: Seq<Seq<char>>)
    requires
        forall|k: int| 0 <= k < lines.len() ==> !segment_value(#[trigger] lines[k]).contains('/'),
    ensures
        forall|i: int|
            0 <= i < stack_after(lines).len() ==> !(#[trigger] stack_after(lines)[i]).value.contains(
                '/',
            ),
    decreases lines.len(),
{
    if lines.len() > 0 {
        let front = lines.drop_last();
        assert forall|k: int| 0 <= k < front.len() implies !segment_value(#[trigger] front[k]).contains('/') by {
            assert(front[k] == lines[k]);
        }
        lemma_stack_names(front);
        let prev = stack_after(front);
        let d = line_depth(lines.last());
        let st = stack_after(lines);
        assert forall|i: int| 0 <= i < st.len() implies !(#[trigger] st[i]).value.contains('/') by {
            if i < st.len() - 1 {
                assert(st[i] == prev[i]);
            } else {
                assert(st[i] == line_segment(lines[lines.len() - 1]));
            }
        }
    }
}

/// In a well-nested listing, the stack after a line at depth `d` holds
/// `d + 1` names; and when no name holds a `/`, the path emitted for such a
/// line, if any, is made of `d + 1` parts separated by `/`.
pub proof fn lemma_stack_depth(lines: Seq<Seq<char>>, k: int)
    requires
        well_nested(lines),
        0 <= k < lines.len(),
    ensures
        stack_after(lines.take(k + 1)).len() == line_depth(lines[k]) + 1,
        (forall|j: int| 0 <= j < lines.len() ==> !segment_value(#[trigger] lines[j]).contains('/'))
            ==> slash_count(join_path(stack_after(lines.take(k + 1)))) == line_depth(lines[k]),
        !line_is_directory(lines[k]) ==> leaf_paths(lines.take(k + 1)).last() == join_path(
            stack_after(lines.take(k + 1)),
        ),
    decreases k,
{
    let now = lines.take(k + 1);
    assert(now.drop_last() =~= lines.take(k));
    if k > 0 {
        lemma_stack_depth(lines, k - 1);
    }
    assert(line_depth(lines[k]) <= if k == 0 {
        0
    } else {
        line_depth(lines[k - 1]) + 1
    });
    if forall|j: int| 0 <= j < lines.len() ==> !segment_value(#[trigger] lines[j]).contains('/') {
        assert forall|j: int| 0 <= j < now.len() implies !segment_value(#[trigger] now[j]).contains('/') by {
            assert(now[j] == lines[j]);
        }
        lemma_stack_names(now);
        lemma_join_slashes(stack_after(now));
    }
}

} // verus!
