//! The field parser: the body of a password entry becomes an ordered list of
//! key/value fields. A key whose value is empty opens a block of several
//! lines; the first non-blank line after it is the block's end marker, and
//! the block closes at the next line that reads the same marker.
use vstd::prelude::*;
use crate::text::{
    after_first, chars_in, chars_of, drop_white, same_chars, split_lines, string_of,
    text_lines, trim, trim_bounds, trim_end, trim_start, is_plain_line, lines_text, lemma_text_lines_of,
};

verus! {

/// One field of an entry.
#[derive(Debug)]
pub struct Field {
    pub key: String,
    pub value: String,
    pub multiline: bool,
}

/// What a [`Field`] stands for.
pub struct FieldModel {
    pub key: Seq<char>,
    pub value: Seq<char>,
    pub multiline: bool,
}

impl View for Field {
    type V = FieldModel;

    open spec fn view(&self) -> FieldModel {
        FieldModel { key: self.key@, value: self.value@, multiline: self.multiline }
    }
}

/// Why an entry's body could not be read into fields.
#[derive(Debug)]
pub enum FieldError {
    /// A block of several lines was opened and never closed; `partial_field`
    /// holds its key and the lines gathered so far.
    MultilineUnterminated { password_id: String, partial_field: Field },
    /// The body has no line at all, so not even the password.
    MissingPassword { password_id: String },
}

/// What each of the fields stands for.
pub open spec fn field_views(fields: Seq<Field>) -> Seq<FieldModel> {
    fields.map_values(|f: Field| f@)
}

/// What a [`FieldError`] stands for.
pub enum FieldErrorModel {
    MultilineUnterminated { password_id: Seq<char>, partial_field: FieldModel },
    MissingPassword { password_id: Seq<char> },
}

impl View for FieldError {
    type V = FieldErrorModel;

    open spec fn view(&self) -> FieldErrorModel {
        match self {
            FieldError::MultilineUnterminated { password_id, partial_field } => {
                FieldErrorModel::MultilineUnterminated {
                    password_id: password_id@,
                    partial_field: partial_field@,
                }
            },
            FieldError::MissingPassword { password_id } => FieldErrorModel::MissingPassword {
                password_id: password_id@,
            },
        }
    }
}

/// The state of the parser between two lines.
pub enum ScanState {
    /// Looking for the next `key: value` line.
    Scanning,
    /// Gathering the lines of a block; the marker is chosen at the block's
    /// first non-blank line.
    Accumulating { key: Seq<char>, marker: Option<Seq<char>>, buffer: Seq<char> },
}

/// The position of the first `:` in `s` at or after `i`.
pub open spec fn colon_from(s: Seq<char>, i: int) -> Option<int>
    decreases s.len() - i,
{
    if i < 0 || i >= s.len() {
        None
    } else if s[i] == ':' {
        Some(i)
    } else {
        colon_from(s, i + 1)
    }
}

/// `buffer` without the line feed that ends it, if it ends with one.
pub open spec fn drop_final_newline(buffer: Seq<char>) -> Seq<char> {
    if buffer.len() > 0 && buffer.last() == '\n' {
        buffer.drop_last()
    } else {
        buffer
    }
}

/// One line through the parser: the next state, and the fields so far.
pub open spec fn field_step(state: ScanState, fields: Seq<FieldModel>, line: Seq<char>) -> (
    ScanState,
    Seq<FieldModel>,
) {
    match state {
        ScanState::Scanning => match colon_from(line, 0) {
            None => (ScanState::Scanning, fields),
            Some(k) => {
                let key = line.take(k);
                let value = trim(line.skip(k + 1));
                if value.len() > 0 {
                    (
                        ScanState::Scanning,
                        fields.push(FieldModel { key, value, multiline: false }),
                    )
                } else {
                    (
                        ScanState::Accumulating { key, marker: None, buffer: Seq::empty() },
                        fields,
                    )
                }
            },
        },
        ScanState::Accumulating { key, marker, buffer } => {
            let t = trim(line);
            match marker {
                None => if t.len() > 0 {
                    (ScanState::Accumulating { key, marker: Some(t), buffer }, fields)
                } else {
                    (state, fields)
                },
                Some(m) => if t == m {
                    (
                        ScanState::Scanning,
                        fields.push(
                            FieldModel { key, value: drop_final_newline(buffer), multiline: true },
                        ),
                    )
                } else {
                    (
                        ScanState::Accumulating {
                            key,
                            marker,
                            buffer: buffer + trim_end(line) + seq!['\n'],
                        },
                        fields,
                    )
                },
            }
        },
    }
}

/// The parser's state and fields after the given lines, from the start.
pub open spec fn run_fields(lines: Seq<Seq<char>>) -> (ScanState, Seq<FieldModel>)
    decreases lines.len(),
{
    if lines.len() == 0 {
        (ScanState::Scanning, Seq::empty())
    } else {
        let prev = run_fields(lines.drop_last());
        field_step(prev.0, prev.1, lines.last())
    }
}

/// The fields that the given lines hold, or the unfinished block that they
/// leave open.
pub open spec fn lines_outcome(lines: Seq<Seq<char>>) -> Result<Seq<FieldModel>, FieldModel> {
    let end = run_fields(lines);
    match end.0 {
        ScanState::Scanning => Ok(end.1),
        ScanState::Accumulating { key, marker, buffer } => Err(
            FieldModel { key, value: buffer, multiline: true },
        ),
    }
}

/// The outcome of parsing an entry's body: the lines after the first, the
/// password, are read into fields.
pub open spec fn fields_outcome(body: Seq<char>, password_id: Seq<char>) -> Result<
    Seq<FieldModel>,
    FieldErrorModel,
> {
    match lines_outcome(after_first(text_lines(body))) {
        Ok(fields) => Ok(fields),
        Err(partial) => Err(
            FieldErrorModel::MultilineUnterminated { password_id, partial_field: partial },
        ),
    }
}

/// What a parse result stands for.
pub open spec fn result_view(r: Result<Vec<Field>, FieldError>) -> Result<
    Seq<FieldModel>,
    FieldErrorModel,
> {
    match r {
        Ok(fields) => Ok(field_views(fields@)),
        Err(e) => Err(e@),
    }
}

/// The parser's state in executable form.
enum ParserState {
    Scanning,
    Accumulating { key: String, marker: Option<Vec<char>>, buffer: Vec<char> },
}

impl View for ParserState {
    type V = ScanState;

    closed spec fn view(&self) -> ScanState {
        match self {
            ParserState::Scanning => ScanState::Scanning,
            ParserState::Accumulating { key, marker, buffer } => ScanState::Accumulating {
                key: key@,
                marker: match marker {
                    Some(m) => Some(m@),
                    None => None,
                },
                buffer: buffer@,
            },
        }
    }
}

/// The position of the first `:` in `line`, if any.
fn find_colon(line: &Vec<char>) -> (r: Option<usize>)
    ensures
        match r {
            Some(k) => k < line.len() && colon_from(line@, 0) == Some(k as int),
            None => colon_from(line@, 0) is None,
        },
{
    let mut i: usize = 0;
    while i < line.len()
        invariant
            i <= line.len(),
            colon_from(line@, 0) == colon_from(line@, i as int),
        decreases line.len() - i,
    {
        if line[i] == ':' {
            return Some(i);
        }
        i = i + 1;
    }
    None
}

/// Appends `line[..e]` and a line feed to `buffer`.
fn append_line(buffer: &mut Vec<char>, line: &Vec<char>, e: usize)
    requires
        e <= line.len(),
    ensures
        final(buffer)@ == old(buffer)@ + line@.subrange(0, e as int) + seq!['\n'],
{
    let ghost start = buffer@;
    let mut i: usize = 0;
    while i < e
        invariant
            e <= line.len(),
            i <= e,
            buffer@ == start + line@.subrange(0, i as int),
        decreases e - i,
    {
        buffer.push(line[i]);
        assert(start + line@.subrange(0, i + 1) =~= (start + line@.subrange(0, i as int)).push(
            line@[i as int],
        ));
        i = i + 1;
    }
    buffer.push('\n');
    assert(buffer@ =~= start + line@.subrange(0, e as int) + seq!['\n']);
}

/// Feeds one line to the parser.
fn field_step_exec(state: ParserState, fields: &mut Vec<Field>, line: &Vec<char>) -> (r:
    ParserState)
    ensures
        (r@, field_views(final(fields)@)) == field_step(
            state@,
            field_views(old(fields)@),
            line@,
        ),
{
    let ghost before = field_views(old(fields)@);
    match state {
        ParserState::Scanning => match find_colon(line) {
            None => ParserState::Scanning,
            Some(k) => {
                let key = string_of(line, 0, k);
                assert(key@ =~= line@.take(k as int));
                let (a, b) = trim_bounds(line, k + 1, line.len());
                assert(line@.skip(k + 1) =~= line@.subrange(k + 1, line.len() as int));
                if a < b {
                    fields.push(Field { key, value: string_of(line, a, b), multiline: false });
                    assert(field_views(fields@) =~= before.push(
                        fields@[fields.len() - 1]@,
                    ));
                    ParserState::Scanning
                } else {
                    ParserState::Accumulating { key, marker: None, buffer: Vec::new() }
                }
            },
        },
        ParserState::Accumulating { key, marker, buffer } => {
            let (a, b) = trim_bounds(line, 0, line.len());
            assert(line@.subrange(0, line.len() as int) =~= line@);
            match marker {
                None => {
                    if a < b {
                        ParserState::Accumulating {
                            key,
                            marker: Some(chars_in(line, a, b)),
                            buffer,
                        }
                    } else {
                        ParserState::Accumulating { key, marker: None, buffer }
                    }
                },
                Some(m) => {
                    if same_chars(line, a, b, &m) {
                        let value = if buffer.len() > 0 && buffer[buffer.len() - 1] == '\n' {
                            assert(buffer@.subrange(0, buffer.len() - 1) =~= buffer@.drop_last());
                            string_of(&buffer, 0, buffer.len() - 1)
                        } else {
                            assert(buffer@.subrange(0, buffer.len() as int) =~= buffer@);
                            string_of(&buffer, 0, buffer.len())
                        };
                        fields.push(Field { key, value, multiline: true });
                        assert(field_views(fields@) =~= before.push(
                            fields@[fields.len() - 1]@,
                        ));
                        ParserState::Scanning
                    } else {
                        let e = drop_white(line, 0, line.len());
                        let mut buffer = buffer;
                        append_line(&mut buffer, line, e);
                        ParserState::Accumulating { key, marker: Some(m), buffer }
                    }
                },
            }
        },
    }
}

/// Parses the body of the entry `password_id` into its fields. The first
/// line is the password and is not read here; of the others, a `key: value`
/// line gives a field, a `key:` line with an empty value opens a block of
/// several lines, and any other line is passed over. A block still open at
/// the end is an error that carries the key and the lines gathered.
pub fn parse_fields(body: &str, password_id: &str) -> (r: Result<Vec<Field>, FieldError>)
    ensures
        result_view(r) == fields_outcome(body@, password_id@),
{
    let text = chars_of(body);
    let lines = split_lines(&text);
    let ghost all = text_lines(text@);
    let ghost rest = after_first(all);
    let mut fields: Vec<Field> = Vec::new();
    let mut state = ParserState::Scanning;
    let mut idx: usize = 1;
    assert(rest.take(0) =~= Seq::<Seq<char>>::empty());
    while idx < lines.len()
        invariant
            1 <= idx,
            lines.len() == all.len(),
            forall|k: int| 0 <= k < lines.len() ==> (#[trigger] lines[k])@ == all[k],
            all == text_lines(text@),
            rest == after_first(all),
            text@ == body@,
            idx < lines.len() ==> rest.len() == lines.len() - 1,
            idx <= lines.len() || (lines.len() == 0 && idx == 1),
            (state@, field_views(fields@)) == run_fields(rest.take(idx - 1)),
        decreases lines.len() - idx,
    {
        let ghost now = rest.take(idx as int);
        assert(now.drop_last() =~= rest.take(idx - 1));
        assert(now.last() == lines[idx as int]@);
        state = field_step_exec(state, &mut fields, &lines[idx]);
        idx = idx + 1;
    }
    assert(rest.take(rest.len() as int) =~= rest);
    match state {
        ParserState::Scanning => Ok(fields),
        ParserState::Accumulating { key, marker, buffer } => {
            let value = string_of(&buffer, 0, buffer.len());
            assert(buffer@.subrange(0, buffer.len() as int) =~= buffer@);
            Err(
                FieldError::MultilineUnterminated {
                    password_id: String::from_str(password_id),
                    partial_field: Field { key, value, multiline: true },
                },
            )
        },
    }
}

/// The field that holds the password, read from the body's first line.
pub open spec fn password_field(first_line: Seq<char>) -> FieldModel {
    FieldModel { key: seq!['p', 'a', 's', 's', 'w', 'o', 'r', 'd'], value: first_line, multiline: false }
}

/// The fields of an entry as offered for choice: the password first, then the
/// fields of the body.
pub open spec fn entry_outcome(body: Seq<char>, password_id: Seq<char>) -> Result<
    Seq<FieldModel>,
    FieldErrorModel,
> {
    match fields_outcome(body, password_id) {
        Err(e) => Err(e),
        Ok(fields) => if text_lines(body).len() == 0 {
            Err(FieldErrorModel::MissingPassword { password_id })
        } else {
            Ok(seq![password_field(text_lines(body)[0])] + fields)
        },
    }
}

/// Parses the body of the entry `password_id` and puts a `password` field,
/// the body's first line, in front of its fields. A body without any line is
/// an error.
pub fn entry_fields(body: &str, password_id: &str) -> (r: Result<Vec<Field>, FieldError>)
    ensures
        result_view(r) == entry_outcome(body@, password_id@),
{
    let parsed = parse_fields(body, password_id);
    match parsed {
        Err(e) => Err(e),
        Ok(fields) => {
            let text = chars_of(body);
            let lines = split_lines(&text);
            if lines.len() == 0 {
                return Err(FieldError::MissingPassword { password_id: String::from_str(password_id) });
            }
            let first = &lines[0];
            let password = string_of(first, 0, first.len());
            assert(first@.subrange(0, first.len() as int) =~= first@);
            proof {
                reveal_strlit("password");
            }
            let key = String::from_str("password");
            assert(key@ =~= seq!['p', 'a', 's', 's', 'w', 'o', 'r', 'd']);
            assert(password@ == text_lines(body@)[0]);
            let mut all: Vec<Field> = Vec::new();
            all.push(Field { key, value: password, multiline: false });
            let mut fields = fields;
            let ghost tail = field_views(fields@);
            all.append(&mut fields);
            assert(field_views(all@) =~= seq![password_field(text_lines(body@)[0])] + tail);
            Ok(all)
        },
    }
}

/// The lines joined by line feeds.
pub open spec fn join_lines(lines: Seq<Seq<char>>) -> Seq<char>
    decreases lines.len(),
{
    if lines.len() == 0 {
        Seq::empty()
    } else if lines.len() == 1 {
        lines[0]
    } else {
        join_lines(lines.drop_last()) + seq!['\n'] + lines.last()
    }
}

/// What a block gathers from the given lines: each without its trailing
/// whitespace, followed by a line feed.
pub open spec fn gathered(lines: Seq<Seq<char>>) -> Seq<char>
    decreases lines.len(),
{
    if lines.len() == 0 {
        Seq::empty()
    } else {
        gathered(lines.drop_last()) + trim_end(lines.last()) + seq!['\n']
    }
}

/// The line `key:` that opens a block.
pub open spec fn opening_line(key: Seq<char>) -> Seq<char> {
    key + seq![':']
}

proof fn lemma_colon_after_key(key: Seq<char>, i: int)
    requires
        !key.contains(':'),
        0 <= i <= key.len(),
    ensures
        colon_from(opening_line(key), i) == Some(key.len() as int),
    decreases key.len() - i,
{
    let l = opening_line(key);
    if i < key.len() {
        assert(l[i] == key[i]);
        lemma_colon_after_key(key, i + 1);
    } else {
        assert(l[i] == ':');
    }
}

proof fn lemma_trim_empty()
    ensures
        trim(Seq::<char>::empty()) == Seq::<char>::empty(),
{
    assert(trim_start(Seq::<char>::empty()) == Seq::<char>::empty());
    assert(trim_end(Seq::<char>::empty()) == Seq::<char>::empty());
}

/// After a `key:` line and its marker line, and then some lines that are not
/// the marker, the parser gathers those lines under `key`.
proof fn lemma_block_open(
    pre: Seq<Seq<char>>,
    key: Seq<char>,
    m: Seq<char>,
    content: Seq<Seq<char>>,
    i: int,
)
    requires
        run_fields(pre).0 == ScanState::Scanning,
        !key.contains(':'),
        trim(m).len() > 0,
        forall|j: int| 0 <= j < content.len() ==> trim(#[trigger] content[j]) != trim(m),
        0 <= i <= content.len(),
    ensures
        run_fields(pre + seq![opening_line(key), m] + content.take(i)) == (
            ScanState::Accumulating {
                key,
                marker: Some(trim(m)),
                buffer: gathered(content.take(i)),
            },
            run_fields(pre).1,
        ),
    decreases i,
{
    let lines = pre + seq![opening_line(key), m] + content.take(i);
    let fields = run_fields(pre).1;
    if i == 0 {
        let with_key = pre + seq![opening_line(key)];
        assert(lines =~= with_key.push(m));
        assert(with_key.drop_last() =~= pre);
        assert(with_key.last() == opening_line(key));
        lemma_colon_after_key(key, 0);
        assert(opening_line(key).take(key.len() as int) =~= key);
        assert(opening_line(key).skip(key.len() as int + 1) =~= Seq::<char>::empty());
        lemma_trim_empty();
        let opened = ScanState::Accumulating { key, marker: None, buffer: Seq::empty() };
        assert(run_fields(with_key) == (opened, fields));
        assert(lines.drop_last() =~= with_key);
        assert(content.take(0) =~= Seq::<Seq<char>>::empty());
        assert(gathered(content.take(0)) == Seq::<char>::empty());
    } else {
        lemma_block_open(pre, key, m, content, i - 1);
        assert(lines.drop_last() =~= pre + seq![opening_line(key), m] + content.take(i - 1));
        assert(lines.last() == content[i - 1]);
        assert(content.take(i).drop_last() =~= content.take(i - 1));
        assert(content.take(i).last() == content[i - 1]);
        assert(trim(content[i - 1]) != trim(m));
    }
}

proof fn lemma_gathered_join(content: Seq<Seq<char>>)
    requires
        forall|j: int| 0 <= j < content.len() ==> trim_end(#[trigger] content[j]) == content[j],
    ensures
        content.len() > 0 ==> gathered(content) == join_lines(content) + seq!['\n'],
        drop_final_newline(gathered(content)) == join_lines(content),
    decreases content.len(),
{
    if content.len() > 0 {
        let front = content.drop_last();
        assert forall|j: int| 0 <= j < front.len() implies trim_end(#[trigger] front[j]) == front[j] by {
            assert(front[j] == content[j]);
        }
        lemma_gathered_join(front);
        assert(trim_end(content.last()) == content[content.len() - 1]);
        if content.len() == 1 {
            assert(front =~= Seq::<Seq<char>>::empty());
            assert(gathered(content) =~= content[0] + seq!['\n']);
        } else {
            assert(gathered(content) =~= join_lines(content) + seq!['\n']);
        }
        assert((join_lines(content) + seq!['\n']).drop_last() =~= join_lines(content));
    }
}

/// A `key:` line with an empty value, a marker line, content lines, and the
/// marker line again make one field of several lines: its value is the
/// content lines joined by line feeds. The content lines are those that do
/// not read as the marker and carry no trailing whitespace (which the parser
/// drops); before the block, the parser may have read any lines that leave
/// it between fields.
pub proof fn lemma_block_round_trip(
    pre: Seq<Seq<char>>,
    key: Seq<char>,
    m: Seq<char>,
    content: Seq<Seq<char>>,
)
    requires
        run_fields(pre).0 == ScanState::Scanning,
        !key.contains(':'),
        trim(m).len() > 0,
        forall|j: int| 0 <= j < content.len() ==> trim(#[trigger] content[j]) != trim(m),
        forall|j: int| 0 <= j < content.len() ==> trim_end(#[trigger] content[j]) == content[j],
    ensures
        run_fields(pre + seq![opening_line(key), m] + content + seq![m]) == (
            ScanState::Scanning,
            run_fields(pre).1.push(
                FieldModel { key, value: join_lines(content), multiline: true },
            ),
        ),
{
    lemma_block_open(pre, key, m, content, content.len() as int);
    assert(content.take(content.len() as int) =~= content);
    let lines = pre + seq![opening_line(key), m] + content + seq![m];
    assert(lines.drop_last() =~= pre + seq![opening_line(key), m] + content);
    lemma_gathered_join(content);
}

/// A `key:` line with an empty value and a marker line, followed by lines of
/// which none reads as the marker, leave the block open: the outcome is the
/// unfinished field under `key`, holding what the block gathered.
pub proof fn lemma_block_unterminated(
    pre: Seq<Seq<char>>,
    key: Seq<char>,
    m: Seq<char>,
    content: Seq<Seq<char>>,
)
    requires
        run_fields(pre).0 == ScanState::Scanning,
        !key.contains(':'),
        trim(m).len() > 0,
        forall|j: int| 0 <= j < content.len() ==> trim(#[trigger] content[j]) != trim(m),
    ensures
        lines_outcome(pre + seq![opening_line(key), m] + content) == Err::<Seq<FieldModel>, FieldModel>(
            FieldModel { key, value: gathered(content), multiline: true },
        ),
{
    lemma_block_open(pre, key, m, content, content.len() as int);
    assert(content.take(content.len() as int) =~= content);
}

proof fn lemma_opening_line_plain(key: Seq<char>)
    requires
        !key.contains('\n'),
    ensures
        is_plain_line(opening_line(key)),
{
    let l = opening_line(key);
    if l.contains('\n') {
        let i = choose|i: int| 0 <= i < l.len() && l[i] == '\n';
        if i < key.len() {
            assert(key[i] == '\n');
        }
    }
    assert(l.last() == ':');
}

/// The body lines of an entry: the password, a `key:` line, its marker line,
/// and then the given lines.
pub open spec fn block_body(password: Seq<char>, key: Seq<char>, m: Seq<char>, rest: Seq<
    Seq<char>,
>) -> Seq<Seq<char>> {
    seq![password, opening_line(key), m] + rest
}

proof fn lemma_block_body_lines(
    password: Seq<char>,
    key: Seq<char>,
    m: Seq<char>,
    rest: Seq<Seq<char>>,
)
    requires
        is_plain_line(password),
        !key.contains('\n'),
        is_plain_line(m),
        forall|j: int| 0 <= j < rest.len() ==> is_plain_line(#[trigger] rest[j]),
    ensures
        text_lines(lines_text(block_body(password, key, m, rest))) == block_body(password, key, m, rest),
        after_first(block_body(password, key, m, rest)) == Seq::<Seq<char>>::empty() + seq![
            opening_line(key),
            m,
        ] + rest,
{
    let lines = block_body(password, key, m, rest);
    lemma_opening_line_plain(key);
    assert forall|k: int| 0 <= k < lines.len() implies is_plain_line(#[trigger] lines[k]) by {
        if k >= 3 {
            assert(lines[k] == rest[k - 3]);
        }
    }
    lemma_text_lines_of(lines);
    assert(lines.drop_first() =~= Seq::<Seq<char>>::empty() + seq![opening_line(key), m] + rest);
}

/// An entry body made of the password line, a `key:` line, a marker line,
/// content lines and the marker line again, each ended by a line feed, reads
/// as the password and one field of several lines under `key`, whose value
/// is the content lines joined by line feeds. No line holds a line feed or
/// ends with a carriage return; the content lines carry no trailing
/// whitespace and do not read as the marker.
pub proof fn lemma_body_block_round_trip(
    password: Seq<char>,
    key: Seq<char>,
    m: Seq<char>,
    content: Seq<Seq<char>>,
    password_id: Seq<char>,
)
    requires
        is_plain_line(password),
        !key.contains('\n'),
        !key.contains(':'),
        is_plain_line(m),
        trim(m).len() > 0,
        forall|j: int| 0 <= j < content.len() ==> is_plain_line(#[trigger] content[j]),
        forall|j: int| 0 <= j < content.len() ==> trim(#[trigger] content[j]) != trim(m),
        forall|j: int| 0 <= j < content.len() ==> trim_end(#[trigger] content[j]) == content[j],
    ensures
        entry_outcome(lines_text(block_body(password, key, m, content + seq![m])), password_id)
            == Ok::<Seq<FieldModel>, FieldErrorModel>(
            seq![
                password_field(password),
                FieldModel { key, value: join_lines(content), multiline: true },
            ],
        ),
{
    let rest = content + seq![m];
    assert forall|j: int| 0 <= j < rest.len() implies is_plain_line(#[trigger] rest[j]) by {
        if j < content.len() {
            assert(rest[j] == content[j]);
        }
    }
    lemma_block_body_lines(password, key, m, rest);
    let pre = Seq::<Seq<char>>::empty();
    assert(run_fields(pre) == (ScanState::Scanning, Seq::<FieldModel>::empty()));
    lemma_block_round_trip(pre, key, m, content);
    assert(pre + seq![opening_line(key), m] + rest =~= pre + seq![opening_line(key), m] + content
        + seq![m]);
    let field = FieldModel { key, value: join_lines(content), multiline: true };
    assert(Seq::<FieldModel>::empty().push(field) =~= seq![field]);
    assert(seq![password_field(password)] + seq![field] =~= seq![password_field(password), field]);
}

/// An entry body made of the password line, a `key:` line, a marker line and
/// content lines of which none reads as the marker, each ended by a line
/// feed, leaves the block open: the outcome is the error that names the entry
/// and carries the unfinished field under `key`, holding what it gathered.
/// No line holds a line feed or ends with a carriage return.
pub proof fn lemma_body_block_unterminated(
    password: Seq<char>,
    key: Seq<char>,
    m: Seq<char>,
    content: Seq<Seq<char>>,
    password_id: Seq<char>,
)
    requires
        is_plain_line(password),
        !key.contains('\n'),
        !key.contains(':'),
        is_plain_line(m),
        trim(m).len() > 0,
        forall|j: int| 0 <= j < content.len() ==> is_plain_line(#[trigger] content[j]),
        forall|j: int| 0 <= j < content.len() ==> trim(#[trigger] content[j]) != trim(m),
    ensures
        entry_outcome(lines_text(block_body(password, key, m, content)), password_id) == Err::<
            Seq<FieldModel>,
            FieldErrorModel,
        >(
            FieldErrorModel::MultilineUnterminated {
                password_id,
                partial_field: FieldModel { key, value: gathered(content), multiline: true },
            },
        ),
{
    lemma_block_body_lines(password, key, m, content);
    let pre = Seq::<Seq<char>>::empty();
    assert(run_fields(pre) == (ScanState::Scanning, Seq::<FieldModel>::empty()));
    lemma_block_unterminated(pre, key, m, content);
}

} // verus!
