//! The text that scenes and rigs are written in: JSON, with `//` and
//! `/* */` comments and a trailing comma allowed before a closing bracket.
//!
//! A document is read into a flat table of values, children before their
//! parent, so that every value refers to its children by index and the last
//! value read is the document itself. Numbers are kept as the text they were
//! written as; what a number means is up to whoever reads the field.
use vstd::prelude::*;

use crate::text::{char_from, chars_of, push_char, same_text};

pub mod bind;

verus! {

/// How deeply arrays and objects may nest before a document is refused.
pub const MAX_DEPTH: u32 = 32;

/// What went wrong at a place in the text.
#[derive(Clone, Copy, PartialEq, Eq, Structural, Debug)]
pub enum Problem {
    /// The text ended inside a value.
    End,
    /// A character that cannot stand here.
    Unexpected,
    /// A `/*` comment that is never closed.
    UnclosedComment,
    /// A backslash escape that is not one JSON has.
    BadEscape,
    /// A number that does not follow JSON's spelling.
    BadNumber,
    /// Arrays and objects nested deeper than [`MAX_DEPTH`].
    TooDeep,
    /// Something after the document's one value.
    Trailing,
}

/// Why a text could not be read, and where: the index of the character,
/// counting from zero.
#[derive(Clone, Copy, PartialEq, Eq, Structural, Debug)]
pub struct ParseError {
    /// The character the reader stopped at.
    pub at: usize,
    /// What it found wrong there.
    pub problem: Problem,
}

/// One value of a document. Arrays and objects hold their members by their
/// index in the document.
#[derive(Clone, Debug, PartialEq)]
pub enum Value {
    /// `null`.
    Null,
    /// `true` or `false`.
    Bool(bool),
    /// A number, as written.
    Number(String),
    /// A string, escapes resolved.
    Str(String),
    /// An array: its items, in order.
    Array(Vec<usize>),
    /// An object: its fields, name and value, in the order written.
    Object(Vec<(String, usize)>),
}

/// A [`Value`] as a value.
pub enum ValueSpec {
    /// `null`.
    Null,
    /// `true` or `false`.
    Bool(bool),
    /// A number, as written.
    Number(Seq<char>),
    /// A string.
    Str(Seq<char>),
    /// An array's items.
    Array(Seq<usize>),
    /// An object's fields.
    Object(Seq<(Seq<char>, usize)>),
}

impl View for Value {
    type V = ValueSpec;

    open spec fn view(&self) -> ValueSpec {
        match self {
            Value::Null => ValueSpec::Null,
            Value::Bool(b) => ValueSpec::Bool(*b),
            Value::Number(s) => ValueSpec::Number(s@),
            Value::Str(s) => ValueSpec::Str(s@),
            Value::Array(items) => ValueSpec::Array(items@),
            Value::Object(fields) => ValueSpec::Object(
                fields@.map_values(|f: (String, usize)| (f.0@, f.1)),
            ),
        }
    }
}

/// A read document: every value in it, children first, and the index of
/// the document's own value, which is the last.
#[derive(Clone, Debug, PartialEq)]
pub struct Document {
    /// Every value, children before the array or object holding them.
    pub values: Vec<Value>,
    /// The index of the outermost value.
    pub root: usize,
}

/// The values of a document, as values.
pub open spec fn values_of(values: Seq<Value>) -> Seq<ValueSpec> {
    values.map_values(|v: Value| v@)
}

/// Whether `c` is white space between tokens.
pub open spec fn is_space(c: char) -> bool {
    c == ' ' || c == '\t' || c == '\n' || c == '\r'
}

/// The error of `problem` at `at`.
pub open spec fn err_at(at: int, problem: Problem) -> ParseError {
    ParseError { at: at as usize, problem }
}

/// Where the next token after `i` starts: white space and comments skipped.
pub open spec fn skip_ws(cs: Seq<char>, i: int) -> Result<int, ParseError>
    decreases cs.len() - i,
{
    if i < 0 || i >= cs.len() {
        Ok(i)
    } else if is_space(cs[i]) {
        skip_ws(cs, i + 1)
    } else if cs[i] == '/' && i + 1 < cs.len() && cs[i + 1] == '/' {
        skip_line(cs, i + 2)
    } else if cs[i] == '/' && i + 1 < cs.len() && cs[i + 1] == '*' {
        skip_block(cs, i + 2, i)
    } else {
        Ok(i)
    }
}

/// The rest of a `//` comment from `i`, then whatever follows it.
pub open spec fn skip_line(cs: Seq<char>, i: int) -> Result<int, ParseError>
    decreases cs.len() - i,
{
    if i < 0 || i >= cs.len() {
        Ok(i)
    } else if cs[i] == '\n' {
        skip_ws(cs, i + 1)
    } else {
        skip_line(cs, i + 1)
    }
}

/// The rest of a `/*` comment opened at `start`, from `i`, then whatever
/// follows it.
pub open spec fn skip_block(cs: Seq<char>, i: int, start: int) -> Result<int, ParseError>
    decreases cs.len() - i,
{
    if i < 0 || i + 1 >= cs.len() {
        Err(err_at(start, Problem::UnclosedComment))
    } else if cs[i] == '*' && cs[i + 1] == '/' {
        skip_ws(cs, i + 2)
    } else {
        skip_block(cs, i + 1, start)
    }
}

/// Skipping never moves backwards, and never past the end.
pub proof fn lemma_skip_ahead(cs: Seq<char>, i: int)
    requires
        0 <= i <= cs.len(),
    ensures
        skip_ws(cs, i) is Ok ==> i <= skip_ws(cs, i)->Ok_0 <= cs.len(),
        skip_line(cs, i) is Ok ==> i <= skip_line(cs, i)->Ok_0 <= cs.len(),
        forall|start: int|
            #[trigger] skip_block(cs, i, start) is Ok ==> i <= skip_block(cs, i, start)->Ok_0
                <= cs.len(),
    decreases cs.len() - i,
{
    if i < cs.len() {
        lemma_skip_ahead(cs, i + 1);
        if i + 2 <= cs.len() {
            lemma_skip_ahead(cs, i + 2);
            assert(skip_block(cs, i + 2, i) is Ok ==> i + 2 <= skip_block(cs, i + 2, i)->Ok_0 <= cs.len());
        }
        assert forall|start: int| #[trigger] skip_block(cs, i, start) is Ok implies i <= skip_block(
            cs,
            i,
            start,
        )->Ok_0 <= cs.len() by {
            if i + 1 < cs.len() && !(cs[i] == '*' && cs[i + 1] == '/') {
                assert(skip_block(cs, i + 1, start) is Ok ==> i + 1 <= skip_block(cs, i + 1, start)->Ok_0);
            }
        }
    }
}

/// Skipping from `i` past a run of spaces, tabs, line feeds and carriage
/// returns ending at `j` lands where skipping from `j` does: those four are
/// the white space between tokens, so a file saved with CRLF line endings
/// reads as the same file saved with LF.
pub proof fn lemma_white_space_skipped(cs: Seq<char>, i: int, j: int)
    requires
        0 <= i <= j <= cs.len(),
        forall|k: int|
            i <= k < j ==> #[trigger] cs[k] == ' ' || cs[k] == '\t' || cs[k] == '\n' || cs[k] == '\r',
    ensures
        skip_ws(cs, i) == skip_ws(cs, j),
    decreases j - i,
{
    if i < j {
        lemma_white_space_skipped(cs, i + 1, j);
    }
}

/// Whether a token starts at `j`: not a space, a tab, a line feed or a
/// carriage return, and not the start of a comment.
pub open spec fn token_at(cs: Seq<char>, j: int) -> bool {
    &&& cs[j] != ' ' && cs[j] != '\t' && cs[j] != '\n' && cs[j] != '\r'
    &&& !(cs[j] == '/' && j + 1 < cs.len() && (cs[j + 1] == '/' || cs[j + 1] == '*'))
}

/// Where skipping stops short of the end, a token starts.
pub proof fn lemma_skip_lands_on_token(cs: Seq<char>, i: int)
    requires
        0 <= i <= cs.len(),
    ensures
        skip_ws(cs, i) is Ok && skip_ws(cs, i)->Ok_0 < cs.len() ==> token_at(cs, skip_ws(cs, i)->Ok_0),
        skip_line(cs, i) is Ok && skip_line(cs, i)->Ok_0 < cs.len() ==> token_at(cs, skip_line(cs, i)->Ok_0),
        forall|start: int|
            #[trigger] skip_block(cs, i, start) is Ok && skip_block(cs, i, start)->Ok_0 < cs.len() ==> token_at(
                cs,
                skip_block(cs, i, start)->Ok_0,
            ),
    decreases cs.len() - i,
{
    if i < cs.len() {
        lemma_skip_lands_on_token(cs, i + 1);
        if i + 2 <= cs.len() {
            lemma_skip_lands_on_token(cs, i + 2);
            let sb = skip_block(cs, i + 2, i);
            assert(sb is Ok && sb->Ok_0 < cs.len() ==> token_at(cs, sb->Ok_0));
        }
        if !is_space(cs[i]) && !(cs[i] == '/' && i + 1 < cs.len() && (cs[i + 1] == '/' || cs[i + 1] == '*')) {
            assert(skip_ws(cs, i) == Ok::<int, ParseError>(i));
            assert(token_at(cs, i));
        }
        assert forall|start: int|
            #[trigger] skip_block(cs, i, start) is Ok && skip_block(cs, i, start)->Ok_0 < cs.len() implies token_at(
                cs,
                skip_block(cs, i, start)->Ok_0,
            ) by {
            if i + 1 < cs.len() && !(cs[i] == '*' && cs[i + 1] == '/') {
                let sb = skip_block(cs, i + 1, start);
                assert(sb is Ok && sb->Ok_0 < cs.len() ==> token_at(cs, sb->Ok_0));
            }
        }
    }
}

/// A `//` comment runs to the first line feed after it: skipping from its
/// first slash is skipping from just past that line feed, or reaches the
/// end of the text when there is none.
pub proof fn lemma_line_comment(cs: Seq<char>, i: int, j: int)
    requires
        0 <= i,
        i + 2 <= j <= cs.len(),
        cs[i] == '/' && cs[i + 1] == '/',
        forall|k: int| i + 2 <= k < j ==> #[trigger] cs[k] != '\n',
        j == cs.len() || cs[j] == '\n',
    ensures
        skip_ws(cs, i) == if j == cs.len() {
            Ok::<int, ParseError>(j)
        } else {
            skip_ws(cs, j + 1)
        },
{
    lemma_line_rest(cs, i + 2, j);
}

/// The rest of a line comment from `k` reaches the line feed at `j`.
proof fn lemma_line_rest(cs: Seq<char>, k: int, j: int)
    requires
        0 <= k <= j <= cs.len(),
        forall|m: int| k <= m < j ==> #[trigger] cs[m] != '\n',
        j == cs.len() || cs[j] == '\n',
    ensures
        skip_line(cs, k) == if j == cs.len() {
            Ok::<int, ParseError>(j)
        } else {
            skip_ws(cs, j + 1)
        },
    decreases j - k,
{
    if k < j {
        lemma_line_rest(cs, k + 1, j);
    }
}

/// A `/*` comment runs to the first `*/` after it: skipping from its slash
/// is skipping from just past that `*/`, and a comment with none is
/// `UnclosedComment` at its slash.
pub proof fn lemma_block_comment(cs: Seq<char>, i: int, j: int)
    requires
        0 <= i,
        i + 2 <= j <= cs.len(),
        cs[i] == '/' && cs[i + 1] == '*',
        forall|k: int| i + 2 <= k < j ==> !(#[trigger] cs[k] == '*' && k + 1 < cs.len() && cs[k + 1] == '/'),
        j == cs.len() || (j + 1 < cs.len() && cs[j] == '*' && cs[j + 1] == '/'),
    ensures
        skip_ws(cs, i) == if j == cs.len() {
            Err::<int, ParseError>(err_at(i, Problem::UnclosedComment))
        } else {
            skip_ws(cs, j + 2)
        },
{
    lemma_block_rest(cs, i + 2, j, i);
}

/// The rest of a block comment opened at `start`, from `k`, reaches the
/// `*/` at `j`.
proof fn lemma_block_rest(cs: Seq<char>, k: int, j: int, start: int)
    requires
        0 <= k <= j <= cs.len(),
        forall|m: int| k <= m < j ==> !(#[trigger] cs[m] == '*' && m + 1 < cs.len() && cs[m + 1] == '/'),
        j == cs.len() || (j + 1 < cs.len() && cs[j] == '*' && cs[j + 1] == '/'),
    ensures
        skip_block(cs, k, start) == if j == cs.len() {
            Err::<int, ParseError>(err_at(start, Problem::UnclosedComment))
        } else {
            skip_ws(cs, j + 2)
        },
    decreases j - k,
{
    if k < j {
        if k + 1 < cs.len() {
            lemma_block_rest(cs, k + 1, j, start);
        }
    }
}

/// Inside a string, a run of characters that are neither a quote, a
/// backslash nor a control character reads as itself.
pub proof fn lemma_string_plain(cs: Seq<char>, i: int, j: int, acc: Seq<char>)
    requires
        0 <= i <= j <= cs.len(),
        forall|k: int|
            i <= k < j ==> #[trigger] cs[k] != '"' && cs[k] != '\\' && (cs[k] as u32) >= 0x20,
    ensures
        string_body(cs, i, acc) == string_body(cs, j, acc + cs.subrange(i, j)),
    decreases j - i,
{
    if i < j {
        lemma_string_plain(cs, i + 1, j, acc.push(cs[i]));
        assert(acc.push(cs[i]) + cs.subrange(i + 1, j) =~= acc + cs.subrange(i, j));
    } else {
        assert(acc + cs.subrange(i, j) =~= acc);
    }
}

/// Inside a string, the two-character escapes read as JSON has them: `\"`
/// a quote, `\\` a backslash, `\/` a slash, `\b` backspace, `\f` form
/// feed, `\n` line feed, `\r` carriage return, `\t` tab.
pub proof fn lemma_string_escapes(cs: Seq<char>, i: int, acc: Seq<char>)
    requires
        0 <= i,
        i + 1 < cs.len(),
        cs[i] == '\\',
    ensures
        ({
            let e = cs[i + 1];
            let ch = if e == '"' {
                Some('"')
            } else if e == '\\' {
                Some('\\')
            } else if e == '/' {
                Some('/')
            } else if e == 'b' {
                Some('\u{8}')
            } else if e == 'f' {
                Some('\u{c}')
            } else if e == 'n' {
                Some('\n')
            } else if e == 'r' {
                Some('\r')
            } else if e == 't' {
                Some('\t')
            } else {
                None
            };
            ch is Some ==> string_body(cs, i, acc) == string_body(cs, i + 2, acc.push(ch->Some_0))
        }),
        cs[i + 1] != 'u' && !(cs[i + 1] == '"' || cs[i + 1] == '\\' || cs[i + 1] == '/' || cs[i + 1] == 'b'
            || cs[i + 1] == 'f' || cs[i + 1] == 'n' || cs[i + 1] == 'r' || cs[i + 1] == 't') ==> string_body(
            cs,
            i,
            acc,
        ) == Err::<(Seq<char>, int), ParseError>(err_at(i, Problem::BadEscape)),
{
}

/// A trailing comma is allowed: an array of one digit followed by a comma,
/// any white space and the closing bracket reads as that one number.
pub proof fn lemma_trailing_comma(d: char, gap: Seq<char>, after: Seq<char>)
    requires
        '0' <= d <= '9',
        forall|k: int|
            0 <= k < gap.len() ==> #[trigger] gap[k] == ' ' || gap[k] == '\t' || gap[k] == '\n' || gap[k] == '\r',
        forall|k: int|
            0 <= k < after.len() ==> #[trigger] after[k] == ' ' || after[k] == '\t' || after[k] == '\n'
                || after[k] == '\r',
    ensures
        read_document(seq!['[', d, ','] + gap + seq![']'] + after) == Ok::<(Seq<ValueSpec>, int), ParseError>(
            (seq![ValueSpec::Number(seq![d]), ValueSpec::Array(seq![0usize])], 1),
        ),
{
    let cs = seq!['[', d, ','] + gap + seq![']'] + after;
    let close: int = gap.len() as int + 3;
    assert(cs[0] == '[' && cs[1] == d && cs[2] == ',' && cs[close] == ']');
    assert forall|k: int| 3 <= k < close implies #[trigger] cs[k] == ' ' || cs[k] == '\t' || cs[k] == '\n'
        || cs[k] == '\r' by {
        assert(cs[k] == gap[k - 3]);
    }
    assert forall|k: int| close + 1 <= k < cs.len() implies #[trigger] cs[k] == ' ' || cs[k] == '\t' || cs[k]
        == '\n' || cs[k] == '\r' by {
        assert(cs[k] == after[k - close - 1]);
    }
    lemma_white_space_skipped(cs, 3, close);
    lemma_white_space_skipped(cs, close + 1, cs.len() as int);
    assert(skip_ws(cs, 0) == Ok::<int, ParseError>(0));
    assert(skip_ws(cs, 1) == Ok::<int, ParseError>(1));
    assert(skip_ws(cs, 2) == Ok::<int, ParseError>(2));
    assert(skip_ws(cs, close) == Ok::<int, ParseError>(close));
    assert(skip_ws(cs, cs.len() as int) == Ok::<int, ParseError>(cs.len() as int));
    assert(digits_end(cs, 2) == 2);
    assert(number_end(cs, 1) == Some(2int));
    assert(cs.subrange(1, 2) =~= seq![d]);
    let one = seq![ValueSpec::Number(seq![d])];
    assert(read_value(cs, 1, (MAX_DEPTH - 1) as nat, Seq::empty()) == Ok::<(Seq<ValueSpec>, int), ParseError>(
        (one, 2),
    ));
    assert(read_items(cs, 3, (MAX_DEPTH - 1) as nat, one, seq![0usize]) == Ok::<
        (Seq<ValueSpec>, int),
        ParseError,
    >((one.push(ValueSpec::Array(seq![0usize])), close + 1)));
    assert(seq![0usize] =~= Seq::<usize>::empty().push(0usize));
    assert(read_items(cs, 1, (MAX_DEPTH - 1) as nat, Seq::empty(), Seq::empty()) == Ok::<
        (Seq<ValueSpec>, int),
        ParseError,
    >((one.push(ValueSpec::Array(seq![0usize])), close + 1)));
    assert(one.push(ValueSpec::Array(seq![0usize])) =~= seq![ValueSpec::Number(seq![d]), ValueSpec::Array(seq![0usize])]);
}

/// A braced pair with nothing but white space (spaces, tabs, line feeds,
/// carriage returns) inside and after it is a document of one empty object.
pub proof fn lemma_empty_object(inner: Seq<char>, after: Seq<char>)
    requires
        forall|k: int|
            0 <= k < inner.len() ==> #[trigger] inner[k] == ' ' || inner[k] == '\t' || inner[k] == '\n'
                || inner[k] == '\r',
        forall|k: int|
            0 <= k < after.len() ==> #[trigger] after[k] == ' ' || after[k] == '\t' || after[k] == '\n'
                || after[k] == '\r',
    ensures
        read_document(seq!['{'] + inner + seq!['}'] + after) == Ok::<(Seq<ValueSpec>, int), ParseError>(
            (seq![ValueSpec::Object(Seq::empty())], 0),
        ),
{
    let cs = seq!['{'] + inner + seq!['}'] + after;
    let close: int = inner.len() as int + 1;
    assert(cs[0] == '{');
    assert(cs[close] == '}');
    assert forall|k: int| 1 <= k < close implies #[trigger] cs[k] == ' ' || cs[k] == '\t' || cs[k] == '\n'
        || cs[k] == '\r' by {
        assert(cs[k] == inner[k - 1]);
    }
    assert forall|k: int| close + 1 <= k < cs.len() implies #[trigger] cs[k] == ' ' || cs[k] == '\t' || cs[k]
        == '\n' || cs[k] == '\r' by {
        assert(cs[k] == after[k - close - 1]);
    }
    lemma_white_space_skipped(cs, 1, close);
    lemma_white_space_skipped(cs, close + 1, cs.len() as int);
    assert(skip_ws(cs, 0) == Ok::<int, ParseError>(0));
    assert(skip_ws(cs, close) == Ok::<int, ParseError>(close));
    assert(skip_ws(cs, cs.len() as int) == Ok::<int, ParseError>(cs.len() as int));
    assert(read_members(cs, 1, (MAX_DEPTH - 1) as nat, Seq::empty(), Seq::empty()) == Ok::<
        (Seq<ValueSpec>, int),
        ParseError,
    >((seq![ValueSpec::Object(Seq::empty())], close + 1)));
}

/// Whether `c` is a decimal digit.
pub open spec fn is_digit(c: char) -> bool {
    '0' <= c && c <= '9'
}

/// The value of the hexadecimal digit `c`.
pub open spec fn hex_val(c: char) -> Option<u32> {
    if '0' <= c && c <= '9' {
        Some((c as u32 - '0' as u32) as u32)
    } else if 'a' <= c && c <= 'f' {
        Some((c as u32 - 'a' as u32 + 10) as u32)
    } else if 'A' <= c && c <= 'F' {
        Some((c as u32 - 'A' as u32 + 10) as u32)
    } else {
        None
    }
}

/// The four hexadecimal digits at `p`, as a number.
pub open spec fn hex4(cs: Seq<char>, p: int) -> Option<u32> {
    if p < 0 || p + 4 > cs.len() {
        None
    } else {
        match (hex_val(cs[p]), hex_val(cs[p + 1]), hex_val(cs[p + 2]), hex_val(cs[p + 3])) {
            (Some(a), Some(b), Some(c), Some(d)) => Some((a * 4096 + b * 256 + c * 16 + d) as u32),
            _ => None,
        }
    }
}

/// Whether `v` is the number of a character: not past `0x10FFFF` and not
/// one of the surrogates UTF-16 pairs up.
pub open spec fn is_char_value(v: u32) -> bool {
    v <= 0xD7FF || (0xE000 <= v && v <= 0x10FFFF)
}

/// The character a `\u` escape (or a pair of them, for a character past
/// `0xFFFF`) at `i` stands for, and how many characters of text it spans.
pub open spec fn unicode_escape(cs: Seq<char>, i: int) -> Option<(char, int)> {
    match hex4(cs, i + 2) {
        None => None,
        Some(v) => if 0xD800 <= v && v < 0xDC00 {
            if i + 7 < cs.len() && cs[i + 6] == '\\' && cs[i + 7] == 'u' {
                match hex4(cs, i + 8) {
                    Some(w) => if 0xDC00 <= w && w < 0xE000 {
                        let cp = (0x10000 + (v - 0xD800) * 0x400 + (w - 0xDC00)) as u32;
                        if is_char_value(cp) {
                            Some((cp as char, 12))
                        } else {
                            None
                        }
                    } else {
                        None
                    },
                    None => None,
                }
            } else {
                None
            }
        } else if is_char_value(v) {
            Some((v as char, 6))
        } else {
            None
        },
    }
}

/// The character the backslash escape at `i` stands for, and how many
/// characters of text it spans.
pub open spec fn escaped(cs: Seq<char>, i: int) -> Option<(char, int)> {
    let n = cs.len();
    let e = cs[i + 1];
    if e == '"' {
        Some(('"', 2))
    } else if e == '\\' {
        Some(('\\', 2))
    } else if e == '/' {
        Some(('/', 2))
    } else if e == 'b' {
        Some(('\u{8}', 2))
    } else if e == 'f' {
        Some(('\u{c}', 2))
    } else if e == 'n' {
        Some(('\n', 2))
    } else if e == 'r' {
        Some(('\r', 2))
    } else if e == 't' {
        Some(('\t', 2))
    } else if e == 'u' {
        unicode_escape(cs, i)
    } else {
        None
    }
}

/// An escape never reaches past the end of the text.
pub proof fn lemma_escape_fits(cs: Seq<char>, i: int)
    requires
        0 <= i,
        i + 1 < cs.len(),
        escaped(cs, i) is Some,
    ensures
        2 <= escaped(cs, i)->Some_0.1,
        i + escaped(cs, i)->Some_0.1 <= cs.len(),
{
}

/// The rest of a string from `i`, after `acc` has been read: its text and
/// the index just past its closing quote.
pub open spec fn string_body(cs: Seq<char>, i: int, acc: Seq<char>) -> Result<(Seq<char>, int), ParseError>
    decreases cs.len() - i,
{
    if i < 0 || i >= cs.len() {
        Err(err_at(i, Problem::End))
    } else if cs[i] == '"' {
        Ok((acc, i + 1))
    } else if cs[i] == '\\' {
        if i + 1 >= cs.len() {
            Err(err_at(i + 1, Problem::End))
        } else {
            match escaped(cs, i) {
                None => Err(err_at(i, Problem::BadEscape)),
                Some(e) => {
                    proof {
                        lemma_escape_fits(cs, i);
                    }
                    string_body(cs, i + e.1, acc.push(e.0))
                },
            }
        }
    } else if (cs[i] as u32) < 0x20 {
        Err(err_at(i, Problem::Unexpected))
    } else {
        string_body(cs, i + 1, acc.push(cs[i]))
    }
}

/// A string ends no further than the text does.
pub proof fn lemma_string_within(cs: Seq<char>, i: int, acc: Seq<char>)
    requires
        0 <= i,
    ensures
        string_body(cs, i, acc) is Ok ==> i < string_body(cs, i, acc)->Ok_0.1 <= cs.len(),
    decreases cs.len() - i,
{
    if 0 <= i < cs.len() && cs[i] != '"' {
        if cs[i] == '\\' {
            if i + 1 < cs.len() {
                if let Some(e) = escaped(cs, i) {
                    lemma_escape_fits(cs, i);
                    lemma_string_within(cs, i + e.1, acc.push(e.0));
                }
            }
        } else if !((cs[i] as u32) < 0x20) {
            lemma_string_within(cs, i + 1, acc.push(cs[i]));
        }
    }
}

/// Where the run of digits from `p` ends.
pub open spec fn digits_end(cs: Seq<char>, p: int) -> int
    decreases cs.len() - p,
{
    if 0 <= p < cs.len() && is_digit(cs[p]) {
        digits_end(cs, p + 1)
    } else {
        p
    }
}

/// A run of digits never ends before it starts, nor past the end.
pub proof fn lemma_digits_ahead(cs: Seq<char>, p: int)
    requires
        0 <= p <= cs.len(),
    ensures
        p <= digits_end(cs, p) <= cs.len(),
        p < cs.len() && is_digit(cs[p]) ==> p < digits_end(cs, p),
    decreases cs.len() - p,
{
    if p < cs.len() && is_digit(cs[p]) {
        lemma_digits_ahead(cs, p + 1);
    }
}

/// Where the number starting at `i` ends, if it is spelled as JSON spells
/// one: an optional minus, a whole part without leading zeros, then
/// optionally a fraction and an exponent.
pub open spec fn number_end(cs: Seq<char>, i: int) -> Option<int> {
    let p0 = if i < cs.len() && cs[i] == '-' { i + 1 } else { i };
    let whole = if p0 < cs.len() && cs[p0] == '0' {
        Some(p0 + 1)
    } else if p0 < cs.len() && '1' <= cs[p0] && cs[p0] <= '9' {
        Some(digits_end(cs, p0))
    } else {
        None
    };
    match whole {
        None => None,
        Some(p1) => {
            let frac = if p1 < cs.len() && cs[p1] == '.' {
                if p1 + 1 < cs.len() && is_digit(cs[p1 + 1]) {
                    Some(digits_end(cs, p1 + 1))
                } else {
                    None
                }
            } else {
                Some(p1)
            };
            match frac {
                None => None,
                Some(p2) => if p2 < cs.len() && (cs[p2] == 'e' || cs[p2] == 'E') {
                    let q = if p2 + 1 < cs.len() && (cs[p2 + 1] == '+' || cs[p2 + 1] == '-') {
                        p2 + 2
                    } else {
                        p2 + 1
                    };
                    if q < cs.len() && is_digit(cs[q]) {
                        Some(digits_end(cs, q))
                    } else {
                        None
                    }
                } else {
                    Some(p2)
                },
            }
        },
    }
}

/// Whether the text at `i` spells `word`.
pub open spec fn spells(cs: Seq<char>, i: int, word: Seq<char>) -> bool {
    &&& 0 <= i
    &&& i + word.len() <= cs.len()
    &&& forall|k: int| 0 <= k < word.len() ==> cs[i + k] == word[k]
}

/// The `true`, `false` or `null` at `i`, read into `values`.
pub open spec fn read_literal(cs: Seq<char>, i: int, values: Seq<ValueSpec>) -> Result<
    (Seq<ValueSpec>, int),
    ParseError,
> {
    if cs[i] == 't' && spells(cs, i, seq!['t', 'r', 'u', 'e']) {
        Ok((values.push(ValueSpec::Bool(true)), i + 4))
    } else if cs[i] == 'f' && spells(cs, i, seq!['f', 'a', 'l', 's', 'e']) {
        Ok((values.push(ValueSpec::Bool(false)), i + 5))
    } else if cs[i] == 'n' && spells(cs, i, seq!['n', 'u', 'l', 'l']) {
        Ok((values.push(ValueSpec::Null), i + 4))
    } else {
        Err(err_at(i, Problem::Unexpected))
    }
}

/// The value at `i` that is not an array or an object, read into `values`.
pub open spec fn read_atom(cs: Seq<char>, i: int, values: Seq<ValueSpec>) -> Result<
    (Seq<ValueSpec>, int),
    ParseError,
> {
    if cs[i] == '"' {
        match string_body(cs, i + 1, Seq::empty()) {
            Err(e) => Err(e),
            Ok((text, k)) => Ok((values.push(ValueSpec::Str(text)), k)),
        }
    } else if cs[i] == 't' || cs[i] == 'f' || cs[i] == 'n' {
        read_literal(cs, i, values)
    } else if cs[i] == '-' || is_digit(cs[i]) {
        match number_end(cs, i) {
            None => Err(err_at(i, Problem::BadNumber)),
            Some(k) => Ok((values.push(ValueSpec::Number(cs.subrange(i, k))), k)),
        }
    } else {
        Err(err_at(i, Problem::Unexpected))
    }
}

/// The value starting at `i`, read into `values`: the table with it (and
/// everything inside it) added last, and the index just past it. `depth` is
/// how many more arrays and objects may open.
pub open spec fn read_value(cs: Seq<char>, i: int, depth: nat, values: Seq<ValueSpec>) -> Result<
    (Seq<ValueSpec>, int),
    ParseError,
>
    decreases depth, 0int, 0int,
{
    if i < 0 || i >= cs.len() {
        Err(err_at(i, Problem::End))
    } else if cs[i] == '{' || cs[i] == '[' {
        if depth == 0 {
            Err(err_at(i, Problem::TooDeep))
        } else if cs[i] == '{' {
            read_members(cs, i + 1, (depth - 1) as nat, values, Seq::empty())
        } else {
            read_items(cs, i + 1, (depth - 1) as nat, values, Seq::empty())
        }
    } else {
        read_atom(cs, i, values)
    }
}

/// What ends a list at `m`: the end of the text, or a character that is
/// neither a comma nor its closing bracket.
pub open spec fn list_error(cs: Seq<char>, m: int) -> ParseError {
    if m >= cs.len() {
        err_at(m, Problem::End)
    } else {
        err_at(m, Problem::Unexpected)
    }
}

/// The rest of an array from `i` (just past its `[` or a comma), after the
/// items `items` have been read into `values`.
pub open spec fn read_items(
    cs: Seq<char>,
    i: int,
    depth: nat,
    values: Seq<ValueSpec>,
    items: Seq<usize>,
) -> Result<(Seq<ValueSpec>, int), ParseError>
    decreases depth, 1int, cs.len() - i,
{
    match skip_ws(cs, i) {
        Err(e) => Err(e),
        Ok(j) => if 0 <= j < cs.len() && cs[j] == ']' {
            Ok((values.push(ValueSpec::Array(items)), j + 1))
        } else {
            match read_value(cs, j, depth, values) {
                Err(e) => Err(e),
                Ok((after, k)) => if k <= i || k > cs.len() {
                    Err(err_at(i, Problem::Unexpected))
                } else {
                    match skip_ws(cs, k) {
                        Err(e) => Err(e),
                        Ok(m) => {
                            let more = items.push((after.len() - 1) as usize);
                            if 0 <= m < cs.len() && cs[m] == ',' {
                                proof {
                                    lemma_skip_ahead(cs, k);
                                }
                                read_items(cs, m + 1, depth, after, more)
                            } else if 0 <= m < cs.len() && cs[m] == ']' {
                                Ok((after.push(ValueSpec::Array(more)), m + 1))
                            } else {
                                Err(list_error(cs, m))
                            }
                        },
                    }
                },
            }
        },
    }
}

/// The rest of an object from `i` (just past its `{` or a comma), after the
/// fields `fields` have been read into `values`.
pub open spec fn read_members(
    cs: Seq<char>,
    i: int,
    depth: nat,
    values: Seq<ValueSpec>,
    fields: Seq<(Seq<char>, usize)>,
) -> Result<(Seq<ValueSpec>, int), ParseError>
    decreases depth, 1int, cs.len() - i,
{
    match skip_ws(cs, i) {
        Err(e) => Err(e),
        Ok(j) => if 0 <= j < cs.len() && cs[j] == '}' {
            Ok((values.push(ValueSpec::Object(fields)), j + 1))
        } else if !(0 <= j < cs.len()) {
            Err(err_at(j, Problem::End))
        } else if cs[j] != '"' {
            Err(err_at(j, Problem::Unexpected))
        } else {
            match member_head(cs, j) {
                Err(e) => Err(e),
                Ok((name, v)) => match read_value(cs, v, depth, values) {
                    Err(e) => Err(e),
                    Ok((after, k)) => if k <= i || k > cs.len() {
                        Err(err_at(i, Problem::Unexpected))
                    } else {
                        match skip_ws(cs, k) {
                            Err(e) => Err(e),
                            Ok(m) => {
                                let more = fields.push((name, (after.len() - 1) as usize));
                                if 0 <= m < cs.len() && cs[m] == ',' {
                                    proof {
                                        lemma_skip_ahead(cs, k);
                                    }
                                    read_members(cs, m + 1, depth, after, more)
                                } else if 0 <= m < cs.len() && cs[m] == '}' {
                                    Ok((after.push(ValueSpec::Object(more)), m + 1))
                                } else {
                                    Err(list_error(cs, m))
                                }
                            },
                        }
                    },
                },
            }
        },
    }
}

/// The name of the field whose opening quote is at `j`, and where its value
/// starts: past the name, a colon, and white space around it.
pub open spec fn member_head(cs: Seq<char>, j: int) -> Result<(Seq<char>, int), ParseError> {
    match string_body(cs, j + 1, Seq::empty()) {
        Err(e) => Err(e),
        Ok((name, k1)) => match skip_ws(cs, k1) {
            Err(e) => Err(e),
            Ok(c) => if !(0 <= c < cs.len()) {
                Err(err_at(c, Problem::End))
            } else if cs[c] != ':' {
                Err(err_at(c, Problem::Unexpected))
            } else {
                match skip_ws(cs, c + 1) {
                    Err(e) => Err(e),
                    Ok(v) => Ok((name, v)),
                }
            },
        },
    }
}

/// What reading the text `cs` gives: its one value with everything in it,
/// nothing but white space and comments around it.
pub open spec fn read_document(cs: Seq<char>) -> Result<(Seq<ValueSpec>, int), ParseError> {
    match skip_ws(cs, 0) {
        Err(e) => Err(e),
        Ok(j) => match read_value(cs, j, MAX_DEPTH as nat, Seq::empty()) {
            Err(e) => Err(e),
            Ok((values, k)) => match skip_ws(cs, k) {
                Err(e) => Err(e),
                Ok(m) => if m < cs.len() {
                    Err(err_at(m, Problem::Trailing))
                } else {
                    Ok((values, values.len() - 1))
                },
            },
        },
    }
}

/// An exec position as a spec one, through a result.
pub open spec fn at_int(r: Result<usize, ParseError>) -> Result<int, ParseError> {
    match r {
        Ok(j) => Ok(j as int),
        Err(e) => Err(e),
    }
}

/// The error of `problem` at `at`.
fn fail(at: usize, problem: Problem) -> (e: ParseError)
    ensures
        e == err_at(at as int, problem),
{
    ParseError { at, problem }
}

/// Where the next token after `i` starts, as [`skip_ws`] has it.
fn skip_space(cs: &[char], from: usize) -> (r: Result<usize, ParseError>)
    requires
        from <= cs@.len(),
    ensures
        at_int(r) == skip_ws(cs@, from as int),
        r matches Ok(j) ==> from <= j <= cs@.len(),
{
    let n = cs.len();
    let mut i = from;
    let mut mode: u8 = 0;
    let mut start: usize = 0;
    let ghost target = skip_ws(cs@, i as int);
    proof {
        lemma_skip_ahead(cs@, i as int);
    }
    loop
        invariant
            n == cs@.len(),
            from <= i <= n,
            mode <= 2,
            mode == 2 ==> start < n,
            target is Ok ==> from <= target->Ok_0 <= n,
            target == skip_ws(cs@, from as int),
            mode == 0 ==> target == skip_ws(cs@, i as int),
            mode == 1 ==> target == skip_line(cs@, i as int),
            mode == 2 ==> target == skip_block(cs@, i as int, start as int),
        decreases n - i,
    {
        if mode == 0 {
            if i >= n {
                return Ok(i);
            }
            let c = cs[i];
            if c == ' ' || c == '\t' || c == '\n' || c == '\r' {
                i = i + 1;
            } else if c == '/' && n - i > 1 && cs[i + 1] == '/' {
                i = i + 2;
                mode = 1;
            } else if c == '/' && n - i > 1 && cs[i + 1] == '*' {
                start = i;
                i = i + 2;
                mode = 2;
            } else {
                return Ok(i);
            }
        } else if mode == 1 {
            if i >= n {
                return Ok(i);
            }
            if cs[i] == '\n' {
                mode = 0;
            }
            i = i + 1;
        } else {
            if n - i < 2 {
                return Err(fail(start, Problem::UnclosedComment));
            }
            if cs[i] == '*' && cs[i + 1] == '/' {
                i = i + 2;
                mode = 0;
            } else {
                i = i + 1;
            }
        }
    }
}

/// The value of the hexadecimal digit `c`, as [`hex_val`] has it.
fn hex_digit(c: char) -> (r: Option<u32>)
    ensures
        r == hex_val(c),
{
    if '0' <= c && c <= '9' {
        Some(c as u32 - '0' as u32)
    } else if 'a' <= c && c <= 'f' {
        Some(c as u32 - 'a' as u32 + 10)
    } else if 'A' <= c && c <= 'F' {
        Some(c as u32 - 'A' as u32 + 10)
    } else {
        None
    }
}

/// The four hexadecimal digits at `p`, as [`hex4`] has them.
fn hex_four(cs: &[char], p: usize) -> (r: Option<u32>)
    ensures
        r == hex4(cs@, p as int),
{
    if p > cs.len() || cs.len() - p < 4 {
        return None;
    }
    match (hex_digit(cs[p]), hex_digit(cs[p + 1]), hex_digit(cs[p + 2]), hex_digit(cs[p + 3])) {
        (Some(a), Some(b), Some(c), Some(d)) => Some(a * 4096 + b * 256 + c * 16 + d),
        _ => None,
    }
}

/// The character the backslash escape at `i` stands for, and how many
/// characters it spans, as [`escaped`] has them.
fn escape_at(cs: &[char], i: usize) -> (r: Option<(char, usize)>)
    requires
        i + 1 < cs@.len(),
    ensures
        match r {
            Some((c, k)) => escaped(cs@, i as int) == Some((c, k as int)),
            None => escaped(cs@, i as int) is None,
        },
{
    let n = cs.len();
    let e = cs[i + 1];
    if e == '"' {
        Some(('"', 2))
    } else if e == '\\' {
        Some(('\\', 2))
    } else if e == '/' {
        Some(('/', 2))
    } else if e == 'b' {
        Some(('\u{8}', 2))
    } else if e == 'f' {
        Some(('\u{c}', 2))
    } else if e == 'n' {
        Some(('\n', 2))
    } else if e == 'r' {
        Some(('\r', 2))
    } else if e == 't' {
        Some(('\t', 2))
    } else if e == 'u' {
        let v = match hex_four(cs, i + 2) {
            Some(v) => v,
            None => return None,
        };
        if 0xD800 <= v && v < 0xDC00 {
            if n - i > 7 && cs[i + 6] == '\\' && cs[i + 7] == 'u' {
                match hex_four(cs, i + 8) {
                    Some(w) => {
                        if 0xDC00 <= w && w < 0xE000 {
                            let cp = 0x10000 + (v - 0xD800) * 0x400 + (w - 0xDC00);
                            match char_from(cp) {
                                Some(c) => Some((c, 12)),
                                None => None,
                            }
                        } else {
                            None
                        }
                    },
                    None => None,
                }
            } else {
                None
            }
        } else {
            match char_from(v) {
                Some(c) => Some((c, 6)),
                None => None,
            }
        }
    } else {
        None
    }
}

/// The string whose opening quote is just before `i`: its text and the
/// index just past its closing quote, as [`string_body`] has them.
fn read_string(cs: &[char], from: usize) -> (r: Result<(String, usize), ParseError>)
    requires
        from <= cs@.len(),
    ensures
        match r {
            Ok((text, k)) => string_body(cs@, from as int, Seq::<char>::empty()) == Ok::<_, ParseError>((text@, k as int)),
            Err(e) => string_body(cs@, from as int, Seq::<char>::empty()) == Err::<(Seq<char>, int), ParseError>(e),
        },
        r matches Ok((_t, k)) ==> k <= cs@.len(),
{
    let n = cs.len();
    let mut acc = String::new();
    let mut i = from;
    let ghost target = string_body(cs@, from as int, Seq::<char>::empty());
    loop
        invariant
            n == cs@.len(),
            i <= n,
            target == string_body(cs@, from as int, Seq::<char>::empty()),
            target == string_body(cs@, i as int, acc@),
        decreases n - i,
    {
        if i >= n {
            return Err(fail(i, Problem::End));
        }
        let c = cs[i];
        if c == '"' {
            return Ok((acc, i + 1));
        } else if c == '\\' {
            if n - i < 2 {
                return Err(fail(i + 1, Problem::End));
            }
            match escape_at(cs, i) {
                None => {
                    return Err(fail(i, Problem::BadEscape));
                },
                Some((e, k)) => {
                    proof {
                        lemma_escape_fits(cs@, i as int);
                    }
                    push_char(&mut acc, e);
                    i = i + k;
                },
            }
        } else if (c as u32) < 0x20 {
            return Err(fail(i, Problem::Unexpected));
        } else {
            push_char(&mut acc, c);
            i = i + 1;
        }
    }
}

/// Where the run of digits from `p` ends, as [`digits_end`] has it.
fn digits_from(cs: &[char], p: usize) -> (r: usize)
    requires
        p <= cs@.len(),
    ensures
        r == digits_end(cs@, p as int),
        p <= r <= cs@.len(),
        p < cs@.len() && is_digit(cs@[p as int]) ==> p < r,
{
    proof {
        lemma_digits_ahead(cs@, p as int);
    }
    let mut q = p;
    while q < cs.len() && '0' <= cs[q] && cs[q] <= '9'
        invariant
            p <= q <= cs@.len(),
            digits_end(cs@, p as int) == digits_end(cs@, q as int),
        decreases cs@.len() - q,
    {
        q = q + 1;
    }
    q
}

/// Where the number at `i` ends, as [`number_end`] has it.
fn number_at(cs: &[char], i: usize) -> (r: Option<usize>)
    requires
        i < cs@.len(),
    ensures
        match r {
            Some(k) => number_end(cs@, i as int) == Some(k as int) && i < k <= cs@.len(),
            None => number_end(cs@, i as int) is None,
        },
{
    let n = cs.len();
    let p0 = if cs[i] == '-' { i + 1 } else { i };
    let p1 = if p0 < n && cs[p0] == '0' {
        p0 + 1
    } else if p0 < n && '1' <= cs[p0] && cs[p0] <= '9' {
        digits_from(cs, p0)
    } else {
        return None;
    };
    let p2 = if p1 < n && cs[p1] == '.' {
        if p1 + 1 < n && '0' <= cs[p1 + 1] && cs[p1 + 1] <= '9' {
            digits_from(cs, p1 + 1)
        } else {
            return None;
        }
    } else {
        p1
    };
    if p2 < n && (cs[p2] == 'e' || cs[p2] == 'E') {
        let q = if p2 + 1 < n && (cs[p2 + 1] == '+' || cs[p2 + 1] == '-') {
            p2 + 2
        } else {
            p2 + 1
        };
        if q < n && '0' <= cs[q] && cs[q] <= '9' {
            Some(digits_from(cs, q))
        } else {
            None
        }
    } else {
        Some(p2)
    }
}

/// The characters of `cs` from `a` up to `b`, as a string.
fn text_of(cs: &[char], a: usize, b: usize) -> (s: String)
    requires
        a <= b <= cs@.len(),
    ensures
        s@ == cs@.subrange(a as int, b as int),
{
    let mut s = String::new();
    let mut k = a;
    while k < b
        invariant
            a <= k <= b <= cs@.len(),
            s@ == cs@.subrange(a as int, k as int),
        decreases b - k,
    {
        push_char(&mut s, cs[k]);
        assert(cs@.subrange(a as int, k + 1) =~= cs@.subrange(a as int, k as int).push(cs@[k as int]));
        k = k + 1;
    }
    s
}

/// Reading a value always adds to the table.
pub proof fn lemma_value_grows(cs: Seq<char>, i: int, depth: nat, values: Seq<ValueSpec>)
    ensures
        read_value(cs, i, depth, values) is Ok ==> read_value(cs, i, depth, values)->Ok_0.0.len()
            > values.len(),
    decreases depth, 0int, 0int,
{
    if 0 <= i < cs.len() && (cs[i] == '{' || cs[i] == '[') && depth > 0 {
        if cs[i] == '{' {
            lemma_members_grow(cs, i + 1, (depth - 1) as nat, values, Seq::empty());
        } else {
            lemma_items_grow(cs, i + 1, (depth - 1) as nat, values, Seq::empty());
        }
    }
}

/// Reading the rest of an array always adds to the table.
pub proof fn lemma_items_grow(
    cs: Seq<char>,
    i: int,
    depth: nat,
    values: Seq<ValueSpec>,
    items: Seq<usize>,
)
    ensures
        read_items(cs, i, depth, values, items) is Ok ==> read_items(
            cs,
            i,
            depth,
            values,
            items,
        )->Ok_0.0.len() > values.len(),
    decreases depth, 1int, cs.len() - i,
{
    if let Ok(j) = skip_ws(cs, i) {
        if !(0 <= j < cs.len() && cs[j] == ']') {
            lemma_value_grows(cs, j, depth, values);
            if let Ok((after, k)) = read_value(cs, j, depth, values) {
                if !(k <= i || k > cs.len()) {
                    if let Ok(m) = skip_ws(cs, k) {
                        if 0 <= m < cs.len() && cs[m] == ',' {
                            lemma_skip_ahead(cs, k);
                            let more = items.push((after.len() - 1) as usize);
                            lemma_items_grow(cs, m + 1, depth, after, more);
                        }
                    }
                }
            }
        }
    }
}

/// Reading the rest of an object always adds to the table.
pub proof fn lemma_members_grow(
    cs: Seq<char>,
    i: int,
    depth: nat,
    values: Seq<ValueSpec>,
    fields: Seq<(Seq<char>, usize)>,
)
    ensures
        read_members(cs, i, depth, values, fields) is Ok ==> read_members(
            cs,
            i,
            depth,
            values,
            fields,
        )->Ok_0.0.len() > values.len(),
    decreases depth, 1int, cs.len() - i,
{
    if let Ok(j) = skip_ws(cs, i) {
        if 0 <= j < cs.len() && cs[j] == '"' {
            if let Ok((name, v)) = member_head(cs, j) {
                lemma_value_grows(cs, v, depth, values);
                if let Ok((after, k)) = read_value(cs, v, depth, values) {
                    if !(k <= i || k > cs.len()) {
                        if let Ok(m) = skip_ws(cs, k) {
                            if 0 <= m < cs.len() && cs[m] == ',' {
                                lemma_skip_ahead(cs, k);
                                let more = fields.push((name, (after.len() - 1) as usize));
                                lemma_members_grow(cs, m + 1, depth, after, more);
                            }
                        }
                    }
                }
            }
        }
    }
}

/// Adding a value to the table adds its view to the table's view.
proof fn lemma_values_push(values: Seq<Value>, v: Value)
    ensures
        values_of(values.push(v)) == values_of(values).push(v@),
{
    assert(values_of(values.push(v)) =~= values_of(values).push(v@));
}

/// Read the `true`, `false` or `null` at `i`, as [`read_literal`] has it.
fn read_word(cs: &[char], i: usize, values: &mut Vec<Value>) -> (r: Result<usize, ParseError>)
    requires
        i < cs@.len(),
        cs@[i as int] == 't' || cs@[i as int] == 'f' || cs@[i as int] == 'n',
    ensures
        match r {
            Ok(k) => read_literal(cs@, i as int, values_of(old(values)@)) == Ok::<_, ParseError>(
                (values_of(final(values)@), k as int),
            ),
            Err(e) => read_literal(cs@, i as int, values_of(old(values)@)) == Err::<
                (Seq<ValueSpec>, int),
                ParseError,
            >(e),
        },
        r matches Ok(k) ==> k <= cs@.len(),
{
    let n = cs.len();
    let c = cs[i];
    let ghost before = values@;
    let (word, value): (&str, Value) = if c == 't' {
        ("true", Value::Bool(true))
    } else if c == 'f' {
        ("false", Value::Bool(false))
    } else {
        ("null", Value::Null)
    };
    let expect = chars_of(word);
    proof {
        reveal_strlit("true");
        reveal_strlit("false");
        reveal_strlit("null");
    }
    assert(c == 't' ==> expect@ =~= seq!['t', 'r', 'u', 'e']);
    assert(c == 'f' ==> expect@ =~= seq!['f', 'a', 'l', 's', 'e']);
    assert(c == 'n' ==> expect@ =~= seq!['n', 'u', 'l', 'l']);
    let len = expect.len();
    if n - i < len {
        return Err(fail(i, Problem::Unexpected));
    }
    let mut k: usize = 0;
    while k < len
        invariant
            0 <= k <= len == expect@.len(),
            i + len <= n == cs@.len(),
            forall|j: int| 0 <= j < k ==> cs@[i + j] == expect@[j],
            c == cs@[i as int],
            c == 't' || c == 'f' || c == 'n',
            c == 't' ==> expect@ == seq!['t', 'r', 'u', 'e'],
            c == 'f' ==> expect@ == seq!['f', 'a', 'l', 's', 'e'],
            c == 'n' ==> expect@ == seq!['n', 'u', 'l', 'l'],
        decreases len - k,
    {
        if cs[i + k] != expect[k] {
            assert(!spells(cs@, i as int, expect@)) by {
                assert(cs@[i + k as int] != expect@[k as int]);
            }
            return Err(fail(i, Problem::Unexpected));
        }
        k = k + 1;
    }
    values.push(value);
    proof {
        lemma_values_push(before, value);
    }
    Ok(i + len)
}

/// Read the value at `i` that is not an array or an object, as
/// [`read_value`] has it.
#[verifier::rlimit(30)]
fn read_scalar(cs: &[char], i: usize, depth: u32, values: &mut Vec<Value>) -> (r: Result<usize, ParseError>)
    requires
        i < cs@.len(),
        cs@[i as int] != '{' && cs@[i as int] != '[',
    ensures
        match r {
            Ok(k) => read_value(cs@, i as int, depth as nat, values_of(old(values)@)) == Ok::<
                _,
                ParseError,
            >((values_of(final(values)@), k as int)),
            Err(e) => read_value(cs@, i as int, depth as nat, values_of(old(values)@)) == Err::<
                (Seq<ValueSpec>, int),
                ParseError,
            >(e),
        },
        r matches Ok(k) ==> k <= cs@.len(),
{
    let n = cs.len();
    let c = cs[i];
    let ghost before = values@;
    if c == '"' {
        match read_string(cs, i + 1) {
            Err(e) => Err(e),
            Ok((text, k)) => {
                let v = Value::Str(text);
                values.push(v);
                proof {
                    lemma_values_push(before, v);
                }
                Ok(k)
            },
        }
    } else if c == 't' || c == 'f' || c == 'n' {
        read_word(cs, i, values)
    } else if c == '-' || ('0' <= c && c <= '9') {
        match number_at(cs, i) {
            None => Err(fail(i, Problem::BadNumber)),
            Some(k) => {
                let v = Value::Number(text_of(cs, i, k));
                values.push(v);
                proof {
                    lemma_values_push(before, v);
                }
                Ok(k)
            },
        }
    } else {
        Err(fail(i, Problem::Unexpected))
    }
}


/// Read the value at `i` into `values`, as [`read_value`] has it.
fn read_value_at(cs: &[char], i: usize, depth: u32, values: &mut Vec<Value>) -> (r: Result<usize, ParseError>)
    requires
        i <= cs@.len(),
    ensures
        match r {
            Ok(k) => read_value(cs@, i as int, depth as nat, values_of(old(values)@)) == Ok::<
                _,
                ParseError,
            >((values_of(final(values)@), k as int)),
            Err(e) => read_value(cs@, i as int, depth as nat, values_of(old(values)@)) == Err::<
                (Seq<ValueSpec>, int),
                ParseError,
            >(e),
        },
        r matches Ok(k) ==> k <= cs@.len(),
    decreases depth, 0int,
{
    let n = cs.len();
    if i >= n {
        return Err(fail(i, Problem::End));
    }
    let c = cs[i];
    if c == '{' || c == '[' {
        if depth == 0 {
            return Err(fail(i, Problem::TooDeep));
        }
        if c == '{' {
            read_members_at(cs, i + 1, depth - 1, values)
        } else {
            read_items_at(cs, i + 1, depth - 1, values)
        }
    } else {
        read_scalar(cs, i, depth, values)
    }
}

/// Read the rest of an array from `from`, as [`read_items`] has it.
fn read_items_at(cs: &[char], from: usize, depth: u32, values: &mut Vec<Value>) -> (r: Result<usize, ParseError>)
    requires
        from <= cs@.len(),
    ensures
        match r {
            Ok(k) => read_items(cs@, from as int, depth as nat, values_of(old(values)@), Seq::empty())
                == Ok::<_, ParseError>((values_of(final(values)@), k as int)),
            Err(e) => read_items(cs@, from as int, depth as nat, values_of(old(values)@), Seq::empty())
                == Err::<(Seq<ValueSpec>, int), ParseError>(e),
        },
        r matches Ok(k) ==> k <= cs@.len(),
    decreases depth, 1int,
{
    let n = cs.len();
    let mut items: Vec<usize> = Vec::new();
    let mut i = from;
    let ghost target = read_items(cs@, from as int, depth as nat, values_of(values@), Seq::empty());
    loop
        invariant
            n == cs@.len(),
            i <= n,
            target == read_items(cs@, from as int, depth as nat, values_of(old(values)@), Seq::empty()),
            target == read_items(cs@, i as int, depth as nat, values_of(values@), items@),
        decreases n - i,
    {
        let j = match skip_space(cs, i) {
            Err(e) => return Err(e),
            Ok(j) => j,
        };
        if j < n && cs[j] == ']' {
            let ghost before = values@;
            let v = Value::Array(items);
            values.push(v);
            proof {
                lemma_values_push(before, v);
            }
            return Ok(j + 1);
        }
        let ghost before = values_of(values@);
        let k = match read_value_at(cs, j, depth, values) {
            Err(e) => return Err(e),
            Ok(k) => k,
        };
        if k <= i || k > n {
            return Err(fail(i, Problem::Unexpected));
        }
        proof {
            lemma_value_grows(cs@, j as int, depth as nat, before);
        }
        let m = match skip_space(cs, k) {
            Err(e) => return Err(e),
            Ok(m) => m,
        };
        items.push(values.len() - 1);
        if m < n && cs[m] == ',' {
            i = m + 1;
        } else if m < n && cs[m] == ']' {
            let ghost before = values@;
            let v = Value::Array(items);
            values.push(v);
            proof {
                lemma_values_push(before, v);
            }
            return Ok(m + 1);
        } else {
            return Err(if m >= n {
                fail(m, Problem::End)
            } else {
                fail(m, Problem::Unexpected)
            });
        }
    }
}

/// The name of the field whose opening quote is at `j`, and where its value
/// starts, as [`member_head`] has them.
fn read_member_head(cs: &[char], j: usize) -> (r: Result<(String, usize), ParseError>)
    requires
        j < cs@.len(),
    ensures
        match r {
            Ok((name, v)) => member_head(cs@, j as int) == Ok::<_, ParseError>((name@, v as int)) && v
                <= cs@.len(),
            Err(e) => member_head(cs@, j as int) == Err::<(Seq<char>, int), ParseError>(e),
        },
{
    let n = cs.len();
    let (name, k1) = match read_string(cs, j + 1) {
        Err(e) => return Err(e),
        Ok(found) => found,
    };
    proof {
        lemma_string_within(cs@, j + 1, Seq::empty());
    }
    let c = match skip_space(cs, k1) {
        Err(e) => return Err(e),
        Ok(c) => c,
    };
    if c >= n {
        return Err(fail(c, Problem::End));
    }
    if cs[c] != ':' {
        return Err(fail(c, Problem::Unexpected));
    }
    let v = match skip_space(cs, c + 1) {
        Err(e) => return Err(e),
        Ok(v) => v,
    };
    Ok((name, v))
}

/// Read the rest of an object from `from`, as [`read_members`] has it.
fn read_members_at(cs: &[char], from: usize, depth: u32, values: &mut Vec<Value>) -> (r: Result<usize, ParseError>)
    requires
        from <= cs@.len(),
    ensures
        match r {
            Ok(k) => read_members(cs@, from as int, depth as nat, values_of(old(values)@), Seq::empty())
                == Ok::<_, ParseError>((values_of(final(values)@), k as int)),
            Err(e) => read_members(cs@, from as int, depth as nat, values_of(old(values)@), Seq::empty())
                == Err::<(Seq<ValueSpec>, int), ParseError>(e),
        },
        r matches Ok(k) ==> k <= cs@.len(),
    decreases depth, 1int,
{
    let n = cs.len();
    let mut fields: Vec<(String, usize)> = Vec::new();
    let mut i = from;
    let ghost target = read_members(cs@, from as int, depth as nat, values_of(values@), Seq::empty());
    assert(fields@.map_values(|f: (String, usize)| (f.0@, f.1)) =~= Seq::<(Seq<char>, usize)>::empty());
    loop
        invariant
            n == cs@.len(),
            i <= n,
            target == read_members(cs@, from as int, depth as nat, values_of(old(values)@), Seq::empty()),
            target == read_members(
                cs@,
                i as int,
                depth as nat,
                values_of(values@),
                fields@.map_values(|f: (String, usize)| (f.0@, f.1)),
            ),
        decreases n - i,
    {
        let ghost shown = fields@.map_values(|f: (String, usize)| (f.0@, f.1));
        let j = match skip_space(cs, i) {
            Err(e) => return Err(e),
            Ok(j) => j,
        };
        if j < n && cs[j] == '}' {
            let ghost before = values@;
            let v = Value::Object(fields);
            values.push(v);
            proof {
                lemma_values_push(before, v);
            }
            return Ok(j + 1);
        }
        if j >= n {
            return Err(fail(j, Problem::End));
        }
        if cs[j] != '"' {
            return Err(fail(j, Problem::Unexpected));
        }
        let (name, v0) = match read_member_head(cs, j) {
            Err(e) => return Err(e),
            Ok(found) => found,
        };
        let ghost before = values_of(values@);
        let k = match read_value_at(cs, v0, depth, values) {
            Err(e) => return Err(e),
            Ok(k) => k,
        };
        if k <= i || k > n {
            return Err(fail(i, Problem::Unexpected));
        }
        proof {
            lemma_value_grows(cs@, v0 as int, depth as nat, before);
        }
        let m = match skip_space(cs, k) {
            Err(e) => return Err(e),
            Ok(m) => m,
        };
        let ghost name_view = name@;
        fields.push((name, values.len() - 1));
        assert(fields@.map_values(|f: (String, usize)| (f.0@, f.1)) =~= shown.push(
            (name_view, (values@.len() - 1) as usize),
        ));
        if m < n && cs[m] == ',' {
            i = m + 1;
        } else if m < n && cs[m] == '}' {
            let ghost before = values@;
            let v = Value::Object(fields);
            values.push(v);
            proof {
                lemma_values_push(before, v);
            }
            return Ok(m + 1);
        } else {
            return Err(if m >= n {
                fail(m, Problem::End)
            } else {
                fail(m, Problem::Unexpected)
            });
        }
    }
}

/// The value of the field called `key` in `fields`, looking from `i` on:
/// the first one with that name.
pub open spec fn first_field(fields: Seq<(Seq<char>, usize)>, key: Seq<char>, i: int) -> Option<usize>
    decreases fields.len() - i,
{
    if i < 0 || i >= fields.len() {
        None
    } else if fields[i].0 == key {
        Some(fields[i].1)
    } else {
        first_field(fields, key, i + 1)
    }
}

/// The value of the field called `key` of the object at `node`, if that is
/// an object with such a field.
pub open spec fn field_of(values: Seq<ValueSpec>, node: int, key: Seq<char>) -> Option<usize> {
    if 0 <= node < values.len() {
        match values[node] {
            ValueSpec::Object(fields) => first_field(fields, key, 0),
            _ => None,
        }
    } else {
        None
    }
}

impl Document {
    /// The document's values, as values.
    pub open spec fn spec_values(&self) -> Seq<ValueSpec> {
        values_of(self.values@)
    }

    /// The value of the field called `key` of the object at `node`: the
    /// first field with that name, if `node` is an object that has one.
    pub fn get(&self, node: usize, key: &str) -> (r: Option<usize>)
        ensures
            r == field_of(self.spec_values(), node as int, key@),
    {
        if node >= self.values.len() {
            return None;
        }
        match &self.values[node] {
            Value::Object(fields) => {
                let ghost shown = fields@.map_values(|f: (String, usize)| (f.0@, f.1));
                assert(self.spec_values()[node as int] == ValueSpec::Object(shown));
                let mut i: usize = 0;
                while i < fields.len()
                    invariant
                        0 <= i <= fields@.len(),
                        shown == fields@.map_values(|f: (String, usize)| (f.0@, f.1)),
                        node < self.values@.len(),
                        self.spec_values()[node as int] == ValueSpec::Object(shown),
                        first_field(shown, key@, 0) == first_field(shown, key@, i as int),
                    decreases fields@.len() - i,
                {
                    assert(shown[i as int] == (fields@[i as int].0@, fields@[i as int].1));
                    if same_text(fields[i].0.as_str(), key) {
                        return Some(fields[i].1);
                    }
                    i = i + 1;
                }
                None
            },
            _ => None,
        }
    }

    /// The text of the string at `node`, if it is a string.
    pub fn text(&self, node: usize) -> (r: Option<&str>)
        ensures
            match r {
                Some(t) => node < self.values@.len() && self.spec_values()[node as int] == ValueSpec::Str(t@),
                None => !(node < self.values@.len() && self.spec_values()[node as int] is Str),
            },
    {
        if node >= self.values.len() {
            return None;
        }
        match &self.values[node] {
            Value::Str(t) => Some(t.as_str()),
            _ => None,
        }
    }

    /// The items of the array at `node`, if it is an array.
    pub fn items(&self, node: usize) -> (r: Option<&[usize]>)
        ensures
            match r {
                Some(items) => node < self.values@.len() && self.spec_values()[node as int]
                    == ValueSpec::Array(items@),
                None => !(node < self.values@.len() && self.spec_values()[node as int] is Array),
            },
    {
        if node >= self.values.len() {
            return None;
        }
        match &self.values[node] {
            Value::Array(items) => Some(items.as_slice()),
            _ => None,
        }
    }

    /// The fields of the object at `node`, if it is an object.
    pub fn fields(&self, node: usize) -> (r: Option<&[(String, usize)]>)
        ensures
            match r {
                Some(fields) => node < self.values@.len() && self.spec_values()[node as int]
                    == ValueSpec::Object(fields@.map_values(|f: (String, usize)| (f.0@, f.1))),
                None => !(node < self.values@.len() && self.spec_values()[node as int] is Object),
            },
    {
        if node >= self.values.len() {
            return None;
        }
        match &self.values[node] {
            Value::Object(fields) => Some(fields.as_slice()),
            _ => None,
        }
    }
}

/// Read a document from its text.
///
/// The whole text must be one value, with nothing but white space and
/// comments around it; what went wrong, and where, is the error otherwise.
pub fn parse(text: &str) -> (res: Result<Document, ParseError>)
    ensures
        match read_document(text@) {
            Ok((values, root)) => res is Ok && res->Ok_0.spec_values() == values && res->Ok_0.root
                == root,
            Err(e) => res == Err::<Document, ParseError>(e),
        },
{
    let chars = chars_of(text);
    let cs = chars.as_slice();
    let j = match skip_space(cs, 0) {
        Err(e) => return Err(e),
        Ok(j) => j,
    };
    let mut values: Vec<Value> = Vec::new();
    assert(values_of(values@) =~= Seq::<ValueSpec>::empty());
    let k = match read_value_at(cs, j, MAX_DEPTH, &mut values) {
        Err(e) => return Err(e),
        Ok(k) => k,
    };
    proof {
        lemma_value_grows(cs@, j as int, MAX_DEPTH as nat, Seq::empty());
    }
    let m = match skip_space(cs, k) {
        Err(e) => return Err(e),
        Ok(m) => m,
    };
    if m < cs.len() {
        return Err(fail(m, Problem::Trailing));
    }
    let root = values.len() - 1;
    Ok(Document { values, root })
}

} // verus!
