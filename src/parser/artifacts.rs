use crate::parser::scanner::{
    bracket_error, bracketed, char_at, expect_error, find_byte, hint_of, is_unexpected, lemma_find_byte, lemma_quoted_close, lemma_skip_spaces, quoted_end,
    skip_spaces, unquoted_end, Scanner, QUOTE,
};
use crate::parser::{empty, ParseError};
use vstd::prelude::*;
use vstd::string::*;

verus! {

broadcast use vstd::utf8::group_utf8_lib;

/// The severity of a record; any name that is not one of the five known ones is `Unknown`.
#[derive(Debug, PartialEq, Eq, Clone, Copy)]
pub enum LogLevel {
    Debug,
    Info,
    Warn,
    Error,
    Fatal,
    Unknown,
}

/// One `key=value` pair.
#[derive(Debug, PartialEq, Eq)]
pub struct LogFieldRef<'a> {
    pub key: LogStr<'a>,
    pub value: LogStr<'a>,
}

/// One bracketed log line: `[time] [LEVEL] [file:line] [message] [key=value]...`.
#[derive(Debug)]
pub struct LogRecordRef<'a> {
    pub level: LogLevel,
    pub time: &'a str,
    pub message: LogStr<'a>,
    pub source: Option<FileLineRef<'a>>,
    pub entries: Vec<LogFieldRef<'a>>,
}

/// A source location, split at its last colon.
#[derive(Debug)]
pub struct FileLineRef<'a> {
    pub file: &'a str,
    pub line: &'a str,
}

/// A time stamp, kept as written.
#[derive(Debug)]
pub struct TimeRef<'a> {
    pub time_str: &'a str,
}

/// A braced list of fields: `{key=value,key=value}`.
#[derive(Debug)]
pub struct ZapObject<'a> {
    pub fields: Vec<LogFieldRef<'a>>,
}

/// A token as it was written: `Quoted` keeps its delimiters, `Unquoted` had none.
#[derive(Debug, Eq, PartialEq)]
pub enum LogStr<'a> {
    Quoted(&'a str),
    Unquoted(&'a str),
}

/// A token: whether it is quoted, and its bytes (with the delimiters when quoted).
pub type StrModel = (bool, Seq<u8>);

/// A field: its key and its value.
pub type FieldModel = (StrModel, StrModel);

/// A source location: its file and its line.
pub type SourceModel = (Seq<u8>, Seq<u8>);

/// What a parsed line holds.
pub struct RecordModel {
    pub level: LogLevel,
    pub time: Seq<u8>,
    pub message: StrModel,
    pub source: Option<SourceModel>,
    pub fields: Seq<FieldModel>,
}

/// The token that spans `b[i..j]`: quoted when it starts with `"`.
pub open spec fn str_model(b: Seq<u8>, i: int, j: int) -> StrModel {
    (i < j && b[i] == QUOTE, b.subrange(i, j))
}

/// Where the token that starts at `i` ends: a quoted one at its closing `"`, an unquoted one
/// at its first stop byte; `None` at the end of input or for an unterminated quote.
pub open spec fn log_str_end(b: Seq<u8>, i: int, braced: bool) -> Option<int> {
    if i < 0 || i >= b.len() {
        None
    } else if b[i] == QUOTE {
        quoted_end(b, i)
    } else {
        Some(unquoted_end(b, i, braced))
    }
}

/// A `key=value` pair scanned from `i`: the end of the key and of the value when it scans,
/// and where the scan stopped either way.
pub open spec fn field_scan(b: Seq<u8>, i: int, braced: bool) -> (Option<(int, int)>, int) {
    match log_str_end(b, i, braced) {
        None => (None, i),
        Some(k) => if k < b.len() && b[k] == 0x3d {
            match log_str_end(b, k + 1, braced) {
                None => (None, k + 1),
                Some(v) => (Some((k, v)), v),
            }
        } else {
            (None, k)
        },
    }
}

/// The field of a scan that succeeded from `i`.
pub open spec fn field_model(b: Seq<u8>, i: int, k: int, v: int) -> FieldModel {
    (str_model(b, i, k), str_model(b, k + 1, v))
}

/// A `[key=value]` field scanned from `i`, as `field_scan` says.
pub open spec fn bracket_field_scan(b: Seq<u8>, i: int) -> (Option<(int, int)>, int) {
    if 0 <= i < b.len() && b[i] == 0x5b {
        match field_scan(b, i + 1, false) {
            (None, q) => (None, q),
            (Some((k, v)), _) => if v < b.len() && b[v] == 0x5d {
                (Some((k, v)), v + 1)
            } else {
                (None, v)
            },
        }
    } else {
        (None, i)
    }
}

/// The trailing fields of a record from `i` to the end. A field that does not scan is
/// dropped together with everything up to the next `]`; with no `]` left the line fails.
pub open spec fn fields_from(b: Seq<u8>, i: int) -> Option<Seq<FieldModel>>
    decreases b.len() - i,
    via fields_from_decreases
{
    if i < 0 || i >= b.len() {
        Some(Seq::empty())
    } else {
        match bracket_field_scan(b, i) {
            (Some((k, v)), q) => match fields_from(b, skip_spaces(b, q)) {
                Some(rest) => Some(seq![field_model(b, i + 1, k, v)] + rest),
                None => None,
            },
            (None, q) => match find_byte(b, q, 0x5d) {
                Some(e) => fields_from(b, skip_spaces(b, e + 1)),
                None => None,
            },
        }
    }
}

/// Scans move forward.
pub proof fn lemma_field_scan(b: Seq<u8>, i: int, braced: bool)
    requires
        0 <= i <= b.len(),
    ensures
        i <= field_scan(b, i, braced).1 <= b.len(),
        field_scan(b, i, braced).0 matches Some((k, v)) ==> i <= k < v && v == field_scan(
            b,
            i,
            braced,
        ).1 && b[k] == 0x3d,
{
    crate::parser::scanner::lemma_unquoted_end(b, i, braced);
    lemma_quoted_close(b, i, true);
    if let Some(k) = log_str_end(b, i, braced) {
        if k < b.len() && b[k] == 0x3d {
            crate::parser::scanner::lemma_unquoted_end(b, k + 1, braced);
            lemma_quoted_close(b, k + 1, true);
        }
    }
}

/// A bracketed field scan moves forward, and past the field when it succeeds.
pub proof fn lemma_bracket_field_scan(b: Seq<u8>, i: int)
    requires
        0 <= i <= b.len(),
    ensures
        i <= bracket_field_scan(b, i).1 <= b.len(),
        bracket_field_scan(b, i).0 matches Some((k, v)) ==> i + 1 <= k < v && v < b.len()
            && bracket_field_scan(b, i).1 == v + 1,
{
    if 0 <= i < b.len() && b[i] == 0x5b {
        lemma_field_scan(b, i + 1, false);
    }
}

/// Each step over the trailing fields moves forward.
proof fn lemma_fields_step(b: Seq<u8>, i: int)
    ensures
        0 <= i < b.len() ==> match bracket_field_scan(b, i) {
            (Some(_), q) => i < skip_spaces(b, q) <= b.len(),
            (None, q) => find_byte(b, q, 0x5d) matches Some(x) ==> i < skip_spaces(b, x + 1)
                <= b.len(),
        },
{
    if 0 <= i < b.len() {
        lemma_bracket_field_scan(b, i);
        match bracket_field_scan(b, i) {
            (Some((k, v)), q) => {
                lemma_skip_spaces(b, q);
            },
            (None, q) => {
                lemma_find_byte(b, q, 0x5d);
                if let Some(e) = find_byte(b, q, 0x5d) {
                    lemma_skip_spaces(b, e + 1);
                }
            },
        }
    }
}

/// Each step of `fields_from` moves forward.
#[via_fn]
proof fn fields_from_decreases(b: Seq<u8>, i: int) {
    lemma_fields_step(b, i);
}

/// `e` is what a token scan fails with at `i`: `Empty` at the end of input, else (an
/// unterminated quote) `Unexpected` with `"` expected and `EOF` found.
pub open spec fn log_str_error(b: Seq<u8>, i: int, e: ParseError) -> bool {
    if i >= b.len() {
        e == ParseError::Empty
    } else {
        is_unexpected(e, "\""@, "EOF"@, hint_of(b, i))
    }
}

/// The error that ends the trailing fields from `i`: the `]` that recovery needs after a
/// field that does not scan is missing.
pub open spec fn fields_error(b: Seq<u8>, i: int, e: ParseError) -> bool
    decreases b.len() - i,
    via fields_error_decreases
{
    if i < 0 || i >= b.len() {
        false
    } else {
        match bracket_field_scan(b, i) {
            (Some(_), q) => fields_error(b, skip_spaces(b, q), e),
            (None, q) => match find_byte(b, q, 0x5d) {
                Some(x) => fields_error(b, skip_spaces(b, x + 1), e),
                None => expect_error(b, q, ']', e),
            },
        }
    }
}

/// How many trailing fields from `i` are dropped.
pub open spec fn dropped_from(b: Seq<u8>, i: int) -> nat
    decreases b.len() - i,
    via dropped_from_decreases
{
    if i < 0 || i >= b.len() {
        0
    } else {
        match bracket_field_scan(b, i) {
            (Some(_), q) => dropped_from(b, skip_spaces(b, q)),
            (None, q) => match find_byte(b, q, 0x5d) {
                Some(x) => 1 + dropped_from(b, skip_spaces(b, x + 1)),
                None => 1,
            },
        }
    }
}

/// Each step of `fields_error` moves forward.
#[via_fn]
proof fn fields_error_decreases(b: Seq<u8>, i: int, e: ParseError) {
    lemma_fields_step(b, i);
}

/// Each step of `dropped_from` moves forward.
#[via_fn]
proof fn dropped_from_decreases(b: Seq<u8>, i: int) {
    lemma_fields_step(b, i);
}

/// The last index before `i` that holds `c`, if any.
pub open spec fn rfind_byte(t: Seq<u8>, i: int, c: u8) -> Option<int>
    decreases i,
{
    if i <= 0 || i > t.len() {
        None
    } else if t[i - 1] == c {
        Some(i - 1)
    } else {
        rfind_byte(t, i - 1, c)
    }
}

/// The source location that `t` names: none for `<unknown>` or for text without a colon,
/// else the text before its last colon and the text after it.
pub open spec fn source_of(t: Seq<u8>) -> Option<SourceModel> {
    if t == "<unknown>".spec_bytes() {
        None
    } else {
        match rfind_byte(t, t.len() as int, 0x3a) {
            None => None,
            Some(c) => Some((t.subrange(0, c), t.subrange(c + 1, t.len() as int))),
        }
    }
}

/// The level that `t` names exactly, else `Unknown`.
pub open spec fn level_of(t: Seq<u8>) -> LogLevel {
    if t == "FATAL".spec_bytes() {
        LogLevel::Fatal
    } else if t == "ERROR".spec_bytes() {
        LogLevel::Error
    } else if t == "WARN".spec_bytes() {
        LogLevel::Warn
    } else if t == "INFO".spec_bytes() {
        LogLevel::Info
    } else if t == "DEBUG".spec_bytes() {
        LogLevel::Debug
    } else {
        LogLevel::Unknown
    }
}

/// The record that the line `b` holds from `i` on: `[time]`, `[LEVEL]`, `[source]` and
/// `[message]`, each after optional whitespace, then the trailing fields.
pub open spec fn record_from(b: Seq<u8>, i: int) -> Option<RecordModel> {
    match bracketed(b, i) {
        None => None,
        Some(t_end) => {
            let p1 = skip_spaces(b, t_end + 1);
            match bracketed(b, p1) {
                None => None,
                Some(l_end) => {
                    let p2 = skip_spaces(b, l_end + 1);
                    match bracketed(b, p2) {
                        None => None,
                        Some(s_end) => {
                            let p3 = skip_spaces(b, s_end + 1);
                            if !(0 <= p3 < b.len() && b[p3] == 0x5b) {
                                None
                            } else {
                                match log_str_end(b, p3 + 1, false) {
                                    None => None,
                                    Some(m_end) => if !(m_end < b.len() && b[m_end] == 0x5d) {
                                        None
                                    } else {
                                        match fields_from(b, skip_spaces(b, m_end + 1)) {
                                            None => None,
                                            Some(fs) => Some(
                                                RecordModel {
                                                    level: level_of(b.subrange(p1 + 1, l_end)),
                                                    time: b.subrange(i + 1, t_end),
                                                    message: str_model(b, p3 + 1, m_end),
                                                    source: source_of(b.subrange(p2 + 1, s_end)),
                                                    fields: fs,
                                                },
                                            ),
                                        }
                                    },
                                }
                            }
                        },
                    }
                },
            }
        },
    }
}

/// The error of a line that holds no record from `i`: that of the first fixed part that does
/// not scan, else the one that ends the trailing fields.
pub open spec fn record_error(b: Seq<u8>, i: int, e: ParseError) -> bool {
    match bracketed(b, i) {
        None => bracket_error(b, i, e),
        Some(t_end) => {
            let p1 = skip_spaces(b, t_end + 1);
            match bracketed(b, p1) {
                None => bracket_error(b, p1, e),
                Some(l_end) => {
                    let p2 = skip_spaces(b, l_end + 1);
                    match bracketed(b, p2) {
                        None => bracket_error(b, p2, e),
                        Some(s_end) => {
                            let p3 = skip_spaces(b, s_end + 1);
                            if !(0 <= p3 < b.len() && b[p3] == 0x5b) {
                                expect_error(b, p3, '[', e)
                            } else {
                                match log_str_end(b, p3 + 1, false) {
                                    None => log_str_error(b, p3 + 1, e),
                                    Some(m_end) => if !(m_end < b.len() && b[m_end] == 0x5d) {
                                        expect_error(b, m_end, ']', e)
                                    } else {
                                        fields_error(b, skip_spaces(b, m_end + 1), e)
                                    },
                                }
                            }
                        },
                    }
                },
            }
        },
    }
}

/// Where the trailing fields of the record at `i` start, when its fixed parts scan.
pub open spec fn record_fields_start(b: Seq<u8>, i: int) -> Option<int> {
    match bracketed(b, i) {
        None => None,
        Some(t_end) => match bracketed(b, skip_spaces(b, t_end + 1)) {
            None => None,
            Some(l_end) => match bracketed(b, skip_spaces(b, l_end + 1)) {
                None => None,
                Some(s_end) => {
                    let p3 = skip_spaces(b, s_end + 1);
                    if !(0 <= p3 < b.len() && b[p3] == 0x5b) {
                        None
                    } else {
                        match log_str_end(b, p3 + 1, false) {
                            None => None,
                            Some(m_end) => if !(m_end < b.len() && b[m_end] == 0x5d) {
                                None
                            } else {
                                Some(skip_spaces(b, m_end + 1))
                            },
                        }
                    }
                },
            },
        },
    }
}

/// How many trailing fields of the record at `i` are dropped.
pub open spec fn record_dropped(b: Seq<u8>, i: int) -> nat {
    match record_fields_start(b, i) {
        None => 0,
        Some(f) => dropped_from(b, f),
    }
}

/// The fields of a braced object from `i` on, the `{` already read: a field, optional
/// whitespace, then `,` (and optional whitespace) before the next field, or `}` to end.
pub open spec fn zap_members(b: Seq<u8>, i: int) -> Option<Seq<FieldModel>>
    decreases b.len() - i,
    via zap_members_decreases
{
    match field_scan(b, i, true) {
        (None, _) => None,
        (Some((k, v)), _) => {
            let s = skip_spaces(b, v);
            if 0 <= s < b.len() && b[s] == 0x2c {
                match zap_members(b, skip_spaces(b, s + 1)) {
                    Some(rest) => Some(seq![field_model(b, i, k, v)] + rest),
                    None => None,
                }
            } else if 0 <= s < b.len() && b[s] == 0x7d {
                Some(seq![field_model(b, i, k, v)])
            } else {
                None
            }
        },
    }
}

/// Each step of `zap_members` moves forward.
#[via_fn]
proof fn zap_members_decreases(b: Seq<u8>, i: int) {
    if 0 <= i <= b.len() {
        lemma_field_scan(b, i, true);
        if let (Some((k, v)), _) = field_scan(b, i, true) {
            lemma_skip_spaces(b, v);
            let s = skip_spaces(b, v);
            if 0 <= s < b.len() {
                lemma_skip_spaces(b, s + 1);
            }
        }
    } else {
        assert(log_str_end(b, i, true) is None);
    }
}

/// The fields of the braced object at `i`.
pub open spec fn zap_object_from(b: Seq<u8>, i: int) -> Option<Seq<FieldModel>> {
    if 0 <= i < b.len() && b[i] == 0x7b {
        zap_members(b, skip_spaces(b, i + 1))
    } else {
        None
    }
}

/// The models of a list of fields.
pub open spec fn field_models(v: Seq<LogFieldRef>) -> Seq<FieldModel> {
    v.map_values(|f: LogFieldRef| f.model())
}

/// Whether two byte strings are equal.
pub fn bytes_equal(a: &[u8], b: &[u8]) -> (r: bool)
    ensures
        r == (a@ == b@),
{
    if a.len() != b.len() {
        return false;
    }
    let mut i: usize = 0;
    while i < a.len()
        invariant
            a@.len() == b@.len(),
            i <= a@.len(),
            forall|k: int| 0 <= k < i ==> a@[k] == b@[k],
        decreases a@.len() - i,
    {
        if a[i] != b[i] {
            return false;
        }
        i = i + 1;
    }
    assert(a@ =~= b@);
    true
}

impl<'a> LogStr<'a> {
    /// Whether the token is quoted, and its bytes.
    pub open spec fn model(&self) -> StrModel {
        match self {
            LogStr::Quoted(s) => (true, s.spec_bytes()),
            LogStr::Unquoted(s) => (false, s.spec_bytes()),
        }
    }

    /// The token that `s` is: quoted when it starts with `"`.
    pub fn from_str(s: &'a str) -> (r: Result<Self, ParseError>)
        ensures
            r matches Ok(v) && v.model() == str_model(s.spec_bytes(), 0, s.spec_bytes().len() as int),
    {
        let bytes = s.as_bytes();
        assert(s.spec_bytes().subrange(0, s.spec_bytes().len() as int) =~= s.spec_bytes());
        if bytes.len() > 0 && bytes[0] == QUOTE {
            Ok(LogStr::Quoted(s))
        } else {
            Ok(LogStr::Unquoted(s))
        }
    }

    fn scan(text: &mut Scanner<'a>, braced: bool) -> (r: Result<Self, ParseError>)
        requires
            old(text).wf(),
        ensures
            final(text).wf(),
            final(text).text() == old(text).text(),
            log_str_end(old(text).text(), old(text).pos(), braced) matches Some(e) ==> (r matches Ok(
                v,
            ) && v.model() == str_model(old(text).text(), old(text).pos(), e) && final(text).pos()
                == e),
            log_str_end(old(text).text(), old(text).pos(), braced) is None ==> (r matches Err(e)
                && log_str_error(old(text).text(), old(text).pos(), e) && final(text).pos() == old(
                text,
            ).pos()),
    {
        let ghost b = text.text();
        let ghost p = text.pos();
        proof {
            lemma_quoted_close(b, p, true);
            crate::parser::scanner::lemma_unquoted_end(b, p, braced);
        }
        let got = match text.peek_byte() {
            Some(c) => if c == QUOTE {
                text.quoted_string()
            } else if braced {
                text.unquoted_object_string()
            } else {
                text.unquoted_string()
            },
            None => Err(empty()),
        };
        match got {
            Ok(g) => {
                proof {
                    if g.spec_bytes().len() > 0 {
                        assert(g.spec_bytes()[0] == b[p]);
                    }
                }
                Self::from_str(g)
            },
            Err(e) => Err(e),
        }
    }

    /// Scans a token of a bracketed record: a quoted string, or an unquoted one up to the
    /// first character that needs quoting.
    pub fn parse_from_sequence(text: &mut Scanner<'a>) -> (r: Result<Self, ParseError>)
        requires
            old(text).wf(),
        ensures
            final(text).wf(),
            final(text).text() == old(text).text(),
            log_str_end(old(text).text(), old(text).pos(), false) matches Some(e) ==> (r matches Ok(
                v,
            ) && v.model() == str_model(old(text).text(), old(text).pos(), e) && final(text).pos()
                == e),
            log_str_end(old(text).text(), old(text).pos(), false) is None ==> (r matches Err(e)
                && log_str_error(old(text).text(), old(text).pos(), e) && final(text).pos() == old(
                text,
            ).pos()),
    {
        Self::scan(text, false)
    }

    /// Scans a token of a braced object, where `,`, `{` and `}` also end an unquoted token.
    pub fn parse_from_object_sequence(text: &mut Scanner<'a>) -> (r: Result<Self, ParseError>)
        requires
            old(text).wf(),
        ensures
            final(text).wf(),
            final(text).text() == old(text).text(),
            log_str_end(old(text).text(), old(text).pos(), true) matches Some(e) ==> (r matches Ok(
                v,
            ) && v.model() == str_model(old(text).text(), old(text).pos(), e) && final(text).pos()
                == e),
            log_str_end(old(text).text(), old(text).pos(), true) is None ==> (r matches Err(e)
                && log_str_error(old(text).text(), old(text).pos(), e) && final(text).pos() == old(
                text,
            ).pos()),
    {
        Self::scan(text, true)
    }
}

impl<'a> LogFieldRef<'a> {
    /// The key's model and the value's.
    pub open spec fn model(&self) -> FieldModel {
        (self.key.model(), self.value.model())
    }

    fn scan(text: &mut Scanner<'a>, braced: bool) -> (r: Result<Self, ParseError>)
        requires
            old(text).wf(),
        ensures
            final(text).wf(),
            final(text).text() == old(text).text(),
            final(text).pos() == field_scan(old(text).text(), old(text).pos(), braced).1,
            field_scan(old(text).text(), old(text).pos(), braced).0 matches Some((k, v)) ==> (
            r matches Ok(f) && f.model() == field_model(old(text).text(), old(text).pos(), k, v)),
            field_scan(old(text).text(), old(text).pos(), braced).0 is None ==> r is Err,
    {
        proof {
            assert('=' as u32 == 0x3d);
        }
        let key = LogStr::scan(text, braced)?;
        text.consume_exact('=')?;
        let value = LogStr::scan(text, braced)?;
        Ok(LogFieldRef { key, value })
    }

    /// Scans `key=value` with tokens of a bracketed record; no whitespace around `=`.
    pub fn parse_from_str(text: &mut Scanner<'a>) -> (r: Result<Self, ParseError>)
        requires
            old(text).wf(),
        ensures
            final(text).wf(),
            final(text).text() == old(text).text(),
            final(text).pos() == field_scan(old(text).text(), old(text).pos(), false).1,
            field_scan(old(text).text(), old(text).pos(), false).0 matches Some((k, v)) ==> (
            r matches Ok(f) && f.model() == field_model(old(text).text(), old(text).pos(), k, v)),
            field_scan(old(text).text(), old(text).pos(), false).0 is None ==> r is Err,
    {
        Self::scan(text, false)
    }

    /// Scans `key=value` with tokens of a braced object.
    pub fn parse_from_object(text: &mut Scanner<'a>) -> (r: Result<Self, ParseError>)
        requires
            old(text).wf(),
        ensures
            final(text).wf(),
            final(text).text() == old(text).text(),
            final(text).pos() == field_scan(old(text).text(), old(text).pos(), true).1,
            field_scan(old(text).text(), old(text).pos(), true).0 matches Some((k, v)) ==> (
            r matches Ok(f) && f.model() == field_model(old(text).text(), old(text).pos(), k, v)),
            field_scan(old(text).text(), old(text).pos(), true).0 is None ==> r is Err,
    {
        Self::scan(text, true)
    }

    /// Scans `[key=value]`.
    pub fn parse_from_field(text: &mut Scanner<'a>) -> (r: Result<Self, ParseError>)
        requires
            old(text).wf(),
        ensures
            final(text).wf(),
            final(text).text() == old(text).text(),
            final(text).pos() == bracket_field_scan(old(text).text(), old(text).pos()).1,
            bracket_field_scan(old(text).text(), old(text).pos()).0 matches Some((k, v)) ==> (
            r matches Ok(f) && f.model() == field_model(
                old(text).text(),
                old(text).pos() + 1,
                k,
                v,
            )),
            bracket_field_scan(old(text).text(), old(text).pos()).0 is None ==> r is Err,
    {
        proof {
            assert('[' as u32 == 0x5b);
            assert(']' as u32 == 0x5d);
        }
        text.consume_exact('[')?;
        let f = Self::parse_from_str(text)?;
        text.consume_exact(']')?;
        Ok(f)
    }
}

impl<'a> FileLineRef<'a> {
    /// The file and the line.
    pub open spec fn model(&self) -> SourceModel {
        (self.file.spec_bytes(), self.line.spec_bytes())
    }

    /// The source location that `s` names (see `source_of`).
    pub fn from_str(s: &'a str) -> (r: Option<Self>)
        ensures
            source_of(s.spec_bytes()) is None ==> r is None,
            source_of(s.spec_bytes()) matches Some(m) ==> (r matches Some(f) && f.model() == m),
    {
        let bytes = s.as_bytes();
        let ghost t = bytes@;
        if bytes_equal(bytes, "<unknown>".as_bytes()) {
            return None;
        }
        assert(t != "<unknown>".spec_bytes());
        let mut i: usize = bytes.len();
        while i > 0
            invariant
                bytes@ == t,
                t == s.spec_bytes(),
                i <= t.len(),
                t != "<unknown>".spec_bytes(),
                rfind_byte(t, t.len() as int, 0x3a) == rfind_byte(t, i as int, 0x3a),
            decreases i,
        {
            if bytes[i - 1] == 0x3a {
                proof {
                    crate::parser::scanner::lemma_ascii_boundaries(t, i - 1);
                    crate::parser::scanner::lemma_suffix_boundary(t, i - 1, i as int);
                }
                let (file, rest) = s.split_at(i - 1);
                let line = rest.split_at(1).1;
                assert(line.spec_bytes() =~= t.subrange(i as int, t.len() as int));
                assert(rfind_byte(t, i as int, 0x3a) == Some(i - 1));
                return Some(FileLineRef { file, line });
            }
            i = i - 1;
        }
        None
    }

    /// Scans `[source]`: the location it names, if any.
    pub fn parse_from_str(text: &mut Scanner<'a>) -> (r: Result<Option<Self>, ParseError>)
        requires
            old(text).wf(),
        ensures
            final(text).wf(),
            final(text).text() == old(text).text(),
            bracketed(old(text).text(), old(text).pos()) is None ==> (r matches Err(e)
                && bracket_error(old(text).text(), old(text).pos(), e)),
            bracketed(old(text).text(), old(text).pos()) matches Some(e) ==> (r matches Ok(o)
                && final(text).pos() == e + 1 && match source_of(
                old(text).text().subrange(old(text).pos() + 1, e),
            ) {
                None => o is None,
                Some(m) => (o matches Some(f) && f.model() == m),
            }),
    {
        let source = text.bracketed_text()?;
        Ok(Self::from_str(source))
    }
}

impl LogLevel {
    /// The level that `s` names exactly, else `Unknown`.
    pub fn from_str(s: &str) -> (r: LogLevel)
        ensures
            r == level_of(s.spec_bytes()),
    {
        let b = s.as_bytes();
        if bytes_equal(b, "FATAL".as_bytes()) {
            LogLevel::Fatal
        } else if bytes_equal(b, "ERROR".as_bytes()) {
            LogLevel::Error
        } else if bytes_equal(b, "WARN".as_bytes()) {
            LogLevel::Warn
        } else if bytes_equal(b, "INFO".as_bytes()) {
            LogLevel::Info
        } else if bytes_equal(b, "DEBUG".as_bytes()) {
            LogLevel::Debug
        } else {
            LogLevel::Unknown
        }
    }

    /// Scans `[LEVEL]`.
    pub fn parse_from_str<'a>(text: &mut Scanner<'a>) -> (r: Result<LogLevel, ParseError>)
        requires
            old(text).wf(),
        ensures
            final(text).wf(),
            final(text).text() == old(text).text(),
            bracketed(old(text).text(), old(text).pos()) is None ==> (r matches Err(e)
                && bracket_error(old(text).text(), old(text).pos(), e)),
            bracketed(old(text).text(), old(text).pos()) matches Some(e) ==> final(text).pos() == e
                + 1 && r == Ok::<LogLevel, ParseError>(
                level_of(old(text).text().subrange(old(text).pos() + 1, e)),
            ),
    {
        let field = text.bracketed_text()?;
        Ok(Self::from_str(field))
    }
}

impl<'a> LogRecordRef<'a> {
    /// What the record holds.
    pub open spec fn model(&self) -> RecordModel {
        RecordModel {
            level: self.level,
            time: self.time.spec_bytes(),
            message: self.message.model(),
            source: match self.source {
                None => None,
                Some(f) => Some(f.model()),
            },
            fields: field_models(self.entries@),
        }
    }

    /// Scans a whole record; a field that does not scan is dropped, and its error is added to
    /// `diagnostics`.
    pub fn parse_from_str(scanner: &mut Scanner<'a>, diagnostics: &mut Vec<ParseError>) -> (r:
        Result<Self, ParseError>)
        requires
            old(scanner).wf(),
        ensures
            final(scanner).wf(),
            final(scanner).text() == old(scanner).text(),
            record_from(old(scanner).text(), old(scanner).pos()) is None ==> (r matches Err(e)
                && record_error(old(scanner).text(), old(scanner).pos(), e)),
            record_from(old(scanner).text(), old(scanner).pos()) matches Some(m) ==> (r matches Ok(
                rec,
            ) && rec.model() == m),
            old(diagnostics)@.is_prefix_of(final(diagnostics)@),
            r is Ok ==> final(diagnostics)@.len() == old(diagnostics)@.len() + record_dropped(
                old(scanner).text(),
                old(scanner).pos(),
            ),
    {
        proof {
            assert('[' as u32 == 0x5b);
            assert(']' as u32 == 0x5d);
        }
        let time = scanner.bracketed_text()?;
        scanner.skip_space();
        let level = LogLevel::parse_from_str(scanner)?;
        scanner.skip_space();
        let source = FileLineRef::parse_from_str(scanner)?;
        scanner.skip_space();
        scanner.consume_exact('[')?;
        let message = LogStr::parse_from_sequence(scanner)?;
        scanner.consume_exact(']')?;
        scanner.skip_space();
        let entries = Self::parse_fields(scanner, diagnostics)?;
        Ok(LogRecordRef { level, time, message, source, entries })
    }

    fn parse_fields(scanner: &mut Scanner<'a>, diagnostics: &mut Vec<ParseError>) -> (r: Result<
        Vec<LogFieldRef<'a>>,
        ParseError,
    >)
        requires
            old(scanner).wf(),
        ensures
            final(scanner).wf(),
            final(scanner).text() == old(scanner).text(),
            fields_from(old(scanner).text(), old(scanner).pos()) is None ==> (r matches Err(e)
                && fields_error(old(scanner).text(), old(scanner).pos(), e)),
            fields_from(old(scanner).text(), old(scanner).pos()) matches Some(fs) ==> (r matches Ok(
                v,
            ) && field_models(v@) == fs),
            old(diagnostics)@.is_prefix_of(final(diagnostics)@),
            r is Ok ==> final(diagnostics)@.len() == old(diagnostics)@.len() + dropped_from(
                old(scanner).text(),
                old(scanner).pos(),
            ),
    {
        let ghost b = scanner.text();
        let ghost p0 = scanner.pos();
        let mut entries: Vec<LogFieldRef<'a>> = Vec::new();
        proof {
            assert(']' as u32 == 0x5d);
            assert(field_models(entries@) + Seq::<FieldModel>::empty() =~= Seq::<FieldModel>::empty());
        }
        while !scanner.is_done()
            invariant
                scanner.wf(),
                scanner.text() == b,
                b == old(scanner).text(),
                p0 == old(scanner).pos(),
                old(diagnostics)@.is_prefix_of(diagnostics@),
                diagnostics@.len() + dropped_from(b, scanner.pos()) == old(diagnostics)@.len()
                    + dropped_from(b, p0),
                forall|e: ParseError| fields_error(b, p0, e) == fields_error(b, scanner.pos(), e),
                match fields_from(b, scanner.pos()) {
                    Some(rest) => fields_from(b, p0) == Some(field_models(entries@) + rest),
                    None => fields_from(b, p0) is None,
                },
            decreases b.len() - scanner.pos(),
        {
            let ghost i = scanner.pos();
            proof {
                lemma_bracket_field_scan(b, i);
            }
            match LogFieldRef::parse_from_field(scanner) {
                Ok(f) => {
                    let ghost q = scanner.pos();
                    entries.push(f);
                    scanner.skip_space();
                    proof {
                        lemma_skip_spaces(b, q);
                        if let Some(rest) = fields_from(b, scanner.pos()) {
                            let (k, v) = bracket_field_scan(b, i).0.unwrap();
                            assert(field_models(entries@) =~= field_models(
                                entries@.drop_last(),
                            ).push(field_model(b, i + 1, k, v)));
                            assert(field_models(entries@) + rest =~= field_models(
                                entries@.drop_last(),
                            ) + (seq![field_model(b, i + 1, k, v)] + rest));
                        }
                    }
                },
                Err(e) => {
                    diagnostics.push(e);
                    let ghost q = scanner.pos();
                    let ghost before = *scanner;
                    scanner.skip_until(|c: char| -> (r: bool) ensures r == (c == ']') { c == ']' });
                    let ghost s1 = scanner.pos();
                    proof {
                        lemma_find_byte(b, q, 0x5d);
                        if let Some(x) = find_byte(b, q, 0x5d) {
                            before.lemma_ascii_char(x);
                            if x < s1 {
                                assert(char_at(b, x) == ']');
                            }
                        }
                        if s1 < b.len() {
                            before.lemma_ascii_char(s1);
                        }
                    }
                    scanner.consume_exact(']')?;
                    let ghost e1 = scanner.pos();
                    proof {
                        assert(find_byte(b, q, 0x5d) == Some(e1 - 1));
                    }
                    scanner.skip_space();
                    proof {
                        lemma_skip_spaces(b, e1);
                    }
                },
            }
        }
        proof {
            assert(field_models(entries@) + Seq::<FieldModel>::empty() =~= field_models(entries@));
        }
        Ok(entries)
    }
}

/// Parses the record on line `s`, adding the errors of dropped fields to `diagnostics`.
pub fn parse_log_record<'a>(s: &'a str, diagnostics: &mut Vec<ParseError>) -> (r: Result<
    LogRecordRef<'a>,
    ParseError,
>)
    ensures
        record_from(s.spec_bytes(), 0) is None ==> (r matches Err(e) && record_error(
            s.spec_bytes(),
            0,
            e,
        )),
        record_from(s.spec_bytes(), 0) matches Some(m) ==> (r matches Ok(rec) && rec.model() == m),
        old(diagnostics)@.is_prefix_of(final(diagnostics)@),
        r is Ok ==> final(diagnostics)@.len() == old(diagnostics)@.len() + record_dropped(
            s.spec_bytes(),
            0,
        ),
{
    let mut scanner = Scanner::over(s);
    LogRecordRef::parse_from_str(&mut scanner, diagnostics)
}

/// Parses the record on line `s` and hands it to `callback`; the record cannot outlive the line.
pub fn with_log_record<'a, T, F: FnOnce(LogRecordRef<'a>) -> T>(s: &'a str, callback: F) -> (r:
    Result<T, ParseError>)
    requires
        forall|rec: LogRecordRef<'a>| callback.requires((rec,)),
    ensures
        record_from(s.spec_bytes(), 0) is None ==> (r matches Err(e) && record_error(
            s.spec_bytes(),
            0,
            e,
        )),
        record_from(s.spec_bytes(), 0) matches Some(m) ==> (r matches Ok(t) && exists|
            rec: LogRecordRef<'a>,
        | rec.model() == m && callback.ensures((rec,), t)),
{
    let mut diagnostics: Vec<ParseError> = Vec::new();
    let rec = parse_log_record(s, &mut diagnostics)?;
    Ok(callback(rec))
}

impl<'a> ZapObject<'a> {
    /// The fields, in order.
    pub open spec fn model(&self) -> Seq<FieldModel> {
        field_models(self.fields@)
    }

    /// Scans `{key=value,key=value}`.
    pub fn parse_from_str(scanner: &mut Scanner<'a>) -> (r: Result<Self, ParseError>)
        requires
            old(scanner).wf(),
        ensures
            final(scanner).wf(),
            final(scanner).text() == old(scanner).text(),
            zap_object_from(old(scanner).text(), old(scanner).pos()) is None ==> r is Err,
            zap_object_from(old(scanner).text(), old(scanner).pos()) matches Some(fs) ==> (
            r matches Ok(z) && z.model() == fs),
    {
        let ghost b = scanner.text();
        let ghost p0 = scanner.pos();
        proof {
            assert('{' as u32 == 0x7b);
            assert('}' as u32 == 0x7d);
            assert(',' as u32 == 0x2c);
        }
        scanner.consume_exact('{')?;
        scanner.skip_space();
        let mut fields: Vec<LogFieldRef<'a>> = Vec::new();
        proof {
            assert(field_models(fields@) =~= Seq::<FieldModel>::empty());
            if let Some(rest) = zap_members(b, scanner.pos()) {
                assert(Seq::<FieldModel>::empty() + rest =~= rest);
            }
        }
        loop
            invariant
                scanner.wf(),
                scanner.text() == b,
                b == old(scanner).text(),
                p0 == old(scanner).pos(),
                match zap_members(b, scanner.pos()) {
                    Some(rest) => zap_object_from(b, p0) == Some(field_models(fields@) + rest),
                    None => zap_object_from(b, p0) is None,
                },
            decreases b.len() - scanner.pos(),
        {
            let ghost i = scanner.pos();
            proof {
                lemma_field_scan(b, i, true);
            }
            let f = LogFieldRef::parse_from_object(scanner)?;
            let ghost v = scanner.pos();
            let ghost (k, _v) = field_scan(b, i, true).0.unwrap();
            fields.push(f);
            scanner.skip_space();
            proof {
                lemma_skip_spaces(b, v);
                assert(field_models(fields@) =~= field_models(fields@.drop_last()).push(
                    field_model(b, i, k, v),
                ));
            }
            let ghost s = scanner.pos();
            let is_comma = match scanner.peek_byte() {
                Some(c) => c == 0x2c,
                None => false,
            };
            if is_comma {
                scanner.consume_exact(',')?;
                scanner.skip_space();
                proof {
                    lemma_skip_spaces(b, s + 1);
                    if let Some(rest) = zap_members(b, scanner.pos()) {
                        assert(field_models(fields@) + rest =~= field_models(fields@.drop_last())
                            + (seq![field_model(b, i, k, v)] + rest));
                    }
                }
            } else {
                scanner.consume_exact('}')?;
                proof {
                    assert(field_models(fields@) =~= field_models(fields@.drop_last()) + seq![
                        field_model(b, i, k, v),
                    ]);
                }
                return Ok(ZapObject { fields });
            }
        }
    }
}

/// Parses the braced object on line `s`.
pub fn parse_zap_object<'a>(s: &'a str) -> (r: Result<ZapObject<'a>, ParseError>)
    ensures
        zap_object_from(s.spec_bytes(), 0) is None ==> r is Err,
        zap_object_from(s.spec_bytes(), 0) matches Some(fs) ==> (r matches Ok(z) && z.model()
            == fs),
{
    let mut scanner = Scanner::over(s);
    ZapObject::parse_from_str(&mut scanner)
}

/// Parses the braced object on line `s` and hands it to `callback`; the object cannot outlive
/// the line.
pub fn with_zap_object<'a, T, F: FnOnce(ZapObject<'a>) -> T>(s: &'a str, callback: F) -> (r:
    Result<T, ParseError>)
    requires
        forall|z: ZapObject<'a>| callback.requires((z,)),
    ensures
        zap_object_from(s.spec_bytes(), 0) is None ==> r is Err,
        zap_object_from(s.spec_bytes(), 0) matches Some(fs) ==> (r matches Ok(t) && exists|
            z: ZapObject<'a>,
        | z.model() == fs && callback.ensures((z,), t)),
{
    let z = parse_zap_object(s)?;
    Ok(callback(z))
}

/// A token that starts with `"` and whose quoted string is terminated scans as a quoted token
/// holding exactly the text from the opening `"` to the closing one.
pub proof fn lemma_scan_quoted(b: Seq<u8>, braced: bool)
    requires
        b.len() > 0,
        b[0] == QUOTE,
        quoted_end(b, 0) is Some,
    ensures
        log_str_end(b, 0, braced) == quoted_end(b, 0),
        str_model(b, 0, quoted_end(b, 0).unwrap()) == (true, b.subrange(
            0,
            quoted_end(b, 0).unwrap(),
        )),
{
    lemma_quoted_close(b, 0, true);
}

/// Input that does not start with `"` and holds no stop byte scans whole as one unquoted token.
pub proof fn lemma_scan_unquoted(b: Seq<u8>, braced: bool)
    requires
        b.len() > 0,
        b[0] != QUOTE,
        forall|k: int| 0 <= k < b.len() ==> !crate::parser::scanner::stops_unquoted(b[k], braced),
    ensures
        log_str_end(b, 0, braced) == Some(b.len() as int),
        str_model(b, 0, b.len() as int) == (false, b),
{
    crate::parser::scanner::lemma_unquoted_end(b, 0, braced);
    assert(b.subrange(0, b.len() as int) =~= b);
}

/// A source text without a colon names no location.
pub proof fn lemma_source_without_colon(t: Seq<u8>)
    requires
        forall|k: int| 0 <= k < t.len() ==> t[k] != 0x3a,
    ensures
        source_of(t) is None,
{
    lemma_rfind_none(t, t.len() as int);
}

/// Without a colon, the backward search finds none.
proof fn lemma_rfind_none(t: Seq<u8>, i: int)
    requires
        forall|k: int| 0 <= k < t.len() ==> t[k] != 0x3a,
    ensures
        rfind_byte(t, i, 0x3a) is None,
    decreases i,
{
    if 0 < i <= t.len() {
        lemma_rfind_none(t, i - 1);
    }
}

/// The sentinel `<unknown>` names no location.
pub proof fn lemma_source_unknown()
    ensures
        source_of("<unknown>".spec_bytes()) is None,
{
}

} // verus!
