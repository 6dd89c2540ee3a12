use crate::parser::ParseError;
use vstd::prelude::*;
use vstd::string::*;
use vstd::utf8::*;

verus! {

broadcast use vstd::utf8::group_utf8_lib;

/// The byte `"`.
pub const QUOTE: u8 = 0x22;

/// The byte `\`.
pub const BACKSLASH: u8 = 0x5c;

/// A byte that encodes a whole character by itself.
pub open spec fn is_ascii_byte(c: u8) -> bool {
    c < 0x80
}

/// The first index at or after `i` that holds `c`, if any.
pub open spec fn find_byte(b: Seq<u8>, i: int, c: u8) -> Option<int>
    decreases b.len() - i,
{
    if i < 0 || i >= b.len() {
        None
    } else if b[i] == c {
        Some(i)
    } else {
        find_byte(b, i + 1, c)
    }
}

/// The end of a quoted string whose scan is at `i`, in the escaping state when `escaping`:
/// a byte read while escaping never ends the string, an unescaped `"` ends it
/// (the end is just past it), and an unescaped `\` escapes the next byte.
pub open spec fn quoted_close(b: Seq<u8>, i: int, escaping: bool) -> Option<int>
    decreases b.len() - i,
{
    if i < 0 || i >= b.len() {
        None
    } else if escaping {
        quoted_close(b, i + 1, false)
    } else if b[i] == QUOTE {
        Some(i + 1)
    } else if b[i] == BACKSLASH {
        quoted_close(b, i + 1, true)
    } else {
        quoted_close(b, i + 1, false)
    }
}

/// The end of the quoted string that starts at `i` (its opening `"` is read in the escaping
/// state, so it cannot close the string).
pub open spec fn quoted_end(b: Seq<u8>, i: int) -> Option<int> {
    quoted_close(b, i, true)
}

/// A byte that ends an unquoted token: control characters and space, `=`, `"`, `[`, `]`;
/// in a braced object also `,`, `{` and `}`.
pub open spec fn stops_unquoted(c: u8, braced: bool) -> bool {
    c <= 0x20 || c == 0x3d || c == QUOTE || c == 0x5b || c == 0x5d
        || (braced && (c == 0x2c || c == 0x7b || c == 0x7d))
}

/// The end of the unquoted token that starts at `i`: the first stop byte, or the end.
pub open spec fn unquoted_end(b: Seq<u8>, i: int, braced: bool) -> int
    decreases b.len() - i,
{
    if i < 0 || i >= b.len() {
        i
    } else if stops_unquoted(b[i], braced) {
        i
    } else {
        unquoted_end(b, i + 1, braced)
    }
}

/// Unicode whitespace (the `White_Space` property): tab through carriage return, space,
/// next line, no-break space, ogham space mark, the spaces from en quad to hair space, line
/// and paragraph separators, narrow no-break space, medium mathematical space and
/// ideographic space.
pub open spec fn is_white(c: char) -> bool {
    let u = c as u32;
    (0x09 <= u <= 0x0d) || u == 0x20 || u == 0x85 || u == 0xa0 || u == 0x1680 || (0x2000 <= u
        <= 0x200a) || u == 0x2028 || u == 0x2029 || u == 0x202f || u == 0x205f || u == 0x3000
}

/// Where the run of whitespace characters that starts at `i` ends.
pub open spec fn skip_spaces(b: Seq<u8>, i: int) -> int
    decreases b.len() - i,
    via skip_spaces_decreases
{
    if i < 0 || i >= b.len() {
        i
    } else if is_white(char_at(b, i)) {
        skip_spaces(b, next_char_start(b, i))
    } else {
        i
    }
}

/// The next character starts after the current one, and at most at the end.
pub proof fn lemma_next_char_moves(b: Seq<u8>, i: int)
    requires
        0 <= i < b.len(),
    ensures
        i < next_char_start(b, i) <= b.len(),
    decreases b.len() - i,
{
    if i + 1 < b.len() && is_continuation_byte(b[i + 1]) {
        lemma_next_char_moves(b, i + 1);
    }
}

/// Each step of `skip_spaces` moves forward.
#[via_fn]
proof fn skip_spaces_decreases(b: Seq<u8>, i: int) {
    if 0 <= i < b.len() {
        lemma_next_char_moves(b, i);
    }
}

/// In valid UTF-8, the index of an ASCII byte and the index just past it are character boundaries.
pub proof fn lemma_ascii_boundaries(b: Seq<u8>, i: int)
    requires
        valid_utf8(b),
        0 <= i < b.len(),
        is_ascii_byte(b[i]),
    ensures
        is_char_boundary(b, i),
        is_char_boundary(b, i + 1),
{
    is_char_boundary_iff_not_is_continuation_byte(b, i);
    is_char_boundary_start_end_of_seq(b);
    if i + 1 < b.len() {
        valid_utf8_split(b, i);
        let t = b.subrange(i, b.len() as int);
        let u = b.subrange(i + 1, b.len() as int);
        assert(valid_utf8(t));
        assert(valid_first_scalar(t));
        assert(length_of_first_scalar(t) == 1);
        assert(pop_first_scalar(t) =~= u);
        assert(valid_utf8(u));
        assert(valid_first_scalar(u));
        assert(u[0] == b[i + 1]);
        is_char_boundary_iff_not_is_continuation_byte(b, i + 1);
    }
}

/// Splitting at two boundaries `p <= q` of valid UTF-8: the suffix from `p` is valid UTF-8,
/// and `q - p` is a boundary of it.
pub proof fn lemma_suffix_boundary(b: Seq<u8>, p: int, q: int)
    requires
        valid_utf8(b),
        0 <= p <= q <= b.len(),
        is_char_boundary(b, p),
        is_char_boundary(b, q),
    ensures
        valid_utf8(b.subrange(p, b.len() as int)),
        is_char_boundary(b.subrange(p, b.len() as int), q - p),
{
    valid_utf8_split(b, p);
    let t = b.subrange(p, b.len() as int);
    is_char_boundary_start_end_of_seq(t);
    if p < q < b.len() {
        is_char_boundary_iff_not_is_continuation_byte(b, q);
        is_char_boundary_iff_not_is_continuation_byte(t, q - p);
    }
}


/// Where a character that ends at `i` starts: back over continuation bytes.
pub open spec fn prev_char_start(b: Seq<u8>, i: int) -> int
    decreases i,
{
    if i <= 1 {
        0
    } else if !is_continuation_byte(b[i - 1]) {
        i - 1
    } else {
        prev_char_start(b, i - 1)
    }
}

/// The position `n` characters before `i`, or the start.
pub open spec fn back_chars(b: Seq<u8>, i: int, n: nat) -> int
    decreases n,
{
    if n == 0 || i <= 0 {
        i
    } else {
        back_chars(b, prev_char_start(b, i), (n - 1) as nat)
    }
}

/// Where the character after the one that starts at `i` starts: forward over continuation bytes.
pub open spec fn next_char_start(b: Seq<u8>, i: int) -> int
    decreases b.len() - i,
{
    if i + 1 >= b.len() {
        b.len() as int
    } else if !is_continuation_byte(b[i + 1]) {
        i + 1
    } else {
        next_char_start(b, i + 1)
    }
}

/// The position `n` characters after `i`, or the end.
pub open spec fn fwd_chars(b: Seq<u8>, i: int, n: nat) -> int
    decreases n,
{
    if n == 0 || i >= b.len() {
        i
    } else {
        fwd_chars(b, next_char_start(b, i), (n - 1) as nat)
    }
}

/// The character at `p`, or `$` at the end.
pub open spec fn char_at(b: Seq<u8>, p: int) -> char {
    if p < b.len() {
        decode_utf8(b.subrange(p, b.len() as int))[0]
    } else {
        '$'
    }
}

/// The diagnostic window around `p`: up to five characters before it (`^` at the start),
/// then `>`, the character at `p`, `<`, and up to ten characters from `p` on.
pub open spec fn hint_of(b: Seq<u8>, p: int) -> Seq<char> {
    (if p == 0 {
        "^"@
    } else {
        decode_utf8(b.subrange(back_chars(b, p, 5), p))
    }) + ">"@ + seq![char_at(b, p)] + "<"@ + decode_utf8(b.subrange(p, fwd_chars(b, p, 10)))
}

/// `e` is an `Unexpected` error with these texts.
pub open spec fn is_unexpected(e: ParseError, expected: Seq<char>, got: Seq<char>, hint: Seq<char>) -> bool {
    e matches ParseError::Unexpected { expected: x, got: g, hint: h } && x@ == expected && g@ == got
        && h@ == hint
}

/// Stepping back one character from a position past the start lands on an earlier boundary.
pub proof fn lemma_prev_char_start(b: Seq<u8>, i: int)
    requires
        valid_utf8(b),
        0 < i <= b.len(),
    ensures
        0 <= prev_char_start(b, i) < i,
        is_char_boundary(b, prev_char_start(b, i)),
    decreases i,
{
    if i > 1 {
        if !is_continuation_byte(b[i - 1]) {
            is_char_boundary_iff_not_is_continuation_byte(b, i - 1);
        } else {
            lemma_prev_char_start(b, i - 1);
        }
    }
}

/// Stepping back characters from a boundary lands on a boundary at or before it.
pub proof fn lemma_back_chars(b: Seq<u8>, i: int, n: nat)
    requires
        valid_utf8(b),
        0 <= i <= b.len(),
        is_char_boundary(b, i),
    ensures
        0 <= back_chars(b, i, n) <= i,
        is_char_boundary(b, back_chars(b, i, n)),
    decreases n,
{
    if n != 0 && i > 0 {
        lemma_prev_char_start(b, i);
        lemma_back_chars(b, prev_char_start(b, i), (n - 1) as nat);
    }
}

/// Stepping forward one character from a position before the end lands on a later boundary.
pub proof fn lemma_next_char_start(b: Seq<u8>, i: int)
    requires
        valid_utf8(b),
        0 <= i < b.len(),
    ensures
        i < next_char_start(b, i) <= b.len(),
        is_char_boundary(b, next_char_start(b, i)),
    decreases b.len() - i,
{
    is_char_boundary_start_end_of_seq(b);
    if i + 1 < b.len() {
        if !is_continuation_byte(b[i + 1]) {
            is_char_boundary_iff_not_is_continuation_byte(b, i + 1);
        } else {
            lemma_next_char_start(b, i + 1);
        }
    }
}

/// Stepping forward characters from a boundary lands on a boundary at or after it.
pub proof fn lemma_fwd_chars(b: Seq<u8>, i: int, n: nat)
    requires
        valid_utf8(b),
        0 <= i <= b.len(),
        is_char_boundary(b, i),
    ensures
        i <= fwd_chars(b, i, n) <= b.len(),
        is_char_boundary(b, fwd_chars(b, i, n)),
    decreases n,
{
    if n != 0 && i < b.len() {
        lemma_next_char_start(b, i);
        lemma_fwd_chars(b, next_char_start(b, i), (n - 1) as nat);
    }
}

/// What `find_byte` finds: the first `c` at or after `p`.
pub proof fn lemma_find_byte(b: Seq<u8>, p: int, c: u8)
    requires
        0 <= p <= b.len(),
    ensures
        find_byte(b, p, c) matches Some(q) ==> p <= q < b.len() && b[q] == c && forall|k: int|
            p <= k < q ==> b[k] != c,
        find_byte(b, p, c) is None ==> forall|k: int| p <= k < b.len() ==> b[k] != c,
    decreases b.len() - p,
{
    if p < b.len() && b[p] != c {
        lemma_find_byte(b, p + 1, c);
    }
}

/// A run of whitespace ends at or after its start, and at most at the end.
pub proof fn lemma_skip_spaces(b: Seq<u8>, p: int)
    requires
        0 <= p <= b.len(),
    ensures
        p <= skip_spaces(b, p) <= b.len(),
    decreases b.len() - p,
{
    if p < b.len() && is_white(char_at(b, p)) {
        lemma_next_char_moves(b, p);
        lemma_skip_spaces(b, next_char_start(b, p));
    }
}

/// What `unquoted_end` stops at: the first stop byte from `p` on.
pub proof fn lemma_unquoted_end(b: Seq<u8>, p: int, braced: bool)
    requires
        0 <= p <= b.len(),
    ensures
        p <= unquoted_end(b, p, braced) <= b.len(),
        forall|k: int| p <= k < unquoted_end(b, p, braced) ==> !stops_unquoted(b[k], braced),
        unquoted_end(b, p, braced) < b.len() ==> stops_unquoted(b[unquoted_end(b, p, braced)], braced),
    decreases b.len() - p,
{
    if p < b.len() && !stops_unquoted(b[p], braced) {
        lemma_unquoted_end(b, p + 1, braced);
    }
}

/// A quoted string ends just past a `"`, beyond where its scan started.
pub proof fn lemma_quoted_close(b: Seq<u8>, i: int, escaping: bool)
    requires
        0 <= i,
    ensures
        quoted_close(b, i, escaping) matches Some(e) ==> i < e <= b.len() && b[e - 1] == QUOTE,
    decreases b.len() - i,
{
    if i < b.len() {
        if escaping || b[i] != QUOTE {
            lemma_quoted_close(b, i + 1, b[i] == BACKSLASH && !escaping);
        }
    }
}

/// Whether `c` ends an unquoted token.
pub fn char_need_quote(c: u8, braced: bool) -> (r: bool)
    ensures
        r == stops_unquoted(c, braced),
{
    c <= 0x20 || c == 0x3d || c == QUOTE || c == 0x5b || c == 0x5d || (braced && (c == 0x2c
        || c == 0x7b || c == 0x7d))
}

/// Whether `c` is whitespace, as `char::is_whitespace` defines it.
pub fn is_whitespace(c: char) -> (r: bool)
    ensures
        r == is_white(c),
{
    let u = c as u32;
    (0x09 <= u && u <= 0x0d) || u == 0x20 || u == 0x85 || u == 0xa0 || u == 0x1680 || (0x2000
        <= u && u <= 0x200a) || u == 0x2028 || u == 0x2029 || u == 0x202f || u == 0x205f || u
        == 0x3000
}

/// Relies on `char::to_string` (through `Display`): the string of that one character.
#[verifier::external_body]
fn char_to_string(c: char) -> (r: String)
    ensures
        r@ == seq![c],
{
    c.to_string()
}

/// Where the `]` that closes a `[` at `p` stands, if `p` holds a `[` and a `]` follows.
pub open spec fn bracketed(b: Seq<u8>, p: int) -> Option<int> {
    if 0 <= p < b.len() && b[p] == 0x5b {
        find_byte(b, p + 1, 0x5d)
    } else {
        None
    }
}

/// `e` is what `consume_exact(c)` fails with at `p`: `Empty` at the end, else `Unexpected`
/// with `c` expected and the character at `p` found.
pub open spec fn expect_error(b: Seq<u8>, p: int, c: char, e: ParseError) -> bool {
    if p >= b.len() {
        e == ParseError::Empty
    } else {
        is_unexpected(e, seq![c], seq![char_at(b, p)], hint_of(b, p))
    }
}

/// `e` is what `bracketed_text` fails with at `p`: as `consume_exact('[')` without a `[`,
/// `Empty` when no `]` follows it.
pub open spec fn bracket_error(b: Seq<u8>, p: int, e: ParseError) -> bool {
    if 0 <= p < b.len() && b[p] == 0x5b {
        e == ParseError::Empty
    } else {
        expect_error(b, p, '[', e)
    }
}

/// At a boundary, the character is ASCII exactly when its first byte is, and then it is that
/// byte and the next character starts right after it.
pub proof fn lemma_char_at_ascii(b: Seq<u8>, p: int)
    requires
        valid_utf8(b),
        0 <= p < b.len(),
        is_char_boundary(b, p),
    ensures
        (b[p] < 0x80) == ((char_at(b, p) as u32) < 0x80),
        b[p] < 0x80 ==> char_at(b, p) as u32 == b[p] as u32,
        b[p] < 0x80 ==> next_char_start(b, p) == p + 1,
{
    valid_utf8_split(b, p);
    let r = b.subrange(p, b.len() as int);
    let chars = decode_utf8(r);
    decode_utf8_encode_utf8(r);
    assert(chars.len() > 0);
    encode_utf8_first_scalar(chars);
    let cp = decode_first_scalar(r);
    assert(cp == chars[0] as u32);
    assert(r[0] == b[p]);
    let r0 = r[0];
    if r0 < 0x80 {
        assert((r0 & 0x7f) as u32 == r0 as u32) by (bit_vector)
            requires
                r0 < 0x80,
        ;
        lemma_ascii_boundaries(b, p);
        if p + 1 < b.len() {
            is_char_boundary_iff_not_is_continuation_byte(b, p + 1);
        }
    } else {
        assert(cp >= 0x80);
    }
}

/// No boundary lies inside a character.
pub proof fn lemma_inside_char(b: Seq<u8>, i: int)
    requires
        valid_utf8(b),
        0 <= i < b.len(),
    ensures
        forall|k: int| i < k < next_char_start(b, i) ==> !is_char_boundary(b, k),
    decreases b.len() - i,
{
    if i + 1 < b.len() && is_continuation_byte(b[i + 1]) {
        lemma_inside_char(b, i + 1);
        is_char_boundary_iff_not_is_continuation_byte(b, i + 1);
    }
}

/// A cursor over one line of text. It hands out views of the line (never copies) and
/// advances over what it hands out.
pub struct Scanner<'a> {
    target: &'a str,
    offset: usize,
}

impl<'a> Scanner<'a> {
    /// The bytes of the whole line.
    pub closed spec fn text(&self) -> Seq<u8> {
        self.target.spec_bytes()
    }

    /// How many bytes have been consumed.
    pub closed spec fn pos(&self) -> int {
        self.offset as int
    }

    /// The cursor is within the text and stands on one of its character boundaries.
    pub open spec fn wf(&self) -> bool {
        &&& self.valid()
        &&& 0 <= self.pos() <= self.text().len() <= usize::MAX
    }

    /// The cursor stands on a character boundary of valid UTF-8 text.
    pub closed spec fn valid(&self) -> bool {
        &&& self.offset <= self.target.spec_bytes().len() <= usize::MAX
        &&& valid_utf8(self.target.spec_bytes())
        &&& is_char_boundary(self.target.spec_bytes(), self.offset as int)
    }

    /// A cursor at the start of `s`.
    pub fn over(s: &'a str) -> (r: Self)
        ensures
            r.wf(),
            r.text() == s.spec_bytes(),
            r.pos() == 0,
    {
        let n = s.as_bytes().len();
        assert(n == s.spec_bytes().len());
        Scanner { target: s, offset: 0 }
    }

    /// Whether everything has been consumed.
    pub fn is_done(&self) -> (r: bool)
        requires
            self.wf(),
        ensures
            r == (self.pos() == self.text().len()),
    {
        self.offset >= self.target.as_bytes().len()
    }

    /// What is left to consume.
    pub fn remain(&self) -> (r: &'a str)
        requires
            self.wf(),
        ensures
            r.spec_bytes() == self.text().subrange(self.pos(), self.text().len() as int),
    {
        self.target.split_at(self.offset).1
    }


    /// Consumes up to byte `end`, a boundary at or after the cursor.
    fn take(&mut self, end: usize) -> (r: &'a str)
        requires
            old(self).wf(),
            old(self).pos() <= end <= old(self).text().len(),
            is_char_boundary(old(self).text(), end as int),
        ensures
            final(self).wf(),
            final(self).text() == old(self).text(),
            final(self).pos() == end,
            r.spec_bytes() == old(self).text().subrange(old(self).pos(), end as int),
    {
        let ghost b = self.target.spec_bytes();
        proof {
            lemma_suffix_boundary(b, self.offset as int, end as int);
        }
        let rest = self.target.split_at(self.offset).1;
        let taken = rest.split_at(end - self.offset).0;
        assert(taken.spec_bytes() =~= b.subrange(self.offset as int, end as int));
        self.offset = end;
        taken
    }

    /// The next character, without advancing; `None` at the end.
    pub fn peek_char(&self) -> (r: Option<char>)
        requires
            self.wf(),
        ensures
            self.pos() < self.text().len() ==> r == Some(char_at(self.text(), self.pos())),
            self.pos() == self.text().len() ==> r is None,
    {
        let rest = self.remain();
        if rest.as_bytes().len() == 0 {
            None
        } else {
            proof {
                let b = self.text();
                valid_utf8_split(b, self.pos());
                assert(rest@ == decode_utf8(rest.spec_bytes()));
                if rest@.len() == 0 {
                    assert(encode_utf8(rest@) =~= Seq::<u8>::empty());
                }
            }
            Some(rest.get_char(0))
        }
    }

    /// The next character, or `$` at the end.
    pub fn current_char(&self) -> (r: char)
        requires
            self.wf(),
        ensures
            r == char_at(self.text(), self.pos()),
    {
        match self.peek_char() {
            Some(c) => c,
            None => '$',
        }
    }

    /// Up to five characters before the cursor, or `^` at the start.
    pub fn context_before(&self) -> (r: &'a str)
        requires
            self.wf(),
        ensures
            self.pos() == 0 ==> r@ == "^"@,
            self.pos() > 0 ==> r.spec_bytes() == self.text().subrange(
                back_chars(self.text(), self.pos(), 5),
                self.pos(),
            ),
    {
        if self.offset == 0 {
            return "^";
        }
        let bytes = self.target.as_bytes();
        let ghost b = bytes@;
        let mut start: usize = self.offset;
        let mut n: usize = 0;
        while n < 5 && start > 0
            invariant
                b == self.text(),
                bytes@ == b,
                self.wf(),
                n <= 5,
                start <= self.offset,
                is_char_boundary(b, start as int),
                back_chars(b, self.pos(), 5) == back_chars(b, start as int, (5 - n) as nat),
            decreases 5 - n,
        {
            proof {
                lemma_prev_char_start(b, start as int);
            }
            let mut j: usize = start - 1;
            while j > 0 && bytes[j] >= 0x80 && bytes[j] <= 0xbf
                invariant
                    bytes@ == b,
                    0 <= j < start <= b.len(),
                    prev_char_start(b, start as int) == prev_char_start(b, j as int + 1),
                decreases j,
            {
                j = j - 1;
            }
            start = j;
            n = n + 1;
        }
        proof {
            lemma_back_chars(b, start as int, (5 - n) as nat);
        }
        self.take_range(start, self.offset)
    }

    /// Up to ten characters from the cursor on.
    pub fn context_after(&self) -> (r: &'a str)
        requires
            self.wf(),
        ensures
            r.spec_bytes() == self.text().subrange(
                self.pos(),
                fwd_chars(self.text(), self.pos(), 10),
            ),
    {
        let bytes = self.target.as_bytes();
        let ghost b = bytes@;
        let mut end: usize = self.offset;
        let mut n: usize = 0;
        while n < 10 && end < bytes.len()
            invariant
                b == self.text(),
                bytes@ == b,
                self.wf(),
                n <= 10,
                self.offset <= end <= b.len(),
                is_char_boundary(b, end as int),
                fwd_chars(b, self.pos(), 10) == fwd_chars(b, end as int, (10 - n) as nat),
            decreases 10 - n,
        {
            proof {
                lemma_next_char_start(b, end as int);
            }
            let mut j: usize = end + 1;
            while j < bytes.len() && bytes[j] >= 0x80 && bytes[j] <= 0xbf
                invariant
                    bytes@ == b,
                    end < j <= b.len(),
                    next_char_start(b, end as int) == next_char_start(b, j as int - 1),
                decreases b.len() - j,
            {
                j = j + 1;
            }
            end = j;
            n = n + 1;
        }
        proof {
            lemma_fwd_chars(b, end as int, (10 - n) as nat);
        }
        self.take_range(self.offset, end)
    }

    /// The text between two boundaries.
    fn take_range(&self, start: usize, end: usize) -> (r: &'a str)
        requires
            self.wf(),
            start <= end <= self.text().len(),
            is_char_boundary(self.text(), start as int),
            is_char_boundary(self.text(), end as int),
        ensures
            r.spec_bytes() == self.text().subrange(start as int, end as int),
    {
        let ghost b = self.target.spec_bytes();
        proof {
            lemma_suffix_boundary(b, start as int, end as int);
        }
        let rest = self.target.split_at(start).1;
        let r = rest.split_at(end - start).0;
        assert(r.spec_bytes() =~= b.subrange(start as int, end as int));
        r
    }

    /// An `Unexpected` error at the cursor, with its diagnostic window.
    pub fn unexpected(&self, expected: &str, got: &str) -> (r: ParseError)
        requires
            self.wf(),
        ensures
            is_unexpected(r, expected@, got@, hint_of(self.text(), self.pos())),
    {
        let before = self.context_before();
        let mut hint = String::from_str(before);
        hint.append(">");
        let cur = char_to_string(self.current_char());
        hint.append(cur.as_str());
        hint.append("<");
        hint.append(self.context_after());
        ParseError::Unexpected {
            expected: String::from_str(expected),
            got: String::from_str(got),
            hint,
        }
    }

    /// Consumes characters up to the first one that needs quoting (see `char_need_quote`)
    /// or the end, and returns them; possibly empty.
    pub fn unquoted_string(&mut self) -> (r: Result<&'a str, ParseError>)
        requires
            old(self).wf(),
        ensures
            final(self).wf(),
            final(self).text() == old(self).text(),
            final(self).pos() == unquoted_end(old(self).text(), old(self).pos(), false),
            r matches Ok(s) && s.spec_bytes() == old(self).text().subrange(
                old(self).pos(),
                final(self).pos(),
            ),
    {
        Ok(self.scan_unquoted(false))
    }

    /// As `unquoted_string`, where `,`, `{` and `}` also end the token.
    pub fn unquoted_object_string(&mut self) -> (r: Result<&'a str, ParseError>)
        requires
            old(self).wf(),
        ensures
            final(self).wf(),
            final(self).text() == old(self).text(),
            final(self).pos() == unquoted_end(old(self).text(), old(self).pos(), true),
            r matches Ok(s) && s.spec_bytes() == old(self).text().subrange(
                old(self).pos(),
                final(self).pos(),
            ),
    {
        Ok(self.scan_unquoted(true))
    }

    fn scan_unquoted(&mut self, braced: bool) -> (r: &'a str)
        requires
            old(self).wf(),
        ensures
            final(self).wf(),
            final(self).text() == old(self).text(),
            final(self).pos() == unquoted_end(old(self).text(), old(self).pos(), braced),
            r.spec_bytes() == old(self).text().subrange(old(self).pos(), final(self).pos()),
    {
        let bytes = self.target.as_bytes();
        let ghost b = bytes@;
        let mut i: usize = self.offset;
        while i < bytes.len() && !char_need_quote(bytes[i], braced)
            invariant
                bytes@ == b,
                b == self.text(),
                self.wf(),
                self.offset <= i <= b.len(),
                unquoted_end(b, self.pos(), braced) == unquoted_end(b, i as int, braced),
            decreases b.len() - i,
        {
            i = i + 1;
        }
        proof {
            if i < b.len() {
                lemma_ascii_boundaries(b, i as int);
            } else {
                is_char_boundary_start_end_of_seq(b);
            }
        }
        self.take(i)
    }

    /// Consumes a quoted string whose opening `"` is at the cursor, up to and including the
    /// first `"` that no `\` escapes, and returns it with both delimiters.
    pub fn quoted_string(&mut self) -> (r: Result<&'a str, ParseError>)
        requires
            old(self).wf(),
            old(self).pos() < old(self).text().len(),
            old(self).text()[old(self).pos()] == QUOTE,
        ensures
            final(self).wf(),
            final(self).text() == old(self).text(),
            quoted_end(old(self).text(), old(self).pos()) matches Some(e) ==> (r matches Ok(s)
                && s.spec_bytes() == old(self).text().subrange(old(self).pos(), e)
                && final(self).pos() == e),
            quoted_end(old(self).text(), old(self).pos()) is None ==> (r matches Err(err)
                && is_unexpected(err, "\""@, "EOF"@, hint_of(old(self).text(), old(self).pos()))
                && final(self).pos() == old(self).pos()),
    {
        let bytes = self.target.as_bytes();
        let ghost b = bytes@;
        let mut i: usize = self.offset;
        let mut escaping = true;
        while i < bytes.len()
            invariant
                bytes@ == b,
                b == self.text(),
                self.wf(),
                self.offset <= i <= b.len(),
                quoted_end(b, self.pos()) == quoted_close(b, i as int, escaping),
                *self == *old(self),
            decreases b.len() - i,
        {
            if escaping {
                escaping = false;
            } else if bytes[i] == QUOTE {
                proof {
                    lemma_ascii_boundaries(b, i as int);
                }
                return Ok(self.take(i + 1));
            } else if bytes[i] == BACKSLASH {
                escaping = true;
            }
            i = i + 1;
        }
        Err(self.unexpected("\"", "EOF"))
    }

    /// Consumes everything up to (not including) the next `]`; fails with `Empty` if there is none.
    pub fn till_next_bracket(&mut self) -> (r: Result<&'a str, ParseError>)
        requires
            old(self).wf(),
        ensures
            final(self).wf(),
            final(self).text() == old(self).text(),
            find_byte(old(self).text(), old(self).pos(), 0x5d) matches Some(e) ==> (r matches Ok(s)
                && s.spec_bytes() == old(self).text().subrange(old(self).pos(), e)
                && final(self).pos() == e),
            find_byte(old(self).text(), old(self).pos(), 0x5d) is None ==> r == Err::<
                &'a str,
                ParseError,
            >(ParseError::Empty) && final(self).pos() == old(self).pos(),
    {
        let bytes = self.target.as_bytes();
        let ghost b = bytes@;
        let mut i: usize = self.offset;
        while i < bytes.len()
            invariant
                bytes@ == b,
                b == self.text(),
                self.wf(),
                self.offset <= i <= b.len(),
                find_byte(b, self.pos(), 0x5d) == find_byte(b, i as int, 0x5d),
                *self == *old(self),
            decreases b.len() - i,
        {
            if bytes[i] == 0x5d {
                proof {
                    lemma_ascii_boundaries(b, i as int);
                }
                return Ok(self.take(i));
            }
            i = i + 1;
        }
        Err(ParseError::Empty)
    }

    /// Checks that the next character is `expected`, without advancing.
    pub fn assert_current_is(&self, expected: char) -> (r: Result<(), ParseError>)
        requires
            self.wf(),
        ensures
            self.pos() == self.text().len() ==> r == Err::<(), ParseError>(ParseError::Empty),
            self.pos() < self.text().len() && char_at(self.text(), self.pos()) == expected ==> r is Ok,
            self.pos() < self.text().len() && char_at(self.text(), self.pos()) != expected ==> (
            r matches Err(err) && expect_error(self.text(), self.pos(), expected, err)),
            self.pos() < self.text().len() && (expected as u32) < 0x80 ==> (r is Ok <==> self.text()[
                self.pos()] as u32 == expected as u32),
    {
        proof {
            if self.pos() < self.text().len() {
                lemma_char_at_ascii(self.text(), self.pos());
            }
        }
        if self.offset >= self.target.as_bytes().len() {
            return Err(ParseError::Empty);
        }
        let cur = self.current_char();
        if cur == expected {
            Ok(())
        } else {
            let e = char_to_string(expected);
            let g = char_to_string(cur);
            Err(self.unexpected(e.as_str(), g.as_str()))
        }
    }

    /// Where the character that starts at boundary `i` ends.
    fn next_start_at(&self, i: usize) -> (r: usize)
        requires
            self.wf(),
            i < self.text().len(),
        ensures
            r == next_char_start(self.text(), i as int),
            i < r <= self.text().len(),
    {
        let bytes = self.target.as_bytes();
        let ghost b = bytes@;
        proof {
            lemma_next_char_moves(b, i as int);
        }
        let mut j: usize = i + 1;
        while j < bytes.len() && bytes[j] >= 0x80 && bytes[j] <= 0xbf
            invariant
                bytes@ == b,
                b == self.text(),
                i < j <= b.len(),
                next_char_start(b, i as int) == next_char_start(b, j as int - 1),
            decreases b.len() - j,
        {
            j = j + 1;
        }
        j
    }

    /// The character that starts at boundary `i`.
    fn char_at_offset(&self, i: usize) -> (r: char)
        requires
            self.wf(),
            i < self.text().len(),
            is_char_boundary(self.text(), i as int),
        ensures
            r == char_at(self.text(), i as int),
    {
        let rest = self.take_range(i, self.target.as_bytes().len());
        proof {
            let b = self.text();
            is_char_boundary_start_end_of_seq(b);
            valid_utf8_split(b, i as int);
            assert(rest@ == decode_utf8(rest.spec_bytes()));
            if rest@.len() == 0 {
                assert(encode_utf8(rest@) =~= Seq::<u8>::empty());
            }
        }
        rest.get_char(0)
    }

    /// Consumes the character `expected`, or fails as `assert_current_is` does.
    pub fn consume_exact(&mut self, expected: char) -> (r: Result<(), ParseError>)
        requires
            old(self).wf(),
        ensures
            final(self).wf(),
            final(self).text() == old(self).text(),
            old(self).pos() == old(self).text().len() ==> r == Err::<(), ParseError>(
                ParseError::Empty,
            ) && final(self).pos() == old(self).pos(),
            old(self).pos() < old(self).text().len() && char_at(old(self).text(), old(self).pos())
                == expected ==> r is Ok && final(self).pos() == next_char_start(
                old(self).text(),
                old(self).pos(),
            ),
            old(self).pos() < old(self).text().len() && char_at(old(self).text(), old(self).pos())
                != expected ==> (r matches Err(err) && expect_error(
                old(self).text(),
                old(self).pos(),
                expected,
                err,
            ) && final(self).pos() == old(self).pos()),
            old(self).pos() < old(self).text().len() && (expected as u32) < 0x80 ==> ((r is Ok
                <==> old(self).text()[old(self).pos()] as u32 == expected as u32) && (r is Ok
                ==> final(self).pos() == old(self).pos() + 1)),
    {
        proof {
            if self.pos() < self.text().len() {
                lemma_char_at_ascii(self.text(), self.pos());
            }
        }
        match self.assert_current_is(expected) {
            Ok(()) => {
                let end = self.next_start_at(self.offset);
                proof {
                    lemma_next_char_start(self.text(), self.pos());
                }
                self.take(end);
                Ok(())
            },
            Err(e) => Err(e),
        }
    }

    /// Advances to the first character on which `f` holds. Where there is none, the cursor
    /// stays where it was.
    pub fn skip_until<F: Fn(char) -> bool>(&mut self, f: F)
        requires
            old(self).wf(),
            forall|c: char| f.requires((c,)),
        ensures
            final(self).wf(),
            final(self).text() == old(self).text(),
            ({
                let b = old(self).text();
                let p = old(self).pos();
                let q = final(self).pos();
                ||| (p <= q < b.len() && f.ensures((char_at(b, q),), true) && forall|k: int|
                    p <= k < q && is_char_boundary(b, k) ==> f.ensures((char_at(b, k),), false))
                ||| (q == p && forall|k: int|
                    p <= k < b.len() && is_char_boundary(b, k) ==> f.ensures(
                        (char_at(b, k),),
                        false,
                    ))
            }),
    {
        let ghost b = self.text();
        let len = self.target.as_bytes().len();
        let mut i: usize = self.offset;
        while i < len
            invariant
                self.wf(),
                b == self.text(),
                len == b.len(),
                self.offset <= i <= len,
                is_char_boundary(b, i as int),
                forall|c: char| f.requires((c,)),
                forall|k: int|
                    self.pos() <= k < i && is_char_boundary(b, k) ==> f.ensures(
                        (char_at(b, k),),
                        false,
                    ),
                *self == *old(self),
            decreases len - i,
        {
            if f(self.char_at_offset(i)) {
                self.take(i);
                return;
            }
            proof {
                lemma_next_char_start(b, i as int);
                lemma_inside_char(b, i as int);
            }
            i = self.next_start_at(i);
        }
    }

    /// Advances over the run of characters on which `f` holds, up to the first on which it
    /// fails, or to the end.
    pub fn skip_while<F: Fn(char) -> bool>(&mut self, f: F)
        requires
            old(self).wf(),
            forall|c: char| f.requires((c,)),
        ensures
            final(self).wf(),
            final(self).text() == old(self).text(),
            old(self).pos() <= final(self).pos() <= old(self).text().len(),
            forall|k: int|
                old(self).pos() <= k < final(self).pos() && is_char_boundary(old(self).text(), k)
                    ==> f.ensures((char_at(old(self).text(), k),), true),
            final(self).pos() < old(self).text().len() ==> f.ensures(
                (char_at(old(self).text(), final(self).pos()),),
                false,
            ),
    {
        let ghost b = self.text();
        let len = self.target.as_bytes().len();
        let mut i: usize = self.offset;
        while i < len && f(self.char_at_offset(i))
            invariant
                self.wf(),
                b == self.text(),
                len == b.len(),
                self.offset <= i <= len,
                is_char_boundary(b, i as int),
                forall|c: char| f.requires((c,)),
                forall|k: int|
                    self.pos() <= k < i && is_char_boundary(b, k) ==> f.ensures(
                        (char_at(b, k),),
                        true,
                    ),
            decreases len - i,
        {
            proof {
                lemma_next_char_start(b, i as int);
                lemma_inside_char(b, i as int);
            }
            i = self.next_start_at(i);
        }
        self.take(i);
    }

    /// At a boundary `k`, the character is ASCII exactly when its byte is, and then it is that
    /// byte; an ASCII byte always stands at a boundary.
    pub proof fn lemma_ascii_char(&self, k: int)
        requires
            self.wf(),
            0 <= k < self.text().len(),
        ensures
            self.text()[k] < 0x80 ==> is_char_boundary(self.text(), k),
            is_char_boundary(self.text(), k) ==> ((self.text()[k] < 0x80) == ((char_at(
                self.text(),
                k,
            ) as u32) < 0x80)),
            is_char_boundary(self.text(), k) && self.text()[k] < 0x80 ==> char_at(self.text(), k)
                as u32 == self.text()[k] as u32,
    {
        let b = self.text();
        if b[k] < 0x80 {
            lemma_ascii_boundaries(b, k);
        }
        if is_char_boundary(b, k) {
            lemma_char_at_ascii(b, k);
        }
    }

    /// Advances over a run of whitespace characters.
    pub fn skip_space(&mut self)
        requires
            old(self).wf(),
        ensures
            final(self).wf(),
            final(self).text() == old(self).text(),
            final(self).pos() == skip_spaces(old(self).text(), old(self).pos()),
    {
        let ghost b = self.text();
        let len = self.target.as_bytes().len();
        let mut i: usize = self.offset;
        while i < len && is_whitespace(self.char_at_offset(i))
            invariant
                self.wf(),
                b == self.text(),
                len == b.len(),
                self.offset <= i <= len,
                is_char_boundary(b, i as int),
                skip_spaces(b, self.pos()) == skip_spaces(b, i as int),
            decreases len - i,
        {
            proof {
                lemma_next_char_start(b, i as int);
            }
            i = self.next_start_at(i);
        }
        self.take(i);
    }

    /// Consumes `[`, the text up to the next `]`, and that `]`; returns the text between them.
    pub fn bracketed_text(&mut self) -> (r: Result<&'a str, ParseError>)
        requires
            old(self).wf(),
        ensures
            final(self).wf(),
            final(self).text() == old(self).text(),
            bracketed(old(self).text(), old(self).pos()) matches Some(e) ==> (r matches Ok(s)
                && s.spec_bytes() == old(self).text().subrange(old(self).pos() + 1, e)
                && final(self).pos() == e + 1),
            bracketed(old(self).text(), old(self).pos()) is None ==> (r matches Err(e)
                && bracket_error(old(self).text(), old(self).pos(), e)),
    {
        proof {
            assert('[' as u32 == 0x5b);
        }
        self.consume_exact('[')?;
        let ghost p1 = self.pos();
        let text = self.till_next_bracket()?;
        proof {
            lemma_find_byte(self.text(), p1, 0x5d);
            assert(']' as u32 == 0x5d);
        }
        self.consume_exact(']')?;
        Ok(text)
    }


    /// Consumes `[`, runs `inner`, then consumes `]`.
    pub fn in_bracket<T, F: FnOnce(&mut Scanner<'a>) -> Result<T, ParseError>>(&mut self, inner: F) -> (r: Result<T, ParseError>)
        requires
            old(self).wf(),
            forall|s: &mut Scanner<'a>| s.wf() ==> inner.requires((s,)),
            forall|s: &mut Scanner<'a>, r: Result<T, ParseError>|
                inner.ensures((s,), r) ==> final(s).wf() && final(s).text() == s.text()
                    && final(s).pos() >= s.pos(),
        ensures
            final(self).wf(),
            final(self).text() == old(self).text(),
            old(self).pos() == old(self).text().len() ==> r == Err::<T, ParseError>(
                ParseError::Empty,
            ) && final(self).pos() == old(self).pos(),
            old(self).pos() < old(self).text().len() && old(self).text()[old(self).pos()] != 0x5b
                ==> (r matches Err(e) && expect_error(old(self).text(), old(self).pos(), '[', e)
                && final(self).pos() == old(self).pos()),
            old(self).pos() < old(self).text().len() && old(self).text()[old(self).pos()] == 0x5b
                ==> exists|s: &mut Scanner<'a>, ri: Result<T, ParseError>|
                s.text() == old(self).text() && s.pos() == old(self).pos() + 1 && inner.ensures(
                    (s,),
                    ri,
                ) && match ri {
                    Err(e) => r == Err::<T, ParseError>(e) && final(self).pos() == final(s).pos(),
                    Ok(v) => if final(s).pos() < old(self).text().len()
                        && old(self).text()[final(s).pos()] == 0x5d {
                        r == Ok::<T, ParseError>(v) && final(self).pos() == final(s).pos() + 1
                    } else {
                        r matches Err(e) && expect_error(old(self).text(), final(s).pos(), ']', e)
                            && final(self).pos() == final(s).pos()
                    },
                },
    {
        proof {
            assert('[' as u32 == 0x5b);
            assert(']' as u32 == 0x5d);
        }
        self.consume_exact('[')?;
        let result = inner(self)?;
        self.consume_exact(']')?;
        Ok(result)
    }

    /// Consumes and returns the next `n` bytes; fails with `Empty` if fewer are left.
    pub fn consume(&mut self, n: usize) -> (r: Result<&'a str, ParseError>)
        requires
            old(self).wf(),
            old(self).pos() + n <= old(self).text().len() ==> is_char_boundary(
                old(self).text(),
                old(self).pos() + n,
            ),
        ensures
            final(self).wf(),
            final(self).text() == old(self).text(),
            old(self).pos() + n > old(self).text().len() ==> r == Err::<&'a str, ParseError>(
                ParseError::Empty,
            ) && final(self).pos() == old(self).pos(),
            old(self).pos() + n <= old(self).text().len() ==> (r matches Ok(s) && s.spec_bytes()
                == old(self).text().subrange(old(self).pos(), old(self).pos() + n)
                && final(self).pos() == old(self).pos() + n),
    {
        let len = self.target.as_bytes().len();
        if n > len - self.offset {
            return Err(ParseError::Empty);
        }
        let ghost b = self.target.spec_bytes();
        proof {
            lemma_suffix_boundary(b, self.offset as int, self.offset + n);
        }
        let rest = self.target.split_at(self.offset).1;
        let consumed = rest.split_at(n).0;
        assert(consumed.spec_bytes() =~= b.subrange(self.offset as int, self.offset + n));
        self.offset = self.offset + n;
        Ok(consumed)
    }

    /// Consumes and returns everything that is left.
    pub fn drain(&mut self) -> (r: Result<&'a str, ParseError>)
        requires
            old(self).wf(),
        ensures
            final(self).wf(),
            final(self).text() == old(self).text(),
            final(self).pos() == old(self).text().len(),
            r matches Ok(s) && s.spec_bytes() == old(self).text().subrange(
                old(self).pos(),
                old(self).text().len() as int,
            ),
    {
        proof {
            is_char_boundary_start_end_of_seq(self.target.spec_bytes());
        }
        self.consume(self.target.as_bytes().len() - self.offset)
    }

    /// The next byte, without advancing.
    pub fn peek_byte(&self) -> (r: Option<u8>)
        requires
            self.wf(),
        ensures
            self.pos() < self.text().len() ==> r == Some(self.text()[self.pos()]),
            self.pos() == self.text().len() ==> r is None,
    {
        let bytes = self.target.as_bytes();
        if self.offset < bytes.len() {
            Some(bytes[self.offset])
        } else {
            None
        }
    }
}

} // verus!
