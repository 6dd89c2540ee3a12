use crate::parser::artifacts::{
    FieldModel, FileLineRef, LogFieldRef, LogLevel, LogRecordRef, LogStr, RecordModel,
    SourceModel, StrModel, TimeRef, ZapObject,
};
use crate::parser::artifacts::{field_models, log_str_end, str_model};
use crate::parser::scanner::{lemma_quoted_close, BACKSLASH, QUOTE};
use vstd::prelude::*;
use vstd::string::*;

verus! {

/// A lowercase hexadecimal digit.
pub open spec fn hex_digit(n: u8) -> u8 {
    if n < 10 {
        (0x30 + n) as u8
    } else {
        (0x61 + n - 10) as u8
    }
}

/// How one byte stands inside a JSON string: `"` and `\` are escaped, control characters get
/// their short escape or `\u00XX`, every other byte stands as it is.
pub open spec fn escape_byte(c: u8) -> Seq<u8> {
    if c == QUOTE {
        seq![BACKSLASH, QUOTE]
    } else if c == BACKSLASH {
        seq![BACKSLASH, BACKSLASH]
    } else if c == 0x0a {
        seq![BACKSLASH, 0x6e]
    } else if c == 0x0d {
        seq![BACKSLASH, 0x72]
    } else if c == 0x09 {
        seq![BACKSLASH, 0x74]
    } else if c == 0x08 {
        seq![BACKSLASH, 0x62]
    } else if c == 0x0c {
        seq![BACKSLASH, 0x66]
    } else if c < 0x20 {
        seq![BACKSLASH, 0x75, 0x30, 0x30, hex_digit(c / 16), hex_digit(c % 16)]
    } else {
        seq![c]
    }
}

/// The bytes of `s`, each escaped.
pub open spec fn json_escape(s: Seq<u8>) -> Seq<u8>
    decreases s.len(),
{
    if s.len() == 0 {
        Seq::empty()
    } else {
        json_escape(s.drop_last()) + escape_byte(s.last())
    }
}

/// `s` as a JSON string literal.
pub open spec fn json_string(s: Seq<u8>) -> Seq<u8> {
    seq![QUOTE] + json_escape(s) + seq![QUOTE]
}

/// A token: a quoted one as it was written, an unquoted one between a pair of `"`, unescaped.
pub open spec fn json_log_str(m: StrModel) -> Seq<u8> {
    if m.0 {
        m.1
    } else {
        seq![QUOTE] + m.1 + seq![QUOTE]
    }
}

/// Object members, separated by commas.
pub open spec fn join_members(ms: Seq<Seq<u8>>) -> Seq<u8>
    decreases ms.len(),
{
    if ms.len() == 0 {
        Seq::empty()
    } else if ms.len() == 1 {
        ms[0]
    } else {
        join_members(ms.drop_last()) + seq![0x2c] + ms.last()
    }
}

/// A JSON object with these members.
pub open spec fn json_object(ms: Seq<Seq<u8>>) -> Seq<u8> {
    seq![0x7b] + join_members(ms) + seq![0x7d]
}

/// One member: a rendered key, `:`, a rendered value.
pub open spec fn member(key: Seq<u8>, value: Seq<u8>) -> Seq<u8> {
    key + seq![0x3a] + value
}

/// The name a level is written with.
pub open spec fn level_name(l: LogLevel) -> Seq<u8> {
    match l {
        LogLevel::Debug => "debug".spec_bytes(),
        LogLevel::Info => "info".spec_bytes(),
        LogLevel::Warn => "warn".spec_bytes(),
        LogLevel::Error => "error".spec_bytes(),
        LogLevel::Fatal => "fatal".spec_bytes(),
        LogLevel::Unknown => "<unknown>".spec_bytes(),
    }
}

/// A source location as `{"file":...,"line":...}`.
pub open spec fn json_source(m: SourceModel) -> Seq<u8> {
    json_object(
        seq![
            member(json_string("file".spec_bytes()), json_string(m.0)),
            member(json_string("line".spec_bytes()), json_string(m.1)),
        ],
    )
}

/// An optional source location; `null` when absent.
pub open spec fn json_opt_source(m: Option<SourceModel>) -> Seq<u8> {
    match m {
        None => "null".spec_bytes(),
        Some(s) => json_source(s),
    }
}

/// One field as an object member.
pub open spec fn field_member(f: FieldModel) -> Seq<u8> {
    member(json_log_str(f.0), json_log_str(f.1))
}

/// Fields as one object, keyed by each field's key, in order.
pub open spec fn json_fields(fs: Seq<FieldModel>) -> Seq<u8> {
    json_object(fs.map_values(|f: FieldModel| field_member(f)))
}

/// A record as `{"message":...,"level":...,"source":...,"time":...,"fields":{...}}`.
pub open spec fn json_record(m: RecordModel) -> Seq<u8> {
    json_object(
        seq![
            member(json_string("message".spec_bytes()), json_log_str(m.message)),
            member(json_string("level".spec_bytes()), json_string(level_name(m.level))),
            member(json_string("source".spec_bytes()), json_opt_source(m.source)),
            member(json_string("time".spec_bytes()), json_string(m.time)),
            member(json_string("fields".spec_bytes()), json_fields(m.fields)),
        ],
    )
}

/// Appending one more member to a list.
pub proof fn lemma_join_push(ms: Seq<Seq<u8>>, m: Seq<u8>)
    ensures
        join_members(ms.push(m)) == join_members(ms) + (if ms.len() == 0 {
            Seq::<u8>::empty()
        } else {
            seq![0x2c]
        }) + m,
{
    assert(ms.push(m).drop_last() =~= ms);
    if ms.len() == 0 {
        assert(join_members(ms.push(m)) == m);
        assert(Seq::<u8>::empty() + Seq::<u8>::empty() + m =~= m);
    } else {
        assert(join_members(ms.push(m)) == join_members(ms) + seq![0x2c] + m);
    }
}

/// A value that renders itself as JSON text.
pub trait ToJSON {
    /// The JSON text of the value.
    spec fn json(&self) -> Seq<u8>;

    /// Appends the JSON text of the value to `w`.
    fn write_json_to(&self, w: &mut Vec<u8>)
        ensures
            final(w)@ == old(w)@ + self.json(),
    ;
}

/// Appends the bytes of `s`.
fn write_raw(w: &mut Vec<u8>, s: &str)
    ensures
        final(w)@ == old(w)@ + s.spec_bytes(),
{
    let bytes = s.as_bytes();
    let mut i: usize = 0;
    while i < bytes.len()
        invariant
            i <= bytes@.len(),
            w@ == old(w)@ + bytes@.subrange(0, i as int),
            bytes@ == s.spec_bytes(),
        decreases bytes@.len() - i,
    {
        w.push(bytes[i]);
        i = i + 1;
        assert(w@ =~= old(w)@ + bytes@.subrange(0, i as int));
    }
    assert(bytes@.subrange(0, bytes@.len() as int) =~= bytes@);
}

fn hex(n: u8) -> (r: u8)
    requires
        n < 16,
    ensures
        r == hex_digit(n),
{
    if n < 10 {
        0x30 + n
    } else {
        0x61 + n - 10
    }
}

/// Appends one byte, escaped.
fn write_escaped_byte(w: &mut Vec<u8>, c: u8)
    ensures
        final(w)@ == old(w)@ + escape_byte(c),
{
    if c == QUOTE || c == BACKSLASH {
        w.push(BACKSLASH);
        w.push(c);
    } else if c == 0x0a {
        w.push(BACKSLASH);
        w.push(0x6e);
    } else if c == 0x0d {
        w.push(BACKSLASH);
        w.push(0x72);
    } else if c == 0x09 {
        w.push(BACKSLASH);
        w.push(0x74);
    } else if c == 0x08 {
        w.push(BACKSLASH);
        w.push(0x62);
    } else if c == 0x0c {
        w.push(BACKSLASH);
        w.push(0x66);
    } else if c < 0x20 {
        w.push(BACKSLASH);
        w.push(0x75);
        w.push(0x30);
        w.push(0x30);
        w.push(hex(c / 16));
        w.push(hex(c % 16));
    } else {
        w.push(c);
    }
    assert(final(w)@ =~= old(w)@ + escape_byte(c));
}

/// Appends `s` as a JSON string literal.
pub fn write_json_string(s: &str, w: &mut Vec<u8>)
    ensures
        final(w)@ == old(w)@ + json_string(s.spec_bytes()),
{
    w.push(QUOTE);
    let bytes = s.as_bytes();
    let ghost start = w@;
    let mut i: usize = 0;
    while i < bytes.len()
        invariant
            i <= bytes@.len(),
            start == old(w)@ + seq![QUOTE],
            w@ == start + json_escape(bytes@.subrange(0, i as int)),
        decreases bytes@.len() - i,
    {
        write_escaped_byte(w, bytes[i]);
        assert(bytes@.subrange(0, i + 1).drop_last() =~= bytes@.subrange(0, i as int));
        i = i + 1;
        assert(w@ =~= start + json_escape(bytes@.subrange(0, i as int)));
    }
    assert(bytes@.subrange(0, bytes@.len() as int) =~= bytes@);
    w.push(QUOTE);
    assert(w@ =~= old(w)@ + json_string(s.spec_bytes()));
}

/// Writes an object member by member, each after a comma but the first.
pub struct JsonObjectBuilder {
    initial: bool,
    start: Ghost<Seq<u8>>,
    members: Ghost<Seq<Seq<u8>>>,
}

impl JsonObjectBuilder {
    /// What the sink held before the object.
    pub closed spec fn start(&self) -> Seq<u8> {
        self.start@
    }

    /// The members written so far.
    pub closed spec fn members(&self) -> Seq<Seq<u8>> {
        self.members@
    }

    /// The sink holds the start, `{`, and the members written so far.
    pub closed spec fn holds(&self, w: Seq<u8>) -> bool {
        &&& w == self.start@ + seq![0x7b] + join_members(self.members@)
        &&& self.initial == (self.members@.len() == 0)
    }

    /// Opens an object on `w`.
    pub fn on_writer(w: &mut Vec<u8>) -> (r: Self)
        ensures
            r.holds(final(w)@),
            r.start() == old(w)@,
            r.members() == Seq::<Seq<u8>>::empty(),
    {
        let ghost start = w@;
        w.push(0x7b);
        let r = JsonObjectBuilder {
            initial: true,
            start: Ghost(start),
            members: Ghost(Seq::empty()),
        };
        assert(w@ =~= start + seq![0x7b] + join_members(r.members@));
        r
    }

    /// Writes a separator unless this is the first key, then the key and `:`.
    fn write_key<K: ToJSON>(&mut self, w: &mut Vec<u8>, key: &K)
        ensures
            final(w)@ == old(w)@ + (if old(self).initial {
                Seq::<u8>::empty()
            } else {
                seq![0x2c]
            }) + key.json() + seq![0x3a],
            final(self).initial == false,
            final(self).start() == old(self).start(),
            final(self).members() == old(self).members(),
    {
        if !self.initial {
            w.push(0x2c);
        }
        key.write_json_to(w);
        w.push(0x3a);
        self.initial = false;
        assert(final(w)@ =~= old(w)@ + (if old(self).initial {
            Seq::<u8>::empty()
        } else {
            seq![0x2c]
        }) + key.json() + seq![0x3a]);
    }

    /// Writes one member.
    pub fn write_field<K: ToJSON, V: ToJSON>(&mut self, w: &mut Vec<u8>, key: &K, value: &V)
        requires
            old(self).holds(old(w)@),
        ensures
            final(self).holds(final(w)@),
            final(self).start() == old(self).start(),
            final(self).members() == old(self).members().push(member(key.json(), value.json())),
    {
        let ghost ms = self.members@;
        self.write_key(w, key);
        value.write_json_to(w);
        self.members = Ghost(ms.push(member(key.json(), value.json())));
        proof {
            lemma_join_push(ms, member(key.json(), value.json()));
            assert(w@ =~= self.start@ + seq![0x7b] + join_members(self.members@));
        }
    }

    /// Closes the object.
    pub fn end(&self, w: &mut Vec<u8>)
        requires
            self.holds(old(w)@),
        ensures
            final(w)@ == self.start() + json_object(self.members()),
    {
        w.push(0x7d);
        assert(final(w)@ =~= self.start() + json_object(self.members()));
    }
}

impl<'a> ToJSON for &'a str {
    open spec fn json(&self) -> Seq<u8> {
        json_string((*self).spec_bytes())
    }

    fn write_json_to(&self, w: &mut Vec<u8>) {
        write_json_string(*self, w);
    }
}

impl<'a> ToJSON for LogStr<'a> {
    open spec fn json(&self) -> Seq<u8> {
        json_log_str(self.model())
    }

    fn write_json_to(&self, w: &mut Vec<u8>) {
        match self {
            LogStr::Quoted(s) => write_raw(w, s),
            LogStr::Unquoted(s) => {
                w.push(QUOTE);
                write_raw(w, s);
                w.push(QUOTE);
            },
        }
        assert(final(w)@ =~= old(w)@ + json_log_str(self.model()));
    }
}

impl LogLevel {
    /// The name the level is written with.
    pub fn name(&self) -> (r: &'static str)
        ensures
            r.spec_bytes() == level_name(*self),
    {
        match self {
            LogLevel::Debug => "debug",
            LogLevel::Info => "info",
            LogLevel::Warn => "warn",
            LogLevel::Error => "error",
            LogLevel::Fatal => "fatal",
            LogLevel::Unknown => "<unknown>",
        }
    }
}

impl ToJSON for LogLevel {
    open spec fn json(&self) -> Seq<u8> {
        json_string(level_name(*self))
    }

    fn write_json_to(&self, w: &mut Vec<u8>) {
        write_json_string(self.name(), w);
    }
}

impl<'a> ToJSON for FileLineRef<'a> {
    open spec fn json(&self) -> Seq<u8> {
        json_source(self.model())
    }

    fn write_json_to(&self, w: &mut Vec<u8>) {
        let mut builder = JsonObjectBuilder::on_writer(w);
        builder.write_field(w, &"file", &self.file);
        builder.write_field(w, &"line", &self.line);
        builder.end(w);
        assert(builder.members() =~= seq![
            member(json_string("file".spec_bytes()), json_string(self.model().0)),
            member(json_string("line".spec_bytes()), json_string(self.model().1)),
        ]);
    }
}

impl<T: ToJSON> ToJSON for Option<T> {
    open spec fn json(&self) -> Seq<u8> {
        match self {
            None => "null".spec_bytes(),
            Some(t) => t.json(),
        }
    }

    fn write_json_to(&self, w: &mut Vec<u8>) {
        match self {
            None => write_raw(w, "null"),
            Some(t) => t.write_json_to(w),
        }
    }
}

impl<'a> ToJSON for TimeRef<'a> {
    open spec fn json(&self) -> Seq<u8> {
        self.time_str.spec_bytes()
    }

    fn write_json_to(&self, w: &mut Vec<u8>) {
        write_raw(w, self.time_str);
    }
}

/// Fields render as one object keyed by each field's key, in order; a later duplicate key
/// stands after an earlier one.
impl<'a> ToJSON for Vec<LogFieldRef<'a>> {
    open spec fn json(&self) -> Seq<u8> {
        json_fields(field_models(self@))
    }

    fn write_json_to(&self, w: &mut Vec<u8>) {
        let ghost fs = field_models(self@);
        let mut builder = JsonObjectBuilder::on_writer(w);
        let mut i: usize = 0;
        while i < self.len()
            invariant
                i <= self@.len(),
                fs == field_models(self@),
                builder.holds(w@),
                builder.start() == old(w)@,
                builder.members() == fs.subrange(0, i as int).map_values(
                    |f: FieldModel| field_member(f),
                ),
            decreases self@.len() - i,
        {
            let entry = &self[i];
            builder.write_field(w, &entry.key, &entry.value);
            i = i + 1;
            assert(builder.members() =~= fs.subrange(0, i as int).map_values(
                |f: FieldModel| field_member(f),
            ));
        }
        builder.end(w);
        assert(fs.subrange(0, i as int) =~= fs);
    }
}

impl<'a> ToJSON for LogRecordRef<'a> {
    open spec fn json(&self) -> Seq<u8> {
        json_record(self.model())
    }

    fn write_json_to(&self, w: &mut Vec<u8>) {
        let mut builder = JsonObjectBuilder::on_writer(w);
        builder.write_field(w, &"message", &self.message);
        builder.write_field(w, &"level", &self.level);
        builder.write_field(w, &"source", &self.source);
        builder.write_field(w, &"time", &self.time);
        builder.write_field(w, &"fields", &self.entries);
        builder.end(w);
        let ghost m = self.model();
        assert(builder.members() =~= seq![
            member(json_string("message".spec_bytes()), json_log_str(m.message)),
            member(json_string("level".spec_bytes()), json_string(level_name(m.level))),
            member(json_string("source".spec_bytes()), json_opt_source(m.source)),
            member(json_string("time".spec_bytes()), json_string(m.time)),
            member(json_string("fields".spec_bytes()), json_fields(m.fields)),
        ]);
    }
}

impl<'a> ToJSON for ZapObject<'a> {
    open spec fn json(&self) -> Seq<u8> {
        json_fields(self.model())
    }

    fn write_json_to(&self, w: &mut Vec<u8>) {
        self.fields.write_json_to(w);
    }
}

/// Writing a scanned quoted token gives back the scanned text byte for byte.
pub proof fn lemma_quoted_round_trip(b: Seq<u8>, i: int, braced: bool)
    requires
        0 <= i < b.len(),
        b[i] == QUOTE,
        log_str_end(b, i, braced) is Some,
    ensures
        json_log_str(str_model(b, i, log_str_end(b, i, braced).unwrap())) == b.subrange(
            i,
            log_str_end(b, i, braced).unwrap(),
        ),
{
    lemma_quoted_close(b, i, true);
}

/// An unquoted token is written between exactly one pair of `"`.
pub proof fn lemma_unquoted_json(b: Seq<u8>)
    ensures
        json_log_str((false, b)) == seq![QUOTE] + b + seq![QUOTE],
{
}

} // verus!
