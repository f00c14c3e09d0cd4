//! A minimal, ordered JSON value tree and serializer.
//!
//! Objects preserve insertion order (document order of the XML), which keeps
//! output byte-deterministic and diff-friendly.

use vstd::prelude::*;

use crate::number;
use crate::number::push_signed;
use crate::text;

verus! {

/// A JSON value, over character sequences.
#[verifier::ext_equal]
pub enum Json {
    Null,
    Bool(bool),
    Int(int),
    Float(Seq<char>),
    Str(Seq<char>),
    Array(Seq<Json>),
    Object(Seq<(Seq<char>, Json)>),
}

/// A JSON value. Numbers are split into integer and float variants so that
/// type inference can keep 64-bit IDs exact. A float is held as the literal
/// that denotes it; its decimal form is asked for when it is written.
#[derive(Debug, PartialEq)]
pub enum Value {
    Null,
    Bool(bool),
    Int(i64),
    Float(String),
    Str(String),
    Array(Vec<Value>),
    Object(Vec<(String, Value)>),
}

impl Value {
    /// The value as a mathematical tree.
    pub open spec fn json(self) -> Json
        decreases self,
    {
        match self {
            Value::Null => Json::Null,
            Value::Bool(b) => Json::Bool(b),
            Value::Int(n) => Json::Int(n as int),
            Value::Float(s) => Json::Float(s@),
            Value::Str(s) => Json::Str(s@),
            Value::Array(items) => Json::Array(
                Seq::new(
                    items@.len(),
                    |i: int|
                        if 0 <= i < items@.len() {
                            items@[i].json()
                        } else {
                            Json::Null
                        },
                ),
            ),
            Value::Object(entries) => Json::Object(
                Seq::new(
                    entries@.len(),
                    |i: int|
                        if 0 <= i < entries@.len() {
                            (entries@[i].0@, entries@[i].1.json())
                        } else {
                            (seq![], Json::Null)
                        },
                ),
            ),
        }
    }
}

/// The trees of a list of values.
pub open spec fn jsons(items: Seq<Value>) -> Seq<Json> {
    items.map_values(|v: Value| v.json())
}

/// The trees of a list of entries.
pub open spec fn entry_jsons(entries: Seq<(String, Value)>) -> Seq<(Seq<char>, Json)> {
    entries.map_values(|e: (String, Value)| (e.0@, e.1.json()))
}

/// An array is the list of its items' trees.
pub proof fn lemma_array(items: Vec<Value>)
    ensures
        Value::Array(items).json() == Json::Array(jsons(items@)),
{
    if let Json::Array(seen) = Value::Array(items).json() {
        assert(seen =~= jsons(items@));
    }
}

/// An object is the list of its entries' trees.
pub proof fn lemma_object(entries: Vec<(String, Value)>)
    ensures
        Value::Object(entries).json() == Json::Object(entry_jsons(entries@)),
{
    if let Json::Object(seen) = Value::Object(entries).json() {
        assert(seen =~= entry_jsons(entries@));
    }
}

/// The trees of arrays and objects are the lists of their parts' trees.
pub proof fn lemma_containers(v: Value)
    ensures
        v matches Value::Array(items) ==> v.json() == Json::Array(jsons(items@)),
        v matches Value::Object(entries) ==> v.json() == Json::Object(entry_jsons(entries@)),
{
    match v {
        Value::Array(items) => lemma_array(items),
        Value::Object(entries) => lemma_object(entries),
        _ => {},
    }
}

/// The lower-case hexadecimal digit `d`.
pub open spec fn hex_char(d: int) -> char {
    if d < 10 {
        ('0' as int + d) as char
    } else {
        ('a' as int + d - 10) as char
    }
}

/// How `c` stands in a JSON string. Control characters use `\\u00XX`;
/// everything else (including non-ASCII) passes through.
pub open spec fn escape(c: char) -> Seq<char> {
    if c == '"' {
        seq!['\\', '"']
    } else if c == '\\' {
        seq!['\\', '\\']
    } else if c == '\n' {
        seq!['\\', 'n']
    } else if c == '\r' {
        seq!['\\', 'r']
    } else if c == '\t' {
        seq!['\\', 't']
    } else if c == '\u{8}' {
        seq!['\\', 'b']
    } else if c == '\u{c}' {
        seq!['\\', 'f']
    } else if (c as u32) <= 0x1f {
        seq!['\\', 'u', '0', '0', hex_char((c as u32 / 16) as int), hex_char((c as u32 % 16) as int)]
    } else {
        seq![c]
    }
}

/// The characters of `s`, each as it stands in a JSON string.
pub open spec fn escaped(s: Seq<char>) -> Seq<char>
    decreases s.len(),
{
    if s.len() == 0 {
        seq![]
    } else {
        escaped(s.drop_last()) + escape(s.last())
    }
}

/// `s` as a JSON string.
pub open spec fn quoted(s: Seq<char>) -> Seq<char> {
    seq!['"'] + escaped(s) + seq!['"']
}

/// The compact JSON text of a value.
pub open spec fn json_text(j: Json) -> Seq<char>
    decreases j,
{
    match j {
        Json::Null => "null"@,
        Json::Bool(true) => "true"@,
        Json::Bool(false) => "false"@,
        Json::Int(n) => number::signed_decimal(n),
        Json::Float(s) => s,
        Json::Str(s) => quoted(s),
        Json::Array(items) => seq!['['] + items_text(items) + seq![']'],
        Json::Object(entries) => seq!['{'] + entries_text(entries) + seq!['}'],
    }
}

/// The items in order, with commas between them.
pub open spec fn items_text(items: Seq<Json>) -> Seq<char>
    decreases items,
{
    if items.len() == 0 {
        seq![]
    } else if items.len() == 1 {
        json_text(items[0])
    } else {
        items_text(items.drop_last()) + seq![','] + json_text(items.last())
    }
}

/// The entries in order, each `"key":value`, with commas between them.
pub open spec fn entries_text(entries: Seq<(Seq<char>, Json)>) -> Seq<char>
    decreases entries,
{
    if entries.len() == 0 {
        seq![]
    } else if entries.len() == 1 {
        quoted(entries[0].0) + seq![':'] + json_text(entries[0].1)
    } else {
        entries_text(entries.drop_last()) + seq![','] + (quoted(entries.last().0) + seq![':']
            + json_text(entries.last().1))
    }
}

/// Appends `s` as a JSON string.
fn write_escaped(s: &str, out: &mut String)
    ensures
        final(out)@ == old(out)@ + quoted(s@),
{
    out.push('"');
    let ghost start = out@;
    let chars = text::chars_of(s);
    let mut i: usize = 0;
    while i < chars.len()
        invariant
            i <= chars@.len(),
            chars@ == s@,
            out@ == start + escaped(s@.take(i as int)),
        decreases chars@.len() - i,
    {
        let c = chars[i];
        let ghost before = out@;
        if c == '"' {
            out.push('\\');
            out.push('"');
        } else if c == '\\' {
            out.push('\\');
            out.push('\\');
        } else if c == '\n' {
            out.push('\\');
            out.push('n');
        } else if c == '\r' {
            out.push('\\');
            out.push('r');
        } else if c == '\t' {
            out.push('\\');
            out.push('t');
        } else if c == '\u{8}' {
            out.push('\\');
            out.push('b');
        } else if c == '\u{c}' {
            out.push('\\');
            out.push('f');
        } else if (c as u32) <= 0x1f {
            out.push('\\');
            out.push('u');
            out.push('0');
            out.push('0');
            let code: u32 = c as u32;
            out.push(hex_digit((code / 16) as u8));
            out.push(hex_digit((code % 16) as u8));
        } else {
            out.push(c);
        }
        assert(out@ =~= before + escape(c));
        i = i + 1;
        assert(s@.take(i as int).drop_last() =~= s@.take(i - 1));
        assert(out@ =~= start + escaped(s@.take(i as int)));
    }
    assert(s@.take(i as int) =~= s@);
    out.push('"');
    assert(out@ =~= old(out)@ + quoted(s@));
}

/// The lower-case hexadecimal digit `d`.
fn hex_digit(d: u8) -> (r: char)
    requires
        d < 16,
    ensures
        r == hex_char(d as int),
{
    if d < 10 {
        (48 + d) as char
    } else {
        (97 + d - 10) as char
    }
}

/// Some answer of `show` on `literal` is `k`.
pub open spec fn shows<F: Fn(&str) -> String>(show: F, literal: Seq<char>, k: Json) -> bool {
    exists|s: &str, shown: String|
        s@ == literal && #[trigger] call_ensures(show, (s,), shown) && k == Json::Float(shown@)
}

/// `k` is `j` with an answer of `show` in the place of every float literal.
pub open spec fn renders<F: Fn(&str) -> String>(show: F, j: Json, k: Json) -> bool
    decreases j,
{
    match j {
        Json::Float(literal) => shows(show, literal, k),
        Json::Array(items) => k matches Json::Array(out) && items.len() == out.len() && forall|i: int|
            0 <= i < items.len() ==> renders(show, items[i], #[trigger] out[i]),
        Json::Object(entries) => k matches Json::Object(out) && entries.len() == out.len()
            && forall|i: int|
            0 <= i < entries.len() ==> entries[i].0 == (#[trigger] out[i]).0 && renders(
                show,
                entries[i].1,
                out[i].1,
            ),
        _ => k == j,
    }
}

/// `t` is the compact JSON text of `j`, with floats as `show` gives them.
pub open spec fn written<F: Fn(&str) -> String>(show: F, j: Json, t: Seq<char>) -> bool {
    exists|k: Json| #[trigger] renders(show, j, k) && t == json_text(k)
}

impl Value {
    /// Serialize compactly (no whitespace), suitable for one JSONL line.
    /// `show` gives the decimal form of the number that a float literal
    /// denotes.
    pub fn to_json<F: Fn(&str) -> String>(&self, show: &F) -> (r: String)
        requires
            forall|s: &str| #[trigger] call_requires(*show, (s,)),
        ensures
            written(*show, self.json(), r@),
    {
        let mut out = String::new();
        let k = self.emit(&mut out, show);
        assert(out@ =~= json_text(k@));
        out
    }

    /// Appends the compact JSON text.
    pub fn write<F: Fn(&str) -> String>(&self, out: &mut String, show: &F)
        requires
            forall|s: &str| #[trigger] call_requires(*show, (s,)),
        ensures
            exists|k: Json| #[trigger]
                renders(*show, self.json(), k) && final(out)@ == old(out)@ + json_text(k),
    {
        let k = self.emit(out, show);
        assert(renders(*show, self.json(), k@));
    }

    /// Appends the compact JSON text. Returns the tree that was written.
    fn emit<F: Fn(&str) -> String>(&self, out: &mut String, show: &F) -> (k: Ghost<Json>)
        requires
            forall|s: &str| #[trigger] call_requires(*show, (s,)),
        ensures
            renders(*show, self.json(), k@),
            final(out)@ == old(out)@ + json_text(k@),
        decreases self,
    {
        proof {
            lemma_containers(*self);
        }
        match self {
            Value::Null => {
                out.append("null");
                Ghost(Json::Null)
            },
            Value::Bool(b) => {
                out.append(
                    if *b {
                        "true"
                    } else {
                        "false"
                    },
                );
                Ghost(Json::Bool(*b))
            },
            Value::Int(n) => {
                push_signed(out, *n);
                Ghost(Json::Int(*n as int))
            },
            Value::Float(literal) => {
                let shown = show(literal.as_str());
                out.append(&shown);
                Ghost(Json::Float(shown@))
            },
            Value::Str(s) => {
                write_escaped(s, out);
                Ghost(Json::Str(s@))
            },
            Value::Array(items) => {
                out.push('[');
                let written = emit_items(items, out, show);
                out.push(']');
                assert(out@ =~= old(out)@ + json_text(Json::Array(written@)));
                Ghost(Json::Array(written@))
            },
            Value::Object(entries) => {
                out.push('{');
                let written = emit_entries(entries, out, show);
                out.push('}');
                assert(out@ =~= old(out)@ + json_text(Json::Object(written@)));
                Ghost(Json::Object(written@))
            },
        }
    }
}

/// Appends the items with commas between them. Returns what was written.
fn emit_items<F: Fn(&str) -> String>(items: &Vec<Value>, out: &mut String, show: &F) -> (k: Ghost<
    Seq<Json>,
>)
    requires
        forall|s: &str| #[trigger] call_requires(*show, (s,)),
    ensures
        k@.len() == items@.len(),
        forall|i: int|
            0 <= i < items@.len() ==> renders(*show, items@[i].json(), #[trigger] k@[i]),
        final(out)@ == old(out)@ + items_text(k@),
    decreases items,
{
    let ghost mut done: Seq<Json> = seq![];
    let mut i: usize = 0;
    while i < items.len()
        invariant
            forall|s: &str| #[trigger] call_requires(*show, (s,)),
            done.len() == i <= items@.len(),
            forall|j: int| 0 <= j < i ==> renders(*show, items@[j].json(), #[trigger] done[j]),
            out@ == old(out)@ + items_text(done),
        decreases items@.len() - i,
    {
        if i > 0 {
            out.push(',');
        }
        let next = items[i].emit(out, show);
        proof {
            let more = done.push(next@);
            assert(more.drop_last() =~= done);
            assert(out@ =~= old(out)@ + items_text(more));
            done = more;
        }
        i = i + 1;
    }
    Ghost(done)
}

/// Appends the entries with commas between them. Returns what was written.
fn emit_entries<F: Fn(&str) -> String>(
    entries: &Vec<(String, Value)>,
    out: &mut String,
    show: &F,
) -> (k: Ghost<Seq<(Seq<char>, Json)>>)
    requires
        forall|s: &str| #[trigger] call_requires(*show, (s,)),
    ensures
        k@.len() == entries@.len(),
        forall|i: int|
            0 <= i < entries@.len() ==> (#[trigger] k@[i]).0 == entries@[i].0@ && renders(
                *show,
                entries@[i].1.json(),
                k@[i].1,
            ),
        final(out)@ == old(out)@ + entries_text(k@),
    decreases entries,
{
    let ghost mut done: Seq<(Seq<char>, Json)> = seq![];
    let mut i: usize = 0;
    while i < entries.len()
        invariant
            forall|s: &str| #[trigger] call_requires(*show, (s,)),
            done.len() == i <= entries@.len(),
            forall|j: int|
                0 <= j < i ==> (#[trigger] done[j]).0 == entries@[j].0@ && renders(
                    *show,
                    entries@[j].1.json(),
                    done[j].1,
                ),
            out@ == old(out)@ + entries_text(done),
        decreases entries@.len() - i,
    {
        if i > 0 {
            out.push(',');
        }
        write_escaped(&entries[i].0, out);
        out.push(':');
        let next = entries[i].1.emit(out, show);
        proof {
            let more = done.push((entries@[i as int].0@, next@));
            assert(more.drop_last() =~= done);
            assert(out@ =~= old(out)@ + entries_text(more));
            done = more;
        }
        i = i + 1;
    }
    Ghost(done)
}

impl Value {
    /// A value with the same tree.
    fn copy(&self) -> (r: Value)
        ensures
            r.json() == self.json(),
        decreases self,
    {
        match self {
            Value::Null => Value::Null,
            Value::Bool(b) => Value::Bool(*b),
            Value::Int(n) => Value::Int(*n),
            Value::Float(s) => Value::Float(s.clone()),
            Value::Str(s) => Value::Str(s.clone()),
            Value::Array(items) => {
                let copies = copy_items(items);
                proof {
                    lemma_array(copies);
                    lemma_array(*items);
                }
                Value::Array(copies)
            },
            Value::Object(entries) => {
                let copies = copy_entries(entries);
                proof {
                    lemma_object(copies);
                    lemma_object(*entries);
                }
                Value::Object(copies)
            },
        }
    }
}

/// Copies every item.
fn copy_items(items: &Vec<Value>) -> (r: Vec<Value>)
    ensures
        jsons(r@) == jsons(items@),
    decreases items,
{
    let mut copies: Vec<Value> = Vec::new();
    let mut i: usize = 0;
    while i < items.len()
        invariant
            copies@.len() == i <= items@.len(),
            forall|j: int| 0 <= j < i ==> (#[trigger] copies@[j]).json() == items@[j].json(),
        decreases items@.len() - i,
    {
        copies.push(items[i].copy());
        i = i + 1;
    }
    assert(jsons(copies@) =~= jsons(items@));
    copies
}

/// Copies every entry.
fn copy_entries(entries: &Vec<(String, Value)>) -> (r: Vec<(String, Value)>)
    ensures
        entry_jsons(r@) == entry_jsons(entries@),
    decreases entries,
{
    let mut copies: Vec<(String, Value)> = Vec::new();
    let mut i: usize = 0;
    while i < entries.len()
        invariant
            copies@.len() == i <= entries@.len(),
            forall|j: int|
                0 <= j < i ==> (#[trigger] copies@[j]).0@ == entries@[j].0@
                    && copies@[j].1.json() == entries@[j].1.json(),
        decreases entries@.len() - i,
    {
        copies.push((entries[i].0.clone(), entries[i].1.copy()));
        i = i + 1;
    }
    assert(entry_jsons(copies@) =~= entry_jsons(entries@));
    copies
}

impl Clone for Value {
    fn clone(&self) -> (r: Self)
        ensures
            r.json() == self.json(),
    {
        self.copy()
    }
}

/// Escaping works character by character.
proof fn lemma_escaped_concat(a: Seq<char>, b: Seq<char>)
    ensures
        escaped(a + b) == escaped(a) + escaped(b),
    decreases b.len(),
{
    if b.len() == 0 {
        assert(a + b =~= a);
        assert(escaped(a) + escaped(b) =~= escaped(a));
    } else {
        lemma_escaped_concat(a, b.drop_last());
        assert((a + b).drop_last() =~= a + b.drop_last());
        assert(escaped(a + b) =~= escaped(a) + escaped(b));
    }
}

/// The escape of the first character comes first.
pub proof fn lemma_escaped_first(s: Seq<char>)
    requires
        s.len() > 0,
    ensures
        escaped(s) == escape(s[0]) + escaped(s.skip(1)),
{
    assert(s =~= seq![s[0]] + s.skip(1));
    lemma_escaped_concat(seq![s[0]], s.skip(1));
    assert(seq![s[0]].drop_last() =~= seq![]);
    assert(escaped(seq![s[0]]) =~= escape(s[0])) by {
        reveal_with_fuel(escaped, 2);
    }
}

/// No escape begins another one.
proof fn lemma_escape_is_prefix_free(c: char, d: char, x: Seq<char>, y: Seq<char>)
    requires
        escape(c) + x == escape(d) + y,
    ensures
        c == d,
        x == y,
{
    let whole = escape(c) + x;
    assert(whole == escape(d) + y);
    assert(whole[0] == escape(c)[0] && whole[0] == escape(d)[0]);
    if c != d {
        assert(escape(c).len() > 1 && escape(d).len() > 1);
        assert(whole[1] == escape(c)[1] && whole[1] == escape(d)[1]);
        assert(escape(c).len() == 6 && escape(d).len() == 6);
        assert(whole[4] == escape(c)[4] && whole[4] == escape(d)[4]);
        assert(whole[5] == escape(c)[5] && whole[5] == escape(d)[5]);
        assert(false);
    }
    assert(x =~= whole.skip(escape(c).len() as int));
    assert(y =~= whole.skip(escape(d).len() as int));
}

/// The body of a JSON string up to its closing quote determines the string.
proof fn lemma_string_body(a: Seq<char>, b: Seq<char>, x: Seq<char>, y: Seq<char>)
    requires
        escaped(a) + seq!['"'] + x == escaped(b) + seq!['"'] + y,
    ensures
        a == b,
        x == y,
    decreases a.len(),
{
    let left = escaped(a) + seq!['"'] + x;
    let right = escaped(b) + seq!['"'] + y;
    if a.len() > 0 {
        lemma_escaped_first(a);
    }
    if b.len() > 0 {
        lemma_escaped_first(b);
    }
    if a.len() == 0 || b.len() == 0 {
        assert(left[0] == (if a.len() == 0 {
            '"'
        } else {
            escape(a[0])[0]
        }));
        assert(right[0] == (if b.len() == 0 {
            '"'
        } else {
            escape(b[0])[0]
        }));
        assert(a =~= b);
        assert(x =~= left.skip(1));
        assert(y =~= right.skip(1));
    } else {
        let rest_a = escaped(a.skip(1)) + seq!['"'] + x;
        let rest_b = escaped(b.skip(1)) + seq!['"'] + y;
        assert(left =~= escape(a[0]) + rest_a);
        assert(right =~= escape(b[0]) + rest_b);
        lemma_escape_is_prefix_free(a[0], b[0], rest_a, rest_b);
        lemma_string_body(a.skip(1), b.skip(1), x, y);
        assert(a =~= seq![a[0]] + a.skip(1));
        assert(b =~= seq![b[0]] + b.skip(1));
    }
}

/// Strings delimit themselves: whatever follows it, the text of a string ends
/// at one place only and gives back the characters that it was made from.
pub proof fn law_strings_read_back(a: Seq<char>, b: Seq<char>, x: Seq<char>, y: Seq<char>)
    requires
        quoted(a) + x == quoted(b) + y,
    ensures
        a == b,
        x == y,
{
    let left = quoted(a) + x;
    assert(left == quoted(b) + y);
    assert(escaped(a) + seq!['"'] + x =~= left.skip(1));
    assert(escaped(b) + seq!['"'] + y =~= left.skip(1));
    lemma_string_body(a, b, x, y);
}

/// All characters but control characters, quotation marks and backslashes
/// stand in a string as they are, those beyond ASCII among them.
pub proof fn law_other_characters_are_not_escaped(c: char)
    requires
        0x1f < c as u32,
        c != '"',
        c != '\\',
    ensures
        escape(c) == seq![c],
{
}

/// Every character is printable or beyond ASCII: no control character.
pub open spec fn no_control(s: Seq<char>) -> bool {
    forall|i: int| 0 <= i < s.len() ==> 0x1f < #[trigger] s[i] as u32
}

/// Every float in the tree is held as text without control characters.
pub open spec fn plain_floats(j: Json) -> bool
    decreases j,
{
    match j {
        Json::Float(s) => no_control(s),
        Json::Array(items) => forall|i: int|
            0 <= i < items.len() ==> plain_floats(#[trigger] items[i]),
        Json::Object(entries) => forall|i: int|
            0 <= i < entries.len() ==> plain_floats((#[trigger] entries[i]).1),
        _ => true,
    }
}

/// Escaped text holds no control character.
proof fn lemma_escaped_no_control(s: Seq<char>)
    ensures
        no_control(escaped(s)),
    decreases s.len(),
{
    if s.len() > 0 {
        lemma_escaped_no_control(s.drop_last());
        assert(no_control(escape(s.last())));
    }
}

/// Decimal numbers hold no control character.
proof fn lemma_decimal_no_control(n: nat)
    ensures
        no_control(number::decimal(n)),
    decreases n,
{
    if n >= 10 {
        lemma_decimal_no_control(n / 10);
    }
}

proof fn lemma_items_no_control(items: Seq<Json>)
    requires
        forall|i: int| 0 <= i < items.len() ==> plain_floats(#[trigger] items[i]),
    ensures
        no_control(items_text(items)),
    decreases items,
{
    if items.len() > 0 {
        law_one_record_is_one_line(items.last());
        if items.len() > 1 {
            lemma_items_no_control(items.drop_last());
        }
    }
}

proof fn lemma_entries_no_control(entries: Seq<(Seq<char>, Json)>)
    requires
        forall|i: int| 0 <= i < entries.len() ==> plain_floats((#[trigger] entries[i]).1),
    ensures
        no_control(entries_text(entries)),
    decreases entries,
{
    if entries.len() > 0 {
        lemma_escaped_no_control(entries.last().0);
        law_one_record_is_one_line(entries.last().1);
        if entries.len() > 1 {
            lemma_entries_no_control(entries.drop_last());
        }
    }
}

/// The JSON text of a value holds no control character, and so no line break:
/// whatever the strings in it hold, a value fits on one line of JSONL.
pub proof fn law_one_record_is_one_line(j: Json)
    requires
        plain_floats(j),
    ensures
        no_control(json_text(j)),
    decreases j,
{
    match j {
        Json::Null => reveal_strlit("null"),
        Json::Bool(true) => reveal_strlit("true"),
        Json::Bool(false) => reveal_strlit("false"),
        Json::Int(n) => {
            lemma_decimal_no_control(n as nat);
            lemma_decimal_no_control((-n) as nat);
        },
        Json::Float(s) => {},
        Json::Str(s) => lemma_escaped_no_control(s),
        Json::Array(items) => lemma_items_no_control(items),
        Json::Object(entries) => lemma_entries_no_control(entries),
    }
}

/// No float stands anywhere in the tree.
pub open spec fn float_free(j: Json) -> bool
    decreases j,
{
    match j {
        Json::Float(_) => false,
        Json::Array(items) => forall|i: int|
            0 <= i < items.len() ==> float_free(#[trigger] items[i]),
        Json::Object(entries) => forall|i: int|
            0 <= i < entries.len() ==> float_free((#[trigger] entries[i]).1),
        _ => true,
    }
}

/// Writing changes floats only: a tree without them is written as it is.
pub proof fn law_rendering_keeps_the_rest<F: Fn(&str) -> String>(show: F, j: Json, k: Json)
    requires
        float_free(j),
        renders(show, j, k),
    ensures
        k == j,
    decreases j,
{
    match j {
        Json::Array(items) => {
            if let Json::Array(out) = k {
                assert forall|i: int| 0 <= i < items.len() implies items[i] == out[i] by {
                    law_rendering_keeps_the_rest(show, items[i], out[i]);
                }
                assert(items =~= out);
            }
        },
        Json::Object(entries) => {
            if let Json::Object(out) = k {
                assert forall|i: int| 0 <= i < entries.len() implies entries[i] == out[i] by {
                    law_rendering_keeps_the_rest(show, entries[i].1, out[i].1);
                }
                assert(entries =~= out);
            }
        },
        _ => {},
    }
}

/// No answer of `show` holds a control character.
pub open spec fn shows_plain<F: Fn(&str) -> String>(show: F) -> bool {
    forall|s: &str, shown: String| #[trigger]
        call_ensures(show, (s,), shown) ==> no_control(shown@)
}

/// What is written is plain, if what is shown of floats is.
pub proof fn law_rendered_values_are_plain<F: Fn(&str) -> String>(
    show: F,
    j: Json,
    k: Json,
)
    requires
        shows_plain(show),
        renders(show, j, k),
    ensures
        plain_floats(k),
    decreases j,
{
    match j {
        Json::Array(items) => {
            if let Json::Array(out) = k {
                assert forall|i: int| 0 <= i < out.len() implies plain_floats(#[trigger] out[i]) by {
                    law_rendered_values_are_plain(show, items[i], out[i]);
                }
            }
        },
        Json::Object(entries) => {
            if let Json::Object(out) = k {
                assert forall|i: int| 0 <= i < out.len() implies plain_floats(
                    (#[trigger] out[i]).1,
                ) by {
                    law_rendered_values_are_plain(show, entries[i].1, out[i].1);
                }
            }
        },
        _ => {},
    }
}

/// `show` answers alike wherever the literals are equal.
pub open spec fn shows_alike<F: Fn(&str) -> String>(show: F) -> bool {
    forall|s: &str, a: String, t: &str, b: String|
        #![trigger call_ensures(show, (s,), a), call_ensures(show, (t,), b)]
        call_ensures(show, (s,), a) && call_ensures(show, (t,), b) && s@ == t@ ==> a@ == b@
}

/// There is one way to write a value, if `show` answers alike on equal
/// literals.
pub proof fn law_rendering_is_determined<F: Fn(&str) -> String>(
    show: F,
    j: Json,
    a: Json,
    b: Json,
)
    requires
        shows_alike(show),
        renders(show, j, a),
        renders(show, j, b),
    ensures
        a == b,
    decreases j,
{
    match j {
        Json::Array(items) => {
            if let (Json::Array(x), Json::Array(y)) = (a, b) {
                assert forall|i: int| 0 <= i < items.len() implies x[i] == y[i] by {
                    law_rendering_is_determined(show, items[i], x[i], y[i]);
                }
                assert(x =~= y);
            }
        },
        Json::Object(entries) => {
            if let (Json::Object(x), Json::Object(y)) = (a, b) {
                assert forall|i: int| 0 <= i < entries.len() implies x[i] == y[i] by {
                    law_rendering_is_determined(show, entries[i].1, x[i].1, y[i].1);
                }
                assert(x =~= y);
            }
        },
        _ => {},
    }
}

/// The text of a value is determined, if `show` answers alike on equal
/// literals: whichever way it is written, the bytes are the same.
pub proof fn law_texts_are_determined<F: Fn(&str) -> String>(
    show: F,
    j: Json,
    a: Seq<char>,
    b: Seq<char>,
)
    requires
        shows_alike(show),
        written(show, j, a),
        written(show, j, b),
    ensures
        a == b,
{
    let x = choose|k: Json| #[trigger] renders(show, j, k) && a == json_text(k);
    let y = choose|k: Json| #[trigger] renders(show, j, k) && b == json_text(k);
    law_rendering_is_determined(show, j, x, y);
}

} // verus!
