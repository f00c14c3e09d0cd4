//! What a JSON reader makes of the texts that values are written as.
//!
//! [`read_value`] says how JSON without white space between its tokens is
//! read: one value at the start of a text, and what is left behind it. The
//! laws say that it gives back every value from the value's own text.

use vstd::prelude::*;

use crate::json;
use crate::json::Json;
use crate::number;
use crate::record;
use crate::text;

verus! {

/// The characters that numbers are made of.
pub open spec fn is_number_char(c: char) -> bool {
    '0' <= c <= '9' || c == '-' || c == '+' || c == '.' || c == 'e' || c == 'E'
}

/// True of the characters that end a number.
pub open spec fn number_end() -> spec_fn(char) -> bool {
    |c: char| !is_number_char(c)
}

/// The number characters at the start of `s`.
pub open spec fn number_run(s: Seq<char>) -> Seq<char> {
    match text::first_where(s, number_end()) {
        Some(i) => s.take(i),
        None => s,
    }
}

/// A run of number characters.
pub open spec fn is_run(t: Seq<char>) -> bool {
    t.len() > 0 && forall|i: int| 0 <= i < t.len() ==> is_number_char(#[trigger] t[i])
}

/// True of the runs of number characters.
pub open spec fn any_run() -> spec_fn(Seq<char>) -> bool {
    |t: Seq<char>| is_run(t)
}

/// The integer part and the fraction of a JSON number: no superfluous leading
/// zero, and digits behind the point.
pub open spec fn is_json_mantissa(s: Seq<char>) -> bool {
    let whole = match text::index_of(s, '.') {
        Some(i) => s.take(i),
        None => s,
    };
    &&& whole.len() > 0
    &&& text::all_digits(whole)
    &&& whole.len() == 1 || whole[0] != '0'
    &&& text::index_of(s, '.') matches Some(i) ==> i + 1 < s.len() && text::all_digits(
        s.skip(i + 1),
    )
}

/// A number of JSON: `-?(0|[1-9]\d*)(\.\d+)?([eE][+-]?\d+)?`.
pub open spec fn is_json_number(t: Seq<char>) -> bool {
    let number = record::unsigned_part(t);
    match text::first_where(number, record::exponent_mark()) {
        None => is_json_mantissa(number),
        Some(i) => is_json_mantissa(number.take(i)) && record::is_exponent(number.skip(i + 1)),
    }
}

/// True of the numbers of JSON.
pub open spec fn json_number() -> spec_fn(Seq<char>) -> bool {
    |t: Seq<char>| is_json_number(t)
}

/// What a number is read as: an integer where it is one in decimal, and else
/// the text itself.
pub open spec fn number_value(t: Seq<char>) -> Json {
    if exists|n: int| number::signed_decimal(n) == t {
        Json::Int(choose|n: int| number::signed_decimal(n) == t)
    } else {
        Json::Float(t)
    }
}

/// The character at the start of the body of a JSON string, and how many
/// characters it takes.
pub open spec fn string_char(s: Seq<char>) -> Option<(char, int)> {
    if s.len() == 0 || s[0] as u32 <= 0x1f || s[0] == '"' {
        None
    } else if s[0] != '\\' {
        Some((s[0], 1))
    } else if s.len() < 2 {
        None
    } else if s[1] == '"' || s[1] == '\\' || s[1] == '/' {
        Some((s[1], 2))
    } else if s[1] == 'n' {
        Some(('\n', 2))
    } else if s[1] == 'r' {
        Some(('\r', 2))
    } else if s[1] == 't' {
        Some(('\t', 2))
    } else if s[1] == 'b' {
        Some(('\u{8}', 2))
    } else if s[1] == 'f' {
        Some(('\u{c}', 2))
    } else if s[1] == 'u' && s.len() >= 6 {
        match number::digits_value(s.subrange(2, 6), 16) {
            Some(n) => if n < 0xd800 || 0xe000 <= n {
                Some((n as char, 6))
            } else {
                None
            },
            None => None,
        }
    } else {
        None
    }
}

/// The string behind an opening quotation mark, and what is left behind the
/// closing one.
pub open spec fn read_string(s: Seq<char>) -> Option<(Seq<char>, Seq<char>)>
    decreases s.len(),
{
    if s.len() > 0 && s[0] == '"' {
        Some((seq![], s.skip(1)))
    } else {
        match string_char(s) {
            None => None,
            Some((c, n)) => match read_string(s.skip(n)) {
                None => None,
                Some((t, rest)) => Some((seq![c] + t, rest)),
            },
        }
    }
}

/// The value at the start of `s`, and what is left behind it. `numeral` says
/// which runs of number characters are numbers.
pub open spec fn read_value(s: Seq<char>, numeral: spec_fn(Seq<char>) -> bool) -> Option<
    (Json, Seq<char>),
>
    decreases s.len(), 0int,
{
    if s.len() == 0 {
        None
    } else if s[0] == '"' {
        match read_string(s.skip(1)) {
            Some((t, rest)) => Some((Json::Str(t), rest)),
            None => None,
        }
    } else if s[0] == '[' {
        if s.len() > 1 && s[1] == ']' {
            Some((Json::Array(seq![]), s.skip(2)))
        } else {
            match read_items(s.skip(1), numeral) {
                Some((items, rest)) => Some((Json::Array(items), rest)),
                None => None,
            }
        }
    } else if s[0] == '{' {
        if s.len() > 1 && s[1] == '}' {
            Some((Json::Object(seq![]), s.skip(2)))
        } else {
            match read_entries(s.skip(1), numeral) {
                Some((entries, rest)) => Some((Json::Object(entries), rest)),
                None => None,
            }
        }
    } else if "null"@.is_prefix_of(s) {
        Some((Json::Null, s.skip(4)))
    } else if "true"@.is_prefix_of(s) {
        Some((Json::Bool(true), s.skip(4)))
    } else if "false"@.is_prefix_of(s) {
        Some((Json::Bool(false), s.skip(5)))
    } else if numeral(number_run(s)) {
        Some((number_value(number_run(s)), s.skip(number_run(s).len() as int)))
    } else {
        None
    }
}

/// The items behind an opening bracket, and what is left behind the closing
/// one.
pub open spec fn read_items(s: Seq<char>, numeral: spec_fn(Seq<char>) -> bool) -> Option<
    (Seq<Json>, Seq<char>),
>
    decreases s.len(), 1int,
{
    match read_value(s, numeral) {
        None => None,
        Some((item, rest)) => if rest.len() == 0 || rest.len() >= s.len() {
            None
        } else if rest[0] == ']' {
            Some((seq![item], rest.skip(1)))
        } else if rest[0] == ',' {
            match read_items(rest.skip(1), numeral) {
                None => None,
                Some((items, left)) => Some((seq![item] + items, left)),
            }
        } else {
            None
        },
    }
}

/// The entries behind an opening brace, and what is left behind the closing
/// one.
pub open spec fn read_entries(s: Seq<char>, numeral: spec_fn(Seq<char>) -> bool) -> Option<
    (Seq<(Seq<char>, Json)>, Seq<char>),
>
    decreases s.len(), 1int,
{
    if s.len() == 0 || s[0] != '"' {
        None
    } else {
        match read_string(s.skip(1)) {
            None => None,
            Some((key, behind)) => if behind.len() == 0 || behind.len() >= s.len() || behind[0]
                != ':' {
                None
            } else {
                match read_value(behind.skip(1), numeral) {
                    None => None,
                    Some((value, rest)) => if rest.len() == 0 || rest.len() >= s.len() {
                        None
                    } else if rest[0] == '}' {
                        Some((seq![(key, value)], rest.skip(1)))
                    } else if rest[0] == ',' {
                        match read_entries(rest.skip(1), numeral) {
                            None => None,
                            Some((entries, left)) => Some((seq![(key, value)] + entries, left)),
                        }
                    } else {
                        None
                    },
                }
            },
        }
    }
}

/// The value that a reader gets to see: a float whose text is an integer in
/// decimal (a whole number, shown without a point) is that integer.
pub open spec fn as_read(j: Json) -> Json
    decreases j,
{
    match j {
        Json::Float(t) => number_value(t),
        Json::Array(items) => Json::Array(
            Seq::new(
                items.len(),
                |i: int|
                    if 0 <= i < items.len() {
                        as_read(items[i])
                    } else {
                        Json::Null
                    },
            ),
        ),
        Json::Object(entries) => Json::Object(
            Seq::new(
                entries.len(),
                |i: int|
                    if 0 <= i < entries.len() {
                        (entries[i].0, as_read(entries[i].1))
                    } else {
                        (seq![], Json::Null)
                    },
            ),
        ),
        _ => j,
    }
}

/// Every float of the tree is a number, as `numeral` says.
pub open spec fn numeric(j: Json, numeral: spec_fn(Seq<char>) -> bool) -> bool
    decreases j,
{
    match j {
        Json::Float(t) => numeral(t),
        Json::Array(items) => forall|i: int|
            0 <= i < items.len() ==> numeric(#[trigger] items[i], numeral),
        Json::Object(entries) => forall|i: int|
            0 <= i < entries.len() ==> numeric((#[trigger] entries[i]).1, numeral),
        _ => true,
    }
}

/// `x` does not go on with a number that ends before it.
pub open spec fn ends_number(x: Seq<char>) -> bool {
    x.len() == 0 || !is_number_char(x[0])
}

proof fn lemma_number_run(t: Seq<char>, x: Seq<char>)
    requires
        is_run(t),
        ends_number(x),
    ensures
        number_run(t + x) == t,
{
    let s = t + x;
    let end = number_end();
    assert forall|j: int| 0 <= j < t.len() implies !end(#[trigger] s[j]) by {
        assert(s[j] == t[j]);
    }
    if x.len() == 0 {
        text::lemma_first_where_none(s, end);
        assert(s =~= t);
    } else {
        assert(s[t.len() as int] == x[0]);
        text::lemma_first_where(s, end, t.len() as int);
        assert(s.take(t.len() as int) =~= t);
    }
}

/// The decimal digits of a number.
pub proof fn lemma_decimal(n: nat)
    ensures
        number::decimal(n).len() > 0,
        text::all_digits(number::decimal(n)),
        number::decimal(n).len() == 1 || number::decimal(n)[0] != '0',
        n > 0 ==> number::decimal(n)[0] != '0',
        number::digits_value(number::decimal(n), 10) == Some(n as int),
    decreases n,
{
    let s = number::decimal(n);
    if n < 10 {
        assert(s.drop_last() =~= seq![]);
        assert(number::digits_value(s.drop_last(), 10) == Some(0int));
        assert(number::digit_of(s.last(), 10) == Some(n as int));
    } else {
        lemma_decimal(n / 10);
        let init = number::decimal(n / 10);
        let d = (n % 10) as int;
        assert(s.drop_last() =~= init);
        assert(number::digit_of(s.last(), 10) == Some(d));
        assert forall|i: int| 0 <= i < s.len() implies '0' <= #[trigger] s[i] <= '9' by {
            if i < init.len() {
                assert(s[i] == init[i]);
            }
        }
        assert(s[0] == init[0]);
    }
}

/// An integer in decimal is a run of digits, perhaps behind a `-`, and reads
/// as itself.
proof fn lemma_signed_decimal(n: int)
    ensures
        is_run(number::signed_decimal(n)),
        forall|i: int|
            0 <= i < number::signed_decimal(n).len() ==> (#[trigger] number::signed_decimal(n)[i])
                == '-' || '0' <= number::signed_decimal(n)[i] <= '9',
        number_value(number::signed_decimal(n)) == Json::Int(n),
{
    let t = number::signed_decimal(n);
    lemma_decimal_chars(n);
    let m = choose|m: int| number::signed_decimal(m) == t;
    assert(number::signed_decimal(m) == t);
    lemma_decimal_chars(m);
    lemma_decimal(if n < 0 {
        -n
    } else {
        n
    } as nat);
    lemma_decimal(if m < 0 {
        -m
    } else {
        m
    } as nat);
    if n < 0 {
        assert(t.skip(1) =~= number::decimal((-n) as nat));
    }
    if m < 0 {
        assert(t.skip(1) =~= number::decimal((-m) as nat));
    }
    assert(m == n);
}

pub proof fn lemma_decimal_chars(n: int)
    ensures
        ({
            let t = number::signed_decimal(n);
            &&& is_run(t)
            &&& n < 0 <==> t[0] == '-'
            &&& forall|i: int| 0 <= i < t.len() ==> (#[trigger] t[i]) == '-' || '0' <= t[i] <= '9'
        }),
{
    let t = number::signed_decimal(n);
    let digits = number::decimal(if n < 0 {
        -n
    } else {
        n
    } as nat);
    lemma_decimal(if n < 0 {
        -n
    } else {
        n
    } as nat);
    assert forall|i: int| 0 <= i < t.len() implies is_number_char(#[trigger] t[i]) && (t[i] == '-'
        || '0' <= t[i] <= '9') && (i == 0 && n < 0 <==> t[i] == '-') by {
        if n < 0 {
            if i > 0 {
                assert(t[i] == digits[i - 1]);
                assert('0' <= digits[i - 1] <= '9');
            }
        } else {
            assert(t[i] == digits[i]);
            assert('0' <= digits[i] <= '9');
        }
    }
    assert(is_number_char(t[0]));
}

/// An escaped character is read as itself, whatever follows.
proof fn lemma_string_char(c: char, x: Seq<char>)
    ensures
        string_char(json::escape(c) + x) == Some((c, json::escape(c).len() as int)),
        json::escape(c)[0] != '"',
        json::escape(c).len() > 0,
{
    let e = json::escape(c);
    let s = e + x;
    assert(s[0] == e[0]);
    if e.len() > 1 {
        assert(s[1] == e[1]);
    }
    if e.len() == 6 {
        let hex = s.subrange(2, 6);
        let high = (c as u32 / 16) as int;
        let low = (c as u32 % 16) as int;
        assert(hex =~= seq!['0', '0', json::hex_char(high), json::hex_char(low)]);
        reveal_with_fuel(number::digits_value, 5);
        assert(hex.drop_last() =~= seq!['0', '0', json::hex_char(high)]);
        assert(hex.drop_last().drop_last() =~= seq!['0', '0']);
        assert(hex.drop_last().drop_last().drop_last() =~= seq!['0']);
        assert(hex.drop_last().drop_last().drop_last().drop_last() =~= seq![]);
        assert(number::digit_of(json::hex_char(high), 16) == Some(high));
        assert(number::digit_of(json::hex_char(low), 16) == Some(low));
        assert(number::digits_value(hex, 16) == Some(high * 16 + low));
        assert((c as u32 as int) as char == c);
    }
}

/// A string is read back from its text.
proof fn lemma_string(t: Seq<char>, x: Seq<char>)
    ensures
        read_string(json::escaped(t) + seq!['"'] + x) == Some((t, x)),
    decreases t.len(),
{
    let s = json::escaped(t) + seq!['"'] + x;
    if t.len() == 0 {
        assert(s[0] == '"');
        assert(s.skip(1) =~= x);
        assert(t =~= seq![]);
    } else {
        json::lemma_escaped_first(t);
        let e = json::escape(t[0]);
        let rest = json::escaped(t.skip(1)) + seq!['"'] + x;
        assert(s =~= e + rest);
        lemma_string_char(t[0], rest);
        assert(s[0] == e[0]);
        assert(s.skip(e.len() as int) =~= rest);
        lemma_string(t.skip(1), x);
        assert(seq![t[0]] + t.skip(1) =~= t);
    }
}

/// The text of an entry: its key as a string, a colon, its value.
pub open spec fn entry_text(entry: (Seq<char>, Json)) -> Seq<char> {
    json::json_text(Json::Str(entry.0)) + seq![':'] + json::json_text(entry.1)
}

/// The parts in order, with commas between them.
pub open spec fn with_commas(parts: Seq<Seq<char>>) -> Seq<char>
    decreases parts.len(),
{
    if parts.len() == 0 {
        seq![]
    } else if parts.len() == 1 {
        parts[0]
    } else {
        parts[0] + seq![','] + with_commas(parts.skip(1))
    }
}

/// A part at the end stands behind a comma.
proof fn lemma_with_commas(parts: Seq<Seq<char>>)
    requires
        parts.len() > 1,
    ensures
        with_commas(parts) == with_commas(parts.drop_last()) + seq![','] + parts.last(),
    decreases parts.len(),
{
    let init = parts.drop_last();
    let tail = parts.skip(1);
    assert(init[0] == parts[0]);
    assert(tail.last() == parts.last());
    if parts.len() == 2 {
        assert(with_commas(tail) == tail[0]);
    } else {
        lemma_with_commas(tail);
        assert(tail.drop_last() =~= init.skip(1));
        assert(with_commas(parts) =~= with_commas(init) + seq![','] + parts.last());
    }
}

proof fn lemma_items_text(items: Seq<Json>)
    ensures
        json::items_text(items) == with_commas(items.map_values(|j: Json| json::json_text(j))),
    decreases items.len(),
{
    let parts = items.map_values(|j: Json| json::json_text(j));
    if items.len() > 1 {
        lemma_items_text(items.drop_last());
        lemma_with_commas(parts);
        assert(parts.drop_last() =~= items.drop_last().map_values(|j: Json| json::json_text(j)));
    }
}

proof fn lemma_entries_text(entries: Seq<(Seq<char>, Json)>)
    ensures
        json::entries_text(entries) == with_commas(
            entries.map_values(|e: (Seq<char>, Json)| entry_text(e)),
        ),
    decreases entries.len(),
{
    let parts = entries.map_values(|e: (Seq<char>, Json)| entry_text(e));
    if entries.len() > 1 {
        lemma_entries_text(entries.drop_last());
        lemma_with_commas(parts);
        assert(parts.drop_last() =~= entries.drop_last().map_values(
            |e: (Seq<char>, Json)| entry_text(e),
        ));
    }
}

/// The text of an array is that of its items in order, joined by commas,
/// between brackets; that of an object is `"key":value` for its entries in
/// order, joined by commas, between braces. Empty ones are `[]` and `{}`.
pub proof fn law_containers_are_joined(items: Seq<Json>, entries: Seq<(Seq<char>, Json)>)
    ensures
        json::json_text(Json::Array(items)) == seq!['['] + with_commas(
            items.map_values(|j: Json| json::json_text(j)),
        ) + seq![']'],
        json::json_text(Json::Object(entries)) == seq!['{'] + with_commas(
            entries.map_values(|e: (Seq<char>, Json)| entry_text(e)),
        ) + seq!['}'],
        json::json_text(Json::Array(seq![])) == seq!['[', ']'],
        json::json_text(Json::Object(seq![])) == seq!['{', '}'],
{
    lemma_items_text(items);
    lemma_entries_text(entries);
    assert(seq!['['] + json::items_text(seq![]) + seq![']'] =~= seq!['[', ']']);
    assert(seq!['{'] + json::entries_text(seq![]) + seq!['}'] =~= seq!['{', '}']);
}

/// The first item, and the others behind a comma.
proof fn lemma_items_first(items: Seq<Json>)
    requires
        items.len() > 0,
    ensures
        json::items_text(items) == json::json_text(items[0]) + (if items.len() == 1 {
            seq![]
        } else {
            seq![','] + json::items_text(items.drop_first())
        }),
{
    let parts = items.map_values(|j: Json| json::json_text(j));
    lemma_items_text(items);
    lemma_items_text(items.drop_first());
    assert(parts.skip(1) =~= items.drop_first().map_values(|j: Json| json::json_text(j)));
    assert(json::items_text(items) =~= json::json_text(items[0]) + (if items.len() == 1 {
        seq![]
    } else {
        seq![','] + json::items_text(items.drop_first())
    }));
}

proof fn lemma_entries_first(entries: Seq<(Seq<char>, Json)>)
    requires
        entries.len() > 0,
    ensures
        json::entries_text(entries) == entry_text(entries[0]) + (if entries.len() == 1 {
            seq![]
        } else {
            seq![','] + json::entries_text(entries.drop_first())
        }),
{
    let parts = entries.map_values(|e: (Seq<char>, Json)| entry_text(e));
    lemma_entries_text(entries);
    lemma_entries_text(entries.drop_first());
    assert(parts.skip(1) =~= entries.drop_first().map_values(
        |e: (Seq<char>, Json)| entry_text(e),
    ));
    assert(json::entries_text(entries) =~= entry_text(entries[0]) + (if entries.len() == 1 {
        seq![]
    } else {
        seq![','] + json::entries_text(entries.drop_first())
    }));
}

/// `numeral` accepts the integers in decimal, and runs of number characters
/// only.
pub open spec fn is_notation(numeral: spec_fn(Seq<char>) -> bool) -> bool {
    &&& forall|n: int| numeral(#[trigger] number::signed_decimal(n))
    &&& forall|t: Seq<char>| #[trigger] numeral(t) ==> is_run(t)
}

/// The first character of a value's text closes nothing.
proof fn lemma_head(j: Json, numeral: spec_fn(Seq<char>) -> bool)
    requires
        numeric(j, numeral),
        is_notation(numeral),
    ensures
        json::json_text(j).len() > 0,
        json::json_text(j)[0] != ']',
        json::json_text(j)[0] != '}',
{
    reveal_strlit("null");
    reveal_strlit("true");
    reveal_strlit("false");
    match j {
        Json::Int(n) => {
            lemma_signed_decimal(n);
            assert(is_number_char(json::json_text(j)[0]));
        },
        Json::Float(t) => {
            assert(is_number_char(t[0]));
        },
        _ => {},
    }
}

/// A number is read from its text.
proof fn lemma_number(t: Seq<char>, x: Seq<char>, numeral: spec_fn(Seq<char>) -> bool)
    requires
        is_run(t),
        numeral(t),
        ends_number(x),
    ensures
        read_value(t + x, numeral) == Some((number_value(t), x)),
{
    let s = t + x;
    lemma_number_run(t, x);
    assert(is_number_char(t[0]));
    assert(s[0] == t[0]);
    reveal_strlit("null");
    reveal_strlit("true");
    reveal_strlit("false");
    assert("null"@[0] == 'n' && "true"@[0] == 't' && "false"@[0] == 'f');
    assert(s.skip(t.len() as int) =~= x);
}

/// `null`, `true` and `false` are read from their texts.
proof fn lemma_words(x: Seq<char>, numeral: spec_fn(Seq<char>) -> bool)
    ensures
        read_value("null"@ + x, numeral) == Some((Json::Null, x)),
        read_value("true"@ + x, numeral) == Some((Json::Bool(true), x)),
        read_value("false"@ + x, numeral) == Some((Json::Bool(false), x)),
{
    reveal_strlit("null");
    reveal_strlit("true");
    reveal_strlit("false");
    let n = "null"@ + x;
    let t = "true"@ + x;
    let f = "false"@ + x;
    assert("null"@.is_prefix_of(n) && "true"@.is_prefix_of(t) && "false"@.is_prefix_of(f));
    assert("null"@[0] == 'n' && "true"@[0] == 't' && "false"@[0] == 'f');
    assert(n[0] == 'n' && t[0] == 't' && f[0] == 'f');
    assert(n.skip(4) =~= x && t.skip(4) =~= x && f.skip(5) =~= x);
}

/// The items as they are read.
pub open spec fn items_as_read(items: Seq<Json>) -> Seq<Json> {
    items.map_values(|j: Json| as_read(j))
}

/// The entries as they are read.
pub open spec fn entries_as_read(entries: Seq<(Seq<char>, Json)>) -> Seq<(Seq<char>, Json)> {
    entries.map_values(|e: (Seq<char>, Json)| (e.0, as_read(e.1)))
}

proof fn lemma_as_read(items: Seq<Json>, entries: Seq<(Seq<char>, Json)>)
    ensures
        as_read(Json::Array(items)) == Json::Array(items_as_read(items)),
        as_read(Json::Object(entries)) == Json::Object(entries_as_read(entries)),
{
    if let Json::Array(seen) = as_read(Json::Array(items)) {
        assert(seen =~= items_as_read(items));
    }
    if let Json::Object(seen) = as_read(Json::Object(entries)) {
        assert(seen =~= entries_as_read(entries));
    }
}

/// Items are read back from their text.
proof fn lemma_items(items: Seq<Json>, x: Seq<char>, numeral: spec_fn(Seq<char>) -> bool)
    requires
        items.len() > 0,
        forall|i: int| 0 <= i < items.len() ==> numeric(#[trigger] items[i], numeral),
        is_notation(numeral),
    ensures
        read_items(json::items_text(items) + seq![']'] + x, numeral) == Some(
            (items_as_read(items), x),
        ),
    decreases items,
{
    let s = json::items_text(items) + seq![']'] + x;
    let first = json::json_text(items[0]);
    lemma_items_first(items);
    lemma_head(items[0], numeral);
    if items.len() == 1 {
        let rest = seq![']'] + x;
        assert(s =~= first + rest);
        lemma_value(items[0], rest, numeral);
        assert(rest.skip(1) =~= x);
        assert(items_as_read(items) =~= seq![as_read(items[0])]);
    } else {
        let others = items.drop_first();
        let behind = json::items_text(others) + seq![']'] + x;
        let rest = seq![','] + behind;
        assert(s =~= first + rest);
        lemma_value(items[0], rest, numeral);
        assert forall|i: int| 0 <= i < others.len() implies numeric(
            #[trigger] others[i],
            numeral,
        ) by {
            assert(others[i] == items[i + 1]);
        }
        lemma_items(others, x, numeral);
        assert(rest.skip(1) =~= behind);
        assert(items_as_read(items) =~= seq![as_read(items[0])] + items_as_read(others));
    }
}

/// Entries are read back from their text.
proof fn lemma_entries(
    entries: Seq<(Seq<char>, Json)>,
    x: Seq<char>,
    numeral: spec_fn(Seq<char>) -> bool,
)
    requires
        entries.len() > 0,
        forall|i: int| 0 <= i < entries.len() ==> numeric((#[trigger] entries[i]).1, numeral),
        is_notation(numeral),
    ensures
        read_entries(json::entries_text(entries) + seq!['}'] + x, numeral) == Some(
            (entries_as_read(entries), x),
        ),
    decreases entries,
{
    let s = json::entries_text(entries) + seq!['}'] + x;
    let (key, value) = entries[0];
    let others = entries.drop_first();
    let rest = if entries.len() == 1 {
        seq!['}'] + x
    } else {
        seq![','] + (json::entries_text(others) + seq!['}'] + x)
    };
    lemma_entries_first(entries);
    lemma_head(value, numeral);
    let behind = seq![':'] + (json::json_text(value) + rest);
    assert(s =~= seq!['"'] + (json::escaped(key) + seq!['"'] + behind));
    assert(s.skip(1) =~= json::escaped(key) + seq!['"'] + behind);
    lemma_string(key, behind);
    assert(behind.skip(1) =~= json::json_text(value) + rest);
    lemma_value(value, rest, numeral);
    if entries.len() == 1 {
        assert(rest.skip(1) =~= x);
        assert(entries_as_read(entries) =~= seq![(key, as_read(value))]);
    } else {
        assert forall|i: int| 0 <= i < others.len() implies numeric(
            (#[trigger] others[i]).1,
            numeral,
        ) by {
            assert(others[i] == entries[i + 1]);
        }
        lemma_entries(others, x, numeral);
        assert(rest.skip(1) =~= json::entries_text(others) + seq!['}'] + x);
        assert(entries_as_read(entries) =~= seq![(key, as_read(value))] + entries_as_read(others));
    }
}

/// A value is read back from its text.
proof fn lemma_value(j: Json, x: Seq<char>, numeral: spec_fn(Seq<char>) -> bool)
    requires
        numeric(j, numeral),
        is_notation(numeral),
        ends_number(x),
    ensures
        read_value(json::json_text(j) + x, numeral) == Some((as_read(j), x)),
    decreases j,
{
    let s = json::json_text(j) + x;
    match j {
        Json::Null | Json::Bool(_) => lemma_words(x, numeral),
        Json::Int(n) => {
            lemma_signed_decimal(n);
            lemma_number(number::signed_decimal(n), x, numeral);
        },
        Json::Float(t) => lemma_number(t, x, numeral),
        Json::Str(t) => {
            lemma_string(t, x);
            assert(s.skip(1) =~= json::escaped(t) + seq!['"'] + x);
            assert(s[0] == '"');
        },
        Json::Array(items) => {
            lemma_as_read(items, seq![]);
            assert(s[0] == '[');
            if items.len() == 0 {
                assert(s[1] == ']');
                assert(s.skip(2) =~= x);
                assert(items_as_read(items) =~= seq![]);
            } else {
                lemma_items_first(items);
                lemma_head(items[0], numeral);
                assert(s.skip(1) =~= json::items_text(items) + seq![']'] + x);
                assert(s[1] == json::json_text(items[0])[0]);
                lemma_items(items, x, numeral);
            }
        },
        Json::Object(entries) => {
            lemma_as_read(seq![], entries);
            assert(s[0] == '{');
            if entries.len() == 0 {
                assert(s[1] == '}');
                assert(s.skip(2) =~= x);
                assert(entries_as_read(entries) =~= seq![]);
            } else {
                lemma_entries_first(entries);
                assert(s.skip(1) =~= json::entries_text(entries) + seq!['}'] + x);
                assert(s[1] == '"');
                lemma_entries(entries, x, numeral);
            }
        },
    }
}

/// Digits are number characters.
proof fn lemma_digits_run(t: Seq<char>)
    requires
        text::all_digits(t),
        t.len() > 0,
    ensures
        is_run(t),
{
    assert forall|i: int| 0 <= i < t.len() implies is_number_char(#[trigger] t[i]) by {
        assert('0' <= t[i] <= '9');
    }
}

/// Two runs with a number character between them are a run.
proof fn lemma_join_runs(a: Seq<char>, c: char, b: Seq<char>)
    requires
        is_run(a),
        is_number_char(c),
        is_run(b),
    ensures
        is_run(a + seq![c] + b),
{
}

/// A JSON number is a run of number characters.
proof fn lemma_json_number(t: Seq<char>)
    requires
        is_json_number(t),
    ensures
        is_run(t),
{
    let number = record::unsigned_part(t);
    text::lemma_first_where_found(number, record::exponent_mark());
    match text::first_where(number, record::exponent_mark()) {
        None => lemma_json_mantissa(number),
        Some(i) => {
            lemma_json_mantissa(number.take(i));
            let power = number.skip(i + 1);
            if power[0] == '+' || power[0] == '-' {
                lemma_digits_run(power.skip(1));
                assert(power =~= seq![power[0]] + power.skip(1));
            } else {
                lemma_digits_run(power);
            }
            assert(is_run(power));
            lemma_join_runs(number.take(i), number[i], power);
            assert(number =~= number.take(i) + seq![number[i]] + power);
        },
    }
    if t[0] == '-' {
        assert(t =~= seq!['-'] + number);
    }
}

proof fn lemma_json_mantissa(s: Seq<char>)
    requires
        is_json_mantissa(s),
    ensures
        is_run(s),
{
    text::lemma_first_where_found(s, text::equal_to('.'));
    match text::index_of(s, '.') {
        Some(i) => {
            lemma_digits_run(s.take(i));
            lemma_digits_run(s.skip(i + 1));
            lemma_join_runs(s.take(i), '.', s.skip(i + 1));
            assert(s =~= s.take(i) + seq!['.'] + s.skip(i + 1));
        },
        None => lemma_digits_run(s),
    }
}

/// An integer in decimal is a JSON number.
proof fn lemma_integer_is_json_number(n: int)
    ensures
        is_json_number(number::signed_decimal(n)),
{
    let t = number::signed_decimal(n);
    let digits = number::decimal(if n < 0 {
        -n
    } else {
        n
    } as nat);
    lemma_decimal(if n < 0 {
        -n
    } else {
        n
    } as nat);
    lemma_decimal_chars(n);
    assert(record::unsigned_part(t) =~= digits);
    let mark = record::exponent_mark();
    let point = text::equal_to('.');
    assert forall|i: int| 0 <= i < digits.len() implies !mark(#[trigger] digits[i]) && !point(
        digits[i],
    ) by {
        assert('0' <= digits[i] <= '9');
    }
    text::lemma_first_where_none(digits, mark);
    text::lemma_first_where_none(digits, point);
}

/// What is written reads back. The text of a value whose floats are JSON
/// numbers is JSON, without white space outside its strings, and a reader gets
/// from it the value itself: strings and keys character for character, items
/// and entries in their order, numbers as they are written. What is left
/// behind it is what was there, unless that goes on with a number.
pub proof fn law_values_read_back(j: Json, x: Seq<char>)
    requires
        numeric(j, json_number()),
        ends_number(x),
    ensures
        read_value(json::json_text(j) + x, json_number()) == Some((as_read(j), x)),
{
    let numeral = json_number();
    assert forall|n: int| numeral(#[trigger] number::signed_decimal(n)) by {
        lemma_integer_is_json_number(n);
    }
    assert forall|t: Seq<char>| #[trigger] numeral(t) implies is_run(t) by {
        lemma_json_number(t);
    }
    lemma_value(j, x, numeral);
}

/// Every answer of `show` is a JSON number.
pub open spec fn shows_numbers<F: Fn(&str) -> String>(show: F) -> bool {
    forall|s: &str, shown: String| #[trigger]
        call_ensures(show, (s,), shown) ==> is_json_number(shown@)
}

/// What is written of a value has JSON numbers for floats, if `show` gives
/// such.
proof fn lemma_rendered_is_numeric<F: Fn(&str) -> String>(show: F, j: Json, k: Json)
    requires
        shows_numbers(show),
        json::renders(show, j, k),
    ensures
        numeric(k, json_number()),
    decreases j,
{
    match j {
        Json::Array(items) => {
            if let Json::Array(out) = k {
                assert forall|i: int| 0 <= i < out.len() implies numeric(
                    #[trigger] out[i],
                    json_number(),
                ) by {
                    lemma_rendered_is_numeric(show, items[i], out[i]);
                }
            }
        },
        Json::Object(entries) => {
            if let Json::Object(out) = k {
                assert forall|i: int| 0 <= i < out.len() implies numeric(
                    (#[trigger] out[i]).1,
                    json_number(),
                ) by {
                    lemma_rendered_is_numeric(show, entries[i].1, out[i].1);
                }
            }
        },
        _ => {},
    }
}

/// The text that is written for a value reads back to the value with its
/// floats as `show` gives them, if those are JSON numbers.
pub proof fn law_written_texts_read_back<F: Fn(&str) -> String>(
    show: F,
    j: Json,
    t: Seq<char>,
    x: Seq<char>,
)
    requires
        shows_numbers(show),
        json::written(show, j, t),
        ends_number(x),
    ensures
        exists|k: Json| #[trigger]
            json::renders(show, j, k) && read_value(t + x, json_number()) == Some((as_read(k), x)),
{
    let k = choose|k: Json| #[trigger] json::renders(show, j, k) && t == json::json_text(k);
    lemma_rendered_is_numeric(show, j, k);
    law_values_read_back(k, x);
}

/// A number that has a point or an exponent.
pub open spec fn is_fractional(t: Seq<char>) -> bool {
    is_run(t) && (t.contains('.') || t.contains('e') || t.contains('E'))
}

/// True of the numbers that have a point or an exponent.
pub open spec fn fractional() -> spec_fn(Seq<char>) -> bool {
    |t: Seq<char>| is_fractional(t)
}

/// A number with a point or an exponent is no integer in decimal.
proof fn lemma_fractional(t: Seq<char>)
    requires
        is_fractional(t),
    ensures
        number_value(t) == Json::Float(t),
{
    if exists|n: int| number::signed_decimal(n) == t {
        let n = choose|n: int| number::signed_decimal(n) == t;
        lemma_decimal_chars(n);
        let c = if t.contains('.') {
            '.'
        } else if t.contains('e') {
            'e'
        } else {
            'E'
        };
        let i = t.index_of(c);
        assert(t[i] == c);
        assert(t[i] == '-' || '0' <= t[i] <= '9');
    }
}

/// A tree whose floats have a point or an exponent is read as it is, and its
/// floats are runs of number characters.
proof fn lemma_read_as_it_is(j: Json)
    requires
        numeric(j, fractional()),
    ensures
        as_read(j) == j,
        numeric(j, any_run()),
    decreases j,
{
    match j {
        Json::Float(t) => lemma_fractional(t),
        Json::Array(items) => {
            assert forall|i: int| 0 <= i < items.len() implies as_read(items[i]) == items[i]
                && numeric(#[trigger] items[i], any_run()) by {
                lemma_read_as_it_is(items[i]);
            }
            lemma_as_read(items, seq![]);
            assert(items_as_read(items) =~= items);
        },
        Json::Object(entries) => {
            assert forall|i: int| 0 <= i < entries.len() implies as_read(entries[i].1)
                == entries[i].1 && numeric((#[trigger] entries[i]).1, any_run()) by {
                lemma_read_as_it_is(entries[i].1);
            }
            lemma_as_read(seq![], entries);
            assert(entries_as_read(entries) =~= entries);
        },
        _ => {},
    }
}

/// A text stands for one value only. Of values whose floats have a point or an
/// exponent no two have the same text, nor does the text of one begin that of
/// another, unless what follows goes on with a number.
pub proof fn law_texts_determine_values(j: Json, k: Json, x: Seq<char>, y: Seq<char>)
    requires
        numeric(j, fractional()),
        numeric(k, fractional()),
        ends_number(x),
        ends_number(y),
        json::json_text(j) + x == json::json_text(k) + y,
    ensures
        j == k,
        x == y,
{
    let numeral = any_run();
    assert forall|n: int| numeral(#[trigger] number::signed_decimal(n)) by {
        lemma_signed_decimal(n);
    }
    lemma_read_as_it_is(j);
    lemma_read_as_it_is(k);
    lemma_value(j, x, numeral);
    lemma_value(k, y, numeral);
}

/// Type inference makes floats with a point or an exponent only.
pub proof fn law_inferred_floats_are_fractional(s: Seq<char>)
    ensures
        numeric(record::inferred(s), fractional()),
{
    if record::inferred(s) is Float {
        let number = record::unsigned_part(s);
        let mark = record::exponent_mark();
        text::lemma_first_where_found(number, mark);
        match text::first_where(number, mark) {
            None => {
                lemma_mantissa(number);
                let i = number.index_of('.');
                assert(number[i] == '.');
                lemma_fractional_sign(s, i);
            },
            Some(i) => {
                lemma_mantissa(number.take(i));
                let power = number.skip(i + 1);
                if power[0] == '+' || power[0] == '-' {
                    lemma_digits_run(power.skip(1));
                    assert(power =~= seq![power[0]] + power.skip(1));
                } else {
                    lemma_digits_run(power);
                }
                assert(is_run(power));
                assert(mark(number[i]));
                lemma_join_runs(number.take(i), number[i], power);
                assert(number =~= number.take(i) + seq![number[i]] + power);
                lemma_fractional_sign(s, i);
            },
        }
    }
}

/// A sign in front changes nothing of that.
proof fn lemma_fractional_sign(s: Seq<char>, i: int)
    requires
        0 <= i < record::unsigned_part(s).len(),
        is_run(record::unsigned_part(s)),
        ({
            let c = record::unsigned_part(s)[i];
            c == '.' || c == 'e' || c == 'E'
        }),
    ensures
        is_fractional(s),
{
    let number = record::unsigned_part(s);
    if s[0] == '-' {
        assert(s =~= seq!['-'] + number);
        assert(s[i + 1] == number[i]);
        assert forall|k: int| 0 <= k < s.len() implies is_number_char(#[trigger] s[k]) by {
            if k > 0 {
                assert(s[k] == number[k - 1]);
            }
        }
    } else {
        assert(s[i] == number[i]);
    }
}

/// The mantissa of a float literal is a run of number characters.
proof fn lemma_mantissa(s: Seq<char>)
    requires
        record::is_mantissa(s),
    ensures
        is_run(s),
{
    text::lemma_first_where_found(s, text::equal_to('.'));
    match text::index_of(s, '.') {
        Some(i) => {
            assert forall|k: int| 0 <= k < s.len() implies is_number_char(#[trigger] s[k]) by {
                if k < i {
                    assert(s.take(i)[k] == s[k]);
                    assert('0' <= s.take(i)[k] <= '9');
                } else if k > i {
                    assert(s.skip(i + 1)[k - i - 1] == s[k]);
                    assert('0' <= s.skip(i + 1)[k - i - 1] <= '9');
                }
            }
        },
        None => lemma_digits_run(s),
    }
}

} // verus!
