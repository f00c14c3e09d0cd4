//! XML entity and character-reference decoding.
//!
//! Handles the five predefined entities plus decimal/hexadecimal character
//! references. Unknown named entities are an error by default; legacy dumps
//! that embed HTML entities (`&nbsp;` and friends) can opt into passing them
//! through verbatim with lenient mode.

use vstd::prelude::*;
use vstd::slice::slice_subrange;

use crate::number;
use crate::number::parse_unsigned;
use crate::reading;
use crate::text;
use crate::text::{chars_of, find_char, join3, same_chars, string_of};

verus! {

/// Longest entity body accepted between `&` and `;`. Anything longer is a
/// stray ampersand, not a reference.
pub const MAX_ENTITY_LEN: usize = 40;

/// What `char::is_alphanumeric` answers: the Unicode properties behind it
/// fill tables, so the answer has a name here.
pub uninterp spec fn is_alphanumeric(c: char) -> bool;

/// `char::is_alphanumeric` is a function of the character. Among the ASCII
/// characters it holds of the letters and the digits.
pub assume_specification[ char::is_alphanumeric ](c: char) -> (r: bool)
    ensures
        r == is_alphanumeric(c),
        c <= '\u{7f}' ==> (r <==> ('0' <= c <= '9' || 'a' <= c <= 'z' || 'A' <= c <= 'Z')),
;

/// The code points that are characters: all up to U+10FFFF but the
/// surrogates.
pub open spec fn is_scalar(n: int) -> bool {
    0 <= n < 0xd800 || 0xe000 <= n <= 0x10ffff
}

/// `char::from_u32` gives the character of a code point, and `None` for a
/// number that is no code point of a character.
pub assume_specification[ char::from_u32 ](n: u32) -> (r: Option<char>)
    ensures
        r == (if is_scalar(n as int) {
            Some(n as char)
        } else {
            None
        }),
;

/// What a reference body stands for.
pub enum Reference {
    /// One character.
    Char(char),
    /// A well-formed name that is not predefined.
    Unknown,
    /// No reference; the message says why.
    Invalid(Seq<char>),
}

/// The characters of an entity name.
pub open spec fn is_name_char(c: char) -> bool {
    is_alphanumeric(c) || c == '_' || c == '-' || c == '.'
}

/// A non-empty run of name characters.
pub open spec fn is_entity_name(s: Seq<char>) -> bool {
    s.len() > 0 && forall|i: int| 0 <= i < s.len() ==> is_name_char(#[trigger] s[i])
}

/// The character range of XML: no control characters but tab, line feed and
/// carriage return, no surrogates, and not U+FFFE and U+FFFF.
pub open spec fn is_xml_char(n: int) -> bool {
    n == 9 || n == 10 || n == 13 || 0x20 <= n <= 0xd7ff || 0xe000 <= n <= 0xfffd || 0x10000 <= n
        <= 0x10ffff
}

/// The code point that the text behind `&#` denotes.
pub open spec fn code_point(num: Seq<char>) -> Option<int> {
    if num.len() > 0 && (num[0] == 'x' || num[0] == 'X') {
        number::unsigned_value(num.skip(1), 16, u32::MAX as int)
    } else {
        number::unsigned_value(num, 10, u32::MAX as int)
    }
}

/// The reference with the text `num` behind `&#`.
pub open spec fn numeric_reference(num: Seq<char>) -> Reference {
    match code_point(num) {
        Some(n) => if is_xml_char(n) {
            Reference::Char(n as char)
        } else {
            Reference::Invalid(
                "character reference '&#"@ + num + ";' is not a valid XML character"@,
            )
        },
        None => Reference::Invalid("malformed character reference '&#"@ + num + ";'"@),
    }
}

/// What stands for `&body;`.
pub open spec fn reference(body: Seq<char>) -> Reference {
    if body == "amp"@ {
        Reference::Char('&')
    } else if body == "lt"@ {
        Reference::Char('<')
    } else if body == "gt"@ {
        Reference::Char('>')
    } else if body == "quot"@ {
        Reference::Char('"')
    } else if body == "apos"@ {
        Reference::Char('\'')
    } else if body.len() > 0 && body[0] == '#' {
        numeric_reference(body.skip(1))
    } else if is_entity_name(body) {
        Reference::Unknown
    } else {
        Reference::Invalid("malformed entity reference '&"@ + body + ";'"@)
    }
}

/// The length of the reference body at the start of `s`: the characters up
/// to the first `;`, which must come within the accepted length.
pub open spec fn body_len(s: Seq<char>) -> Option<int> {
    text::index_of(
        if s.len() > MAX_ENTITY_LEN + 1 {
            s.take(MAX_ENTITY_LEN + 1)
        } else {
            s
        },
        ';',
    )
}

/// A body ends within the text, at a `;` that is the first.
pub proof fn lemma_body_len(s: Seq<char>)
    ensures
        body_len(s) matches Some(n) ==> 0 <= n < s.len() && n <= MAX_ENTITY_LEN && s[n] == ';'
            && !s.take(n).contains(';'),
{
    let t = if s.len() > MAX_ENTITY_LEN + 1 {
        s.take(MAX_ENTITY_LEN + 1)
    } else {
        s
    };
    text::lemma_first_where_found(t, text::equal_to(';'));
    if let Some(n) = body_len(s) {
        assert forall|j: int| 0 <= j < n implies s.take(n)[j] != ';' by {
            assert(!text::equal_to(';')(t[j]));
        }
    }
}

/// `r` with `head` in front of its text; an error stays as it is.
pub open spec fn prefixed(
    head: Seq<char>,
    r: Result<Seq<char>, Seq<char>>,
) -> Result<Seq<char>, Seq<char>> {
    match r {
        Ok(tail) => Ok(head + tail),
        Err(e) => Err(e),
    }
}

/// The message for a name that is not predefined.
pub open spec fn unknown_message(body: Seq<char>) -> Seq<char> {
    "unknown entity reference '&"@ + body
        + ";' (only XML's five predefined entities and character references are decoded; lenient mode passes unknown named entities through)"@
}

/// `s` with every reference replaced by what it stands for, or the message
/// of the first reference that cannot be.
pub open spec fn decoded(s: Seq<char>, lenient: bool) -> Result<Seq<char>, Seq<char>>
    decreases s.len(),
{
    if s.len() == 0 {
        Ok(seq![])
    } else if s[0] != '&' {
        prefixed(seq![s[0]], decoded(s.skip(1), lenient))
    } else {
        match body_len(s.skip(1)) {
            None => Err("unterminated entity reference (missing ';')"@),
            Some(n) => {
                proof {
                    lemma_body_len(s.skip(1));
                }
                match reference(s.subrange(1, n + 1)) {
                    Reference::Char(c) => prefixed(seq![c], decoded(s.skip(n + 2), lenient)),
                    Reference::Unknown => if lenient {
                        prefixed(s.take(n + 2), decoded(s.skip(n + 2), lenient))
                    } else {
                        Err(unknown_message(s.subrange(1, n + 1)))
                    },
                    Reference::Invalid(m) => Err(m),
                }
            },
        }
    }
}

/// The views of both sides of a result.
pub open spec fn result_view(r: Result<String, String>) -> Result<Seq<char>, Seq<char>> {
    match r {
        Ok(s) => Ok(s@),
        Err(e) => Err(e@),
    }
}

/// What stands for one reference body, as executable data.
enum Resolved {
    Char(char),
    Unknown,
    Invalid(String),
}

impl Resolved {
    spec fn meaning(self) -> Reference {
        match self {
            Resolved::Char(c) => Reference::Char(c),
            Resolved::Unknown => Reference::Unknown,
            Resolved::Invalid(m) => Reference::Invalid(m@),
        }
    }
}

/// True when `s` is a non-empty run of name characters.
fn entity_name(s: &[char]) -> (r: bool)
    ensures
        r == is_entity_name(s@),
{
    if s.len() == 0 {
        return false;
    }
    let mut i: usize = 0;
    while i < s.len()
        invariant
            i <= s@.len(),
            forall|j: int| 0 <= j < i ==> is_name_char(#[trigger] s@[j]),
        decreases s@.len() - i,
    {
        let c = s[i];
        if !(c.is_alphanumeric() || c == '_' || c == '-' || c == '.') {
            assert(!is_name_char(s@[i as int]));
            return false;
        }
        i = i + 1;
    }
    true
}

/// Finds what `&body;` stands for.
fn resolve(body: &[char]) -> (r: Resolved)
    ensures
        r.meaning() == reference(body@),
{
    if same_chars(body, &chars_of("amp")) {
        return Resolved::Char('&');
    }
    if same_chars(body, &chars_of("lt")) {
        return Resolved::Char('<');
    }
    if same_chars(body, &chars_of("gt")) {
        return Resolved::Char('>');
    }
    if same_chars(body, &chars_of("quot")) {
        return Resolved::Char('"');
    }
    if same_chars(body, &chars_of("apos")) {
        return Resolved::Char('\'');
    }
    if !(body.len() > 0 && body[0] == '#') {
        // A named entity must look like a name; otherwise it is a stray '&'.
        if !entity_name(body) {
            return Resolved::Invalid(
                join3("malformed entity reference '&", &string_of(body), ";'"),
            );
        }
        return Resolved::Unknown;
    }
    let num = slice_subrange(body, 1, body.len());
    let code = if num.len() > 0 && (num[0] == 'x' || num[0] == 'X') {
        parse_unsigned(slice_subrange(num, 1, num.len()), 16, u32::MAX as u64)
    } else {
        parse_unsigned(num, 10, u32::MAX as u64)
    };
    match code {
        Some(n) => match char::from_u32(n as u32) {
            // XML forbids most C0 controls and the last two code points of
            // the basic plane even via character references.
            Some(c) if (n >= 0x20 && n != 0xfffe && n != 0xffff) || n == 9 || n == 10 || n
                == 13 => Resolved::Char(c),
            _ => Resolved::Invalid(
                join3(
                    "character reference '&#",
                    &string_of(num),
                    ";' is not a valid XML character",
                ),
            ),
        },
        None => Resolved::Invalid(
            join3("malformed character reference '&#", &string_of(num), ";'"),
        ),
    }
}

/// Decode all entity and character references in `input`.
///
/// With `lenient` set, unknown *named* entities are passed through verbatim
/// (`&nbsp;` stays `&nbsp;`); malformed references (unterminated, bad code
/// point) are always an error.
pub fn decode(input: &str, lenient: bool) -> (r: Result<String, String>)
    ensures
        result_view(r) == decoded(input@, lenient),
{
    let s = chars_of(input);
    decode_chars(&s, lenient)
}

/// Decodes the reference at the start of `s`: what it stands for and how many
/// characters it takes.
fn decode_reference(s: &[char], lenient: bool) -> (r: Result<(String, usize), String>)
    requires
        s@.len() > 0,
        s@[0] == '&',
    ensures
        match r {
            Ok((piece, n)) => 0 < n <= s@.len() && decoded(s@, lenient) == prefixed(
                piece@,
                decoded(s@.skip(n as int), lenient),
            ),
            Err(message) => decoded(s@, lenient) == Err::<Seq<char>, Seq<char>>(message@),
        },
{
    let tail = slice_subrange(s, 1, s.len());
    assert(tail@ =~= s@.skip(1));
    let window = if tail.len() > MAX_ENTITY_LEN + 1 {
        slice_subrange(tail, 0, MAX_ENTITY_LEN + 1)
    } else {
        tail
    };
    let n = match find_char(window, ';') {
        Some(n) => n,
        None => {
            return Err("unterminated entity reference (missing ';')".to_owned());
        },
    };
    proof {
        lemma_body_len(s@.skip(1));
    }
    let body = slice_subrange(tail, 0, n);
    assert(body@ =~= s@.subrange(1, n + 1));
    match resolve(body) {
        Resolved::Char(c) => {
            let mut piece = String::new();
            piece.push(c);
            assert(piece@ =~= seq![c]);
            Ok((piece, n + 2))
        },
        Resolved::Unknown => {
            if lenient {
                let piece = string_of(slice_subrange(s, 0, n + 2));
                assert(piece@ =~= s@.take(n + 2));
                Ok((piece, n + 2))
            } else {
                Err(
                    join3(
                        "unknown entity reference '&",
                        &string_of(body),
                        ";' (only XML's five predefined entities and character references are decoded; lenient mode passes unknown named entities through)",
                    ),
                )
            }
        },
        Resolved::Invalid(message) => Err(message),
    }
}

/// Decodes a run of characters.
pub fn decode_chars(s: &[char], lenient: bool) -> (r: Result<String, String>)
    ensures
        result_view(r) == decoded(s@, lenient),
{
    let mut out = String::new();
    let mut i: usize = 0;
    assert(s@.skip(0) =~= s@);
    assert(prefixed(out@, decoded(s@, lenient)) == decoded(s@, lenient)) by {
        if let Ok(t) = decoded(s@, lenient) {
            assert(out@ + t =~= t);
        }
    }
    while i < s.len()
        invariant
            i <= s@.len(),
            decoded(s@, lenient) == prefixed(out@, decoded(s@.skip(i as int), lenient)),
        decreases s@.len() - i,
    {
        let ghost rest = s@.skip(i as int);
        let ghost before = out@;
        if s[i] != '&' {
            out.push(s[i]);
            proof {
                assert(rest.skip(1) =~= s@.skip(i + 1));
                lemma_prefixed(before, seq![rest[0]], decoded(rest.skip(1), lenient));
                assert(out@ =~= before + seq![rest[0]]);
            }
            i = i + 1;
        } else {
            match decode_reference(slice_subrange(s, i, s.len()), lenient) {
                Ok((piece, n)) => {
                    out.append(&piece);
                    proof {
                        assert(rest.skip(n as int) =~= s@.skip(i + n));
                        lemma_prefixed(before, piece@, decoded(rest.skip(n as int), lenient));
                    }
                    i = i + n;
                },
                Err(message) => {
                    return Err(message);
                },
            }
        }
    }
    assert(s@.skip(i as int) =~= seq![]);
    assert(out@ + Seq::<char>::empty() =~= out@);
    Ok(out)
}

/// Prefixes join.
proof fn lemma_prefixed(a: Seq<char>, b: Seq<char>, r: Result<Seq<char>, Seq<char>>)
    ensures
        prefixed(a, prefixed(b, r)) == prefixed(a + b, r),
{
    if let Ok(t) = r {
        assert(a + (b + t) =~= a + b + t);
    }
}

/// Text without an ampersand decodes to itself.
pub proof fn law_plain_text_is_unchanged(s: Seq<char>, lenient: bool)
    requires
        !s.contains('&'),
    ensures
        decoded(s, lenient) == Ok::<Seq<char>, Seq<char>>(s),
    decreases s.len(),
{
    if s.len() == 0 {
        assert(s =~= seq![]);
    } else {
        assert(s.contains(s[0]));
        assert forall|i: int| 0 <= i < s.skip(1).len() implies s.skip(1)[i] != '&' by {
            assert(s.contains(s[i + 1]));
        }
        law_plain_text_is_unchanged(s.skip(1), lenient);
        assert(seq![s[0]] + s.skip(1) =~= s);
    }
}

/// Lenient mode only adds: what decodes strictly decodes leniently to the
/// same text.
pub proof fn law_lenient_extends_strict(s: Seq<char>)
    ensures
        decoded(s, false) is Ok ==> decoded(s, true) == decoded(s, false),
    decreases s.len(),
{
    if s.len() > 0 {
        if s[0] != '&' {
            law_lenient_extends_strict(s.skip(1));
        } else if let Some(n) = body_len(s.skip(1)) {
            lemma_body_len(s.skip(1));
            law_lenient_extends_strict(s.skip(n + 2));
        }
    }
}

/// References decode independently of what follows them: text that decodes
/// by itself decodes to the same in front of any other text.
pub proof fn law_decoding_is_compositional(a: Seq<char>, b: Seq<char>, lenient: bool)
    requires
        decoded(a, lenient) is Ok,
    ensures
        decoded(a + b, lenient) == prefixed(decoded(a, lenient)->Ok_0, decoded(b, lenient)),
    decreases a.len(),
{
    let s = a + b;
    if a.len() == 0 {
        assert(s =~= b);
        if let Ok(t) = decoded(b, lenient) {
            assert(decoded(a, lenient)->Ok_0 + t =~= t);
        }
    } else if a[0] != '&' {
        assert(s.skip(1) =~= a.skip(1) + b);
        law_decoding_is_compositional(a.skip(1), b, lenient);
        lemma_prefixed(seq![a[0]], decoded(a.skip(1), lenient)->Ok_0, decoded(b, lenient));
    } else {
        lemma_body_len(a.skip(1));
        let n = body_len(a.skip(1))->0;
        let t = s.skip(1);
        assert(body_len(t) == Some(n)) by {
            let w = if t.len() > MAX_ENTITY_LEN + 1 {
                t.take(MAX_ENTITY_LEN + 1)
            } else {
                t
            };
            assert(w[n] == a.skip(1)[n]);
            assert forall|j: int| 0 <= j < n implies !text::equal_to(';')(#[trigger] w[j]) by {
                assert(w[j] == a.skip(1).take(n)[j]);
            }
            text::lemma_first_where(w, text::equal_to(';'), n);
        }
        assert(s.subrange(1, n + 1) =~= a.subrange(1, n + 1));
        assert(s.take(n + 2) =~= a.take(n + 2));
        assert(s.skip(n + 2) =~= a.skip(n + 2) + b);
        law_decoding_is_compositional(a.skip(n + 2), b, lenient);
        let tail = decoded(a.skip(n + 2), lenient)->Ok_0;
        match reference(a.subrange(1, n + 1)) {
            Reference::Char(c) => lemma_prefixed(seq![c], tail, decoded(b, lenient)),
            _ => lemma_prefixed(a.take(n + 2), tail, decoded(b, lenient)),
        }
    }
}

/// A malformed reference (unterminated, no name, no XML character) is an
/// error in both modes, wherever it stands.
pub proof fn law_malformed_references_always_fail(a: Seq<char>, s: Seq<char>, lenient: bool)
    requires
        decoded(a, lenient) is Ok,
        s.len() > 0,
        s[0] == '&',
        match body_len(s.skip(1)) {
            None => true,
            Some(n) => reference(s.subrange(1, n + 1)) is Invalid,
        },
    ensures
        decoded(a + s, lenient) is Err,
{
    lemma_body_len(s.skip(1));
    law_decoding_is_compositional(a, s, lenient);
}

/// The hexadecimal digit `d`, in either case.
pub open spec fn hex_digit(d: int, upper: bool) -> char {
    if d < 10 {
        ('0' as int + d) as char
    } else if upper {
        ('A' as int + d - 10) as char
    } else {
        ('a' as int + d - 10) as char
    }
}

/// `n` in hexadecimal, without leading zeros.
pub open spec fn hexadecimal(n: nat, upper: bool) -> Seq<char>
    decreases n,
{
    if n < 16 {
        seq![hex_digit(n as int, upper)]
    } else {
        hexadecimal(n / 16, upper).push(hex_digit((n % 16) as int, upper))
    }
}

/// `n` zeros.
pub open spec fn zeros(n: nat) -> Seq<char> {
    Seq::new(n, |i: int| '0')
}

/// Digits of base ten or sixteen.
spec fn hex_digits(s: Seq<char>) -> bool {
    forall|i: int|
        0 <= i < s.len() ==> {
            let c = #[trigger] s[i];
            '0' <= c <= '9' || 'a' <= c <= 'f' || 'A' <= c <= 'F'
        }
}

proof fn lemma_hexadecimal(n: nat, upper: bool)
    ensures
        hexadecimal(n, upper).len() > 0,
        hex_digits(hexadecimal(n, upper)),
        number::digits_value(hexadecimal(n, upper), 16) == Some(n as int),
    decreases n,
{
    let s = hexadecimal(n, upper);
    if n < 16 {
        assert(s.drop_last() =~= seq![]);
        assert(number::digits_value(s.drop_last(), 16) == Some(0int));
        assert(number::digit_of(s.last(), 16) == Some(n as int));
    } else {
        lemma_hexadecimal(n / 16, upper);
        let init = hexadecimal(n / 16, upper);
        let d = (n % 16) as int;
        assert(s.drop_last() =~= init);
        assert(number::digit_of(s.last(), 16) == Some(d));
        assert forall|i: int| 0 <= i < s.len() implies {
            let c = #[trigger] s[i];
            '0' <= c <= '9' || 'a' <= c <= 'f' || 'A' <= c <= 'F'
        } by {
            if i < init.len() {
                assert(s[i] == init[i]);
            }
        }
    }
}

/// Zeros in front of digits add nothing.
proof fn lemma_zeros(n: nat, s: Seq<char>, radix: int)
    requires
        radix == 10 || radix == 16,
        number::digits_value(s, radix) is Some,
    ensures
        number::digits_value(zeros(n) + s, radix) == number::digits_value(s, radix),
    decreases n + s.len(),
{
    let t = zeros(n) + s;
    if s.len() > 0 {
        lemma_zeros(n, s.drop_last(), radix);
        assert(t.drop_last() =~= zeros(n) + s.drop_last());
    } else if n > 0 {
        lemma_zeros((n - 1) as nat, s, radix);
        assert(t.drop_last() =~= zeros((n - 1) as nat) + s);
        assert(t.last() == '0');
    } else {
        assert(t =~= s);
    }
}

/// One reference, with nothing around it.
proof fn lemma_lone_reference(body: Seq<char>, lenient: bool)
    requires
        body.len() <= 40,
        !body.contains(';'),
    ensures
        decoded(seq!['&'] + body + seq![';'], lenient) == (match reference(body) {
            Reference::Char(c) => Ok::<Seq<char>, Seq<char>>(seq![c]),
            Reference::Unknown => if lenient {
                Ok::<Seq<char>, Seq<char>>(seq!['&'] + body + seq![';'])
            } else {
                Err(unknown_message(body))
            },
            Reference::Invalid(m) => Err(m),
        }),
{
    let s = seq!['&'] + body + seq![';'];
    let rest = s.skip(1);
    let n = body.len() as int;
    assert(rest =~= body + seq![';']);
    let w = if rest.len() > MAX_ENTITY_LEN + 1 {
        rest.take(MAX_ENTITY_LEN + 1)
    } else {
        rest
    };
    assert forall|j: int| 0 <= j < n implies !text::equal_to(';')(#[trigger] w[j]) by {
        assert(w[j] == body[j]);
        assert(body.contains(body[j]));
    }
    assert(w[n] == ';');
    text::lemma_first_where(w, text::equal_to(';'), n);
    assert(s.subrange(1, n + 1) =~= body);
    assert(s.skip(n + 2) =~= seq![]);
    assert(s.take(n + 2) =~= s);
    assert(decoded(s.skip(n + 2), lenient) == Ok::<Seq<char>, Seq<char>>(seq![]));
    assert(s + Seq::<char>::empty() =~= s);
    if let Reference::Char(c) = reference(body) {
        assert(seq![c] + Seq::<char>::empty() =~= seq![c]);
    }
}

/// A numeric body is no predefined name.
proof fn lemma_numeric_body(num: Seq<char>)
    ensures
        reference(seq!['#'] + num) == numeric_reference(num),
{
    let body = seq!['#'] + num;
    reveal_strlit("amp");
    reveal_strlit("lt");
    reveal_strlit("gt");
    reveal_strlit("quot");
    reveal_strlit("apos");
    assert(body[0] == '#');
    assert("amp"@[0] == 'a' && "lt"@[0] == 'l' && "gt"@[0] == 'g' && "quot"@[0] == 'q'
        && "apos"@[0] == 'a');
    assert(body.skip(1) =~= num);
}

/// The characters that a document may refer to.
pub open spec fn may_be_referred_to(n: int) -> bool {
    ||| n == 0x9 || n == 0xa || n == 0xd
    ||| 0x20 <= n < 0xd800
    ||| 0xe000 <= n < 0xfffe
    ||| 0x10000 <= n < 0x110000
}

/// What the text behind `&#` of a hexadecimal reference looks like.
pub open spec fn hex_text(n: nat, pad: nat, x: char, upper: bool) -> Seq<char> {
    seq![x] + (zeros(pad) + hexadecimal(n, upper))
}

spec fn numeric_outcome(n: nat, num: Seq<char>) -> Result<Seq<char>, Seq<char>> {
    match numeric_reference(num) {
        Reference::Char(c) => Ok(seq![n as char]),
        Reference::Unknown => Ok(num),
        Reference::Invalid(m) => Err(m),
    }
}

proof fn lemma_numeric_outcome(n: nat, num: Seq<char>, lenient: bool)
    requires
        0 < num.len() <= 39,
        num[0] == 'x' || num[0] == 'X' ==> num.len() > 1 && number::digits_value(num.skip(1), 16)
            == Some(n as int) && hex_digits(num.skip(1)),
        num[0] != 'x' && num[0] != 'X' ==> number::digits_value(num, 10) == Some(n as int)
            && text::all_digits(num),
    ensures
        decoded(seq!['&', '#'] + num + seq![';'], lenient) == numeric_outcome(n, num),
        may_be_referred_to(n as int) <==> numeric_reference(num) is Char,
{
    let body = seq!['#'] + num;
    lemma_numeric_body(num);
    if num[0] == 'x' || num[0] == 'X' {
        assert forall|i: int| 0 <= i < body.len() implies body[i] != ';' by {
            if i > 1 {
                assert(body[i] == num.skip(1)[i - 2]);
            }
        }
        assert(num.skip(1)[0] != '+');
    } else {
        assert forall|i: int| 0 <= i < body.len() implies body[i] != ';' by {
            if i > 0 {
                assert(body[i] == num[i - 1]);
                assert('0' <= num[i - 1] <= '9');
            }
        }
        assert('0' <= num[0] <= '9');
    }
    lemma_lone_reference(body, lenient);
    assert(seq!['&'] + body + seq![';'] =~= seq!['&', '#'] + num + seq![';']);
}

/// A numeric reference stands for the character that it numbers: of every
/// character that a document may refer to, the decimal and the hexadecimal
/// reference decode to that very character, with leading zeros and in either
/// case.
pub proof fn law_numeric_references_give_their_character(
    c: char,
    pad: nat,
    x: char,
    upper: bool,
    lenient: bool,
)
    requires
        may_be_referred_to(c as u32 as int),
        x == 'x' || x == 'X',
        pad <= 30,
    ensures
        decoded(
            seq!['&', '#'] + zeros(pad) + number::decimal(c as u32 as nat) + seq![';'],
            lenient,
        ) == Ok::<Seq<char>, Seq<char>>(seq![c]),
        decoded(
            seq!['&', '#', x] + zeros(pad) + hexadecimal(c as u32 as nat, upper) + seq![';'],
            lenient,
        ) == Ok::<Seq<char>, Seq<char>>(seq![c]),
{
    let n = c as u32 as nat;
    let digits = zeros(pad) + number::decimal(n);
    let num = hex_text(n, pad, x, upper);
    lemma_short(n, upper);
    reading::lemma_decimal(n);
    lemma_hexadecimal(n, upper);
    lemma_zeros(pad, number::decimal(n), 10);
    lemma_zeros(pad, hexadecimal(n, upper), 16);
    assert(text::all_digits(digits)) by {
        assert forall|i: int| 0 <= i < digits.len() implies '0' <= #[trigger] digits[i] <= '9' by {
            if i >= pad {
                assert(digits[i] == number::decimal(n)[i - pad]);
            }
        }
    }
    assert(num.skip(1) =~= zeros(pad) + hexadecimal(n, upper));
    assert forall|i: int| 0 <= i < num.skip(1).len() implies {
        let d = #[trigger] num.skip(1)[i];
        '0' <= d <= '9' || 'a' <= d <= 'f' || 'A' <= d <= 'F'
    } by {
        if i >= pad {
            assert(num.skip(1)[i] == hexadecimal(n, upper)[i - pad]);
        }
    }
    lemma_numeric_outcome(n, digits, lenient);
    lemma_numeric_outcome(n, num, lenient);
    assert((n as char) == c);
    assert(seq!['&', '#'] + digits + seq![';'] =~= seq!['&', '#'] + zeros(pad) + number::decimal(n)
        + seq![';']);
    assert(seq!['&', '#'] + num + seq![';'] =~= seq!['&', '#', x] + zeros(pad) + hexadecimal(
        n,
        upper,
    ) + seq![';']);
}

/// Code points are short.
proof fn lemma_short(n: nat, upper: bool)
    requires
        n < 0x110000,
    ensures
        number::decimal(n).len() <= 7,
        hexadecimal(n, upper).len() <= 6,
{
    reveal_with_fuel(number::decimal, 8);
    reveal_with_fuel(hexadecimal, 7);
}

/// A number that is no character of XML (a control character, a surrogate,
/// U+FFFE, U+FFFF, or beyond the last code point) is refused in both modes.
pub proof fn law_other_numbers_are_refused(n: nat, x: char, upper: bool, lenient: bool)
    requires
        !may_be_referred_to(n as int),
        x == 'x' || x == 'X',
    ensures
        number::decimal(n).len() <= 39 ==> decoded(
            seq!['&', '#'] + number::decimal(n) + seq![';'],
            lenient,
        ) is Err,
        hexadecimal(n, upper).len() <= 38 ==> decoded(
            seq!['&', '#', x] + hexadecimal(n, upper) + seq![';'],
            lenient,
        ) is Err,
{
    let num = seq![x] + hexadecimal(n, upper);
    reading::lemma_decimal(n);
    lemma_hexadecimal(n, upper);
    assert(num.skip(1) =~= hexadecimal(n, upper));
    if number::decimal(n).len() <= 39 {
        assert('0' <= number::decimal(n)[0] <= '9');
        lemma_numeric_outcome(n, number::decimal(n), lenient);
        lemma_not_unknown(number::decimal(n));
    }
    if hexadecimal(n, upper).len() <= 38 {
        lemma_numeric_outcome(n, num, lenient);
        lemma_not_unknown(num);
        assert(seq!['&', '#'] + num + seq![';'] =~= seq!['&', '#', x] + hexadecimal(n, upper)
            + seq![';']);
    }
}

proof fn lemma_not_unknown(num: Seq<char>)
    ensures
        !(numeric_reference(num) is Unknown),
{
}

/// How a writer puts a character into XML text: the five marks by name, all
/// others as they are.
pub open spec fn xml_escape(c: char) -> Seq<char> {
    if c == '&' {
        "&amp;"@
    } else if c == '<' {
        "&lt;"@
    } else if c == '>' {
        "&gt;"@
    } else if c == '"' {
        "&quot;"@
    } else if c == '\'' {
        "&apos;"@
    } else {
        seq![c]
    }
}

/// How a writer puts text into XML.
pub open spec fn xml_escaped(s: Seq<char>) -> Seq<char>
    decreases s.len(),
{
    if s.len() == 0 {
        seq![]
    } else {
        xml_escape(s[0]) + xml_escaped(s.skip(1))
    }
}

proof fn lemma_named(name: Seq<char>, lenient: bool)
    requires
        name.len() <= 4,
        !name.contains(';'),
        reference(name) is Char,
    ensures
        decoded(seq!['&'] + name + seq![';'], lenient) == Ok::<Seq<char>, Seq<char>>(
            seq![reference(name)->Char_0],
        ),
{
    lemma_lone_reference(name, lenient);
}

proof fn lemma_xml_escape(c: char, lenient: bool)
    ensures
        decoded(xml_escape(c), lenient) == Ok::<Seq<char>, Seq<char>>(seq![c]),
{
    reveal_strlit("amp");
    reveal_strlit("lt");
    reveal_strlit("gt");
    reveal_strlit("quot");
    reveal_strlit("apos");
    reveal_strlit("&amp;");
    reveal_strlit("&lt;");
    reveal_strlit("&gt;");
    reveal_strlit("&quot;");
    reveal_strlit("&apos;");
    assert("amp"@ =~= seq!['a', 'm', 'p']);
    assert("lt"@ =~= seq!['l', 't']);
    assert("gt"@ =~= seq!['g', 't']);
    assert("quot"@ =~= seq!['q', 'u', 'o', 't']);
    assert("apos"@ =~= seq!['a', 'p', 'o', 's']);
    assert("&amp;"@ =~= seq!['&'] + "amp"@ + seq![';']);
    assert("&lt;"@ =~= seq!['&'] + "lt"@ + seq![';']);
    assert("&gt;"@ =~= seq!['&'] + "gt"@ + seq![';']);
    assert("&quot;"@ =~= seq!['&'] + "quot"@ + seq![';']);
    assert("&apos;"@ =~= seq!['&'] + "apos"@ + seq![';']);
    assert("amp"@.len() == 3 && "lt"@.len() == 2 && "gt"@.len() == 2 && "quot"@.len() == 4
        && "apos"@.len() == 4);
    assert("lt"@[0] == 'l' && "gt"@[0] == 'g' && "quot"@[0] == 'q' && "apos"@[0] == 'a');
    if c == '&' {
        lemma_named("amp"@, lenient);
    } else if c == '<' {
        lemma_named("lt"@, lenient);
    } else if c == '>' {
        lemma_named("gt"@, lenient);
    } else if c == '"' {
        lemma_named("quot"@, lenient);
    } else if c == '\'' {
        lemma_named("apos"@, lenient);
    } else {
        assert(!seq![c].contains('&'));
        law_plain_text_is_unchanged(seq![c], lenient);
    }
}

/// Text that a writer has escaped decodes back to what it was, in both modes:
/// the five predefined names stand for the five marks.
pub proof fn law_escaped_text_decodes_back(s: Seq<char>, lenient: bool)
    ensures
        decoded(xml_escaped(s), lenient) == Ok::<Seq<char>, Seq<char>>(s),
    decreases s.len(),
{
    if s.len() == 0 {
        assert(s =~= seq![]);
    } else {
        law_escaped_text_decodes_back(s.skip(1), lenient);
        lemma_xml_escape(s[0], lenient);
        law_decoding_is_compositional(xml_escape(s[0]), xml_escaped(s.skip(1)), lenient);
        assert(seq![s[0]] + s.skip(1) =~= s);
    }
}

/// A name of ASCII letters and digits that is none of the five is passed
/// through in lenient mode and refused, by name, in strict mode.
pub proof fn law_unknown_names_pass_only_in_lenient_mode(name: Seq<char>)
    requires
        0 < name.len() <= 40,
        forall|i: int|
            0 <= i < name.len() ==> {
                let c = #[trigger] name[i];
                '0' <= c <= '9' || 'a' <= c <= 'z' || 'A' <= c <= 'Z' || c == '_' || c == '-' || c
                    == '.'
            },
        forall|i: int| 0 <= i < name.len() ==> is_name_char(#[trigger] name[i]),
        name != "amp"@,
        name != "lt"@,
        name != "gt"@,
        name != "quot"@,
        name != "apos"@,
    ensures
        decoded(seq!['&'] + name + seq![';'], true) == Ok::<Seq<char>, Seq<char>>(
            seq!['&'] + name + seq![';'],
        ),
        decoded(seq!['&'] + name + seq![';'], false) is Err,
{
    assert forall|i: int| 0 <= i < name.len() implies name[i] != ';' by {}
    lemma_lone_reference(name, true);
    lemma_lone_reference(name, false);
}

} // verus!
