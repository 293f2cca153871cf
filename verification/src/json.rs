//! A small JSON reader: enough to walk a board export (objects, arrays,
//! strings, numbers, booleans, null) and pull fields out of it.
use vstd::prelude::*;
use crate::text::{
    is_ws, all_ws, is_digit, int_decimal, push_char, push_u64_decimal, str_eq, collect_chars, is_whitespace,
    is_ascii_digit,
};

verus! {

broadcast use vstd::std_specs::vec::group_vec_axioms, vstd::seq::group_seq_axioms;

/// A parsed JSON value. A number keeps the literal text it was written with;
/// an object keeps its members in document order, duplicates included.
#[derive(Debug)]
pub enum Value {
    Null,
    Bool(bool),
    Number(String),
    String(String),
    Array(Vec<Value>),
    Object(Vec<(String, Value)>),
}

/// The mathematical model of a JSON value.
pub enum Json {
    Null,
    Bool(bool),
    Number(Seq<char>),
    Str(Seq<char>),
    Array(Seq<Json>),
    Object(Seq<(Seq<char>, Json)>),
}

/// The model of a value.
pub open spec fn json_of(v: Value) -> Json
    decreases v,
{
    match v {
        Value::Null => Json::Null,
        Value::Bool(b) => Json::Bool(b),
        Value::Number(t) => Json::Number(t@),
        Value::String(t) => Json::Str(t@),
        Value::Array(items) => Json::Array(json_items(items@)),
        Value::Object(pairs) => Json::Object(json_members(pairs@)),
    }
}

/// The models of a sequence of values.
pub open spec fn json_items(items: Seq<Value>) -> Seq<Json>
    decreases items,
{
    Seq::new(
        items.len(),
        |i: int|
            if 0 <= i < items.len() {
                json_of(items[i])
            } else {
                Json::Null
            },
    )
}

/// The models of a sequence of object members.
pub open spec fn json_members(pairs: Seq<(String, Value)>) -> Seq<(Seq<char>, Json)>
    decreases pairs,
{
    Seq::new(
        pairs.len(),
        |i: int|
            if 0 <= i < pairs.len() {
                (pairs[i].0@, json_of(pairs[i].1))
            } else {
                (Seq::empty(), Json::Null)
            },
    )
}

// ----- The grammar, as read left to right from a position in a sequence of characters. -----
// Each reader returns the value read and the position just after it, or the error message.

/// The first position at or after `p` that does not hold whitespace.
pub open spec fn scan_ws(s: Seq<char>, p: int) -> int
    decreases s.len() - p,
{
    if 0 <= p < s.len() && is_ws(s[p]) {
        scan_ws(s, p + 1)
    } else {
        p
    }
}

/// The first position at or after `p` that does not hold an ASCII digit.
pub open spec fn scan_digits(s: Seq<char>, p: int) -> int
    decreases s.len() - p,
{
    if 0 <= p < s.len() && is_digit(s[p]) {
        scan_digits(s, p + 1)
    } else {
        p
    }
}

/// Error: the input ended where a value was expected.
pub open spec fn msg_end_of_input() -> Seq<char> {
    "unexpected end of input"@
}

/// Error: a string literal has no closing quote.
pub open spec fn msg_unterminated() -> Seq<char> {
    "unterminated string"@
}

/// Error: a backslash is followed by no known escape letter.
pub open spec fn msg_bad_escape() -> Seq<char> {
    "invalid escape sequence in string"@
}

/// Error: the input ended inside a `\u` escape.
pub open spec fn msg_hex_end() -> Seq<char> {
    "unexpected end of input in \\u escape"@
}

/// Error: a `\u` escape holds a non-hexadecimal character.
pub open spec fn msg_hex_digit() -> Seq<char> {
    "invalid hex digit in \\u escape"@
}

/// Error: a high surrogate escape is not followed by another `\u` escape.
pub open spec fn msg_low_surrogate() -> Seq<char> {
    "expected low surrogate after high surrogate"@
}

/// Error: an array element is followed by neither `,` nor `]`.
pub open spec fn msg_array_sep() -> Seq<char> {
    "expected ',' or ']' in array"@
}

/// Error: an object member does not start with a string key.
pub open spec fn msg_object_key() -> Seq<char> {
    "expected string key in object"@
}

/// Error: an object key is not followed by `:`.
pub open spec fn msg_object_colon() -> Seq<char> {
    "expected ':' after object key"@
}

/// Error: an object member is followed by neither `,` nor `}`.
pub open spec fn msg_object_sep() -> Seq<char> {
    "expected ',' or '}' in object"@
}

/// The outcome of a reader that would stop without consuming anything. It lets
/// the definitions terminate; no reader stops without progress, so the exec
/// parser, which agrees with them, never reports it.
pub open spec fn msg_no_progress() -> Seq<char> {
    "no progress"@
}

/// Error: no value starts with character `c` at position `p`.
pub open spec fn msg_unexpected_char(c: char, p: int) -> Seq<char> {
    "unexpected character '"@ + seq![c] + "' at position "@ + int_decimal(p)
}

/// Error: a `true`, `false` or `null` is misspelt; `p` is just past the offending character.
pub open spec fn msg_bad_literal(p: int) -> Seq<char> {
    "invalid literal near position "@ + int_decimal(p)
}

/// Error: the text of a number is no float literal.
pub open spec fn msg_bad_number(text: Seq<char>) -> Seq<char> {
    "invalid number '"@ + text + "': invalid float literal"@
}

/// Error: something other than whitespace follows the document's value at `p`.
pub open spec fn msg_trailing(p: int) -> Seq<char> {
    "unexpected trailing data at position "@ + int_decimal(p)
}

/// The value of a hexadecimal digit, if `c` is one (either case).
pub open spec fn hex_digit(c: char) -> Option<int> {
    if '0' <= c <= '9' {
        Some(c as int - 48)
    } else if 'a' <= c <= 'f' {
        Some(c as int - 87)
    } else if 'A' <= c <= 'F' {
        Some(c as int - 55)
    } else {
        None
    }
}

/// The value of the `n` hexadecimal digits at `q`, read left to right; the first
/// missing or invalid digit decides the error.
pub open spec fn hex_run(s: Seq<char>, q: int, n: nat) -> Result<int, Seq<char>>
    decreases n,
{
    if n == 0 {
        Ok(0)
    } else {
        match hex_run(s, q, (n - 1) as nat) {
            Err(m) => Err(m),
            Ok(v) => {
                let at = q + n - 1;
                if !(0 <= at < s.len()) {
                    Err(msg_hex_end())
                } else {
                    match hex_digit(s[at]) {
                        Some(d) => Ok(v * 16 + d),
                        None => Err(msg_hex_digit()),
                    }
                }
            },
        }
    }
}

/// Whether a code point is a Unicode scalar value (what `char::from_u32` accepts).
pub open spec fn is_scalar(u: int) -> bool {
    0 <= u <= 0x10FFFF && !(0xD800 <= u <= 0xDFFF)
}

/// The characters contributed by a code point: the character itself, or nothing
/// when it is not a scalar value.
pub open spec fn code_point_chars(u: int) -> Seq<char> {
    if is_scalar(u) {
        seq![u as char]
    } else {
        Seq::empty()
    }
}

/// The code point of a surrogate pair `hi`, `lo`; `lo - 0xDC00` wraps at 16 bits
/// when `lo` is no low surrogate.
pub open spec fn pair_code_point(hi: int, lo: int) -> int {
    0x10000 + (hi - 0xD800) * 1024 + ((lo - 0xDC00) % 0x10000)
}

/// A `\u` escape whose four hex digits start at `q`: the characters it
/// contributes and the position after it.
pub open spec fn unicode_escape(s: Seq<char>, q: int) -> Result<(Seq<char>, int), Seq<char>> {
    match hex_run(s, q, 4) {
        Err(m) => Err(m),
        Ok(cp) => if 0xD800 <= cp <= 0xDBFF {
            if !(0 <= q + 4 < s.len() && s[q + 4] == '\\') || !(q + 5 < s.len() && s[q + 5] == 'u') {
                Err(msg_low_surrogate())
            } else {
                match hex_run(s, q + 6, 4) {
                    Err(m) => Err(m),
                    Ok(lo) => Ok((code_point_chars(pair_code_point(cp, lo)), q + 10)),
                }
            }
        } else {
            Ok((code_point_chars(cp), q + 4))
        },
    }
}

/// The character that a one-letter escape stands for.
pub open spec fn simple_escape(c: char) -> Option<char> {
    if c == '"' {
        Some('"')
    } else if c == '\\' {
        Some('\\')
    } else if c == '/' {
        Some('/')
    } else if c == 'b' {
        Some('\u{0008}')
    } else if c == 'f' {
        Some('\u{000C}')
    } else if c == 'n' {
        Some('\n')
    } else if c == 'r' {
        Some('\r')
    } else if c == 't' {
        Some('\t')
    } else {
        None
    }
}

/// The rest of a string literal from `q` (just after the opening quote or an
/// earlier piece): its decoded characters and the position after the closing quote.
pub open spec fn string_body(s: Seq<char>, q: int) -> Result<(Seq<char>, int), Seq<char>>
    decreases s.len() - q,
{
    if !(0 <= q < s.len()) {
        Err(msg_unterminated())
    } else if s[q] == '"' {
        Ok((Seq::empty(), q + 1))
    } else if s[q] == '\\' {
        if !(q + 1 < s.len()) {
            Err(msg_bad_escape())
        } else if s[q + 1] == 'u' {
            match unicode_escape(s, q + 2) {
                Err(m) => Err(m),
                Ok((cs, next)) => if next <= q {
                    Err(msg_no_progress())
                } else {
                    match string_body(s, next) {
                        Err(m) => Err(m),
                        Ok((rest, e)) => Ok((cs + rest, e)),
                    }
                },
            }
        } else {
            match simple_escape(s[q + 1]) {
                None => Err(msg_bad_escape()),
                Some(c) => match string_body(s, q + 2) {
                    Err(m) => Err(m),
                    Ok((rest, e)) => Ok((seq![c] + rest, e)),
                },
            }
        }
    } else {
        match string_body(s, q + 1) {
            Err(m) => Err(m),
            Ok((rest, e)) => Ok((seq![s[q]] + rest, e)),
        }
    }
}

/// The keyword `word` at `p`; on a mismatch the error names the position
/// after the offending character, or the end of input.
pub open spec fn keyword_at(s: Seq<char>, p: int, word: Seq<char>, i: int) -> Result<int, Seq<char>>
    decreases word.len() - i,
{
    if !(0 <= i < word.len()) {
        Ok(p + i)
    } else if !(0 <= p + i < s.len()) {
        Err(msg_bad_literal(s.len() as int))
    } else if s[p + i] != word[i] {
        Err(msg_bad_literal(p + i + 1))
    } else {
        keyword_at(s, p, word, i + 1)
    }
}

/// The position after the number that starts at `p` (an optional minus sign,
/// digits, an optional fraction, an optional exponent, each part possibly empty),
/// and whether that text is a float literal (digits before or after the point,
/// and digits in the exponent if there is one).
pub open spec fn number_extent(s: Seq<char>, p: int) -> (int, bool) {
    let a = if p < s.len() && s[p] == '-' { p + 1 } else { p };
    let b = scan_digits(s, a);
    let has_dot = b < s.len() && s[b] == '.';
    let c = if has_dot { scan_digits(s, b + 1) } else { b };
    let has_exp = c < s.len() && (s[c] == 'e' || s[c] == 'E');
    let d0 = c + 1;
    let d = if d0 < s.len() && (s[d0] == '+' || s[d0] == '-') { d0 + 1 } else { d0 };
    let e = if has_exp { scan_digits(s, d) } else { c };
    let mantissa_ok = b > a || (has_dot && c > b + 1);
    let exponent_ok = !has_exp || e > d;
    (e, mantissa_ok && exponent_ok)
}

/// A number at `p`: its text, or the error naming that text.
pub open spec fn number_at(s: Seq<char>, p: int) -> Result<(Json, int), Seq<char>> {
    let (e, ok) = number_extent(s, p);
    let text = s.subrange(p, e);
    if ok {
        Ok((Json::Number(text), e))
    } else {
        Err(msg_bad_number(text))
    }
}

/// A JSON value at `p`, after optional leading whitespace.
pub open spec fn value_at(s: Seq<char>, p: int) -> Result<(Json, int), Seq<char>>
    decreases s.len() - p, 0nat,
{
    let q = scan_ws(s, p);
    if !(0 <= p && p <= q < s.len()) {
        Err(msg_end_of_input())
    } else {
        let c = s[q];
        if c == '{' {
            object_at(s, q + 1)
        } else if c == '[' {
            array_at(s, q + 1)
        } else if c == '"' {
            match string_body(s, q + 1) {
                Err(m) => Err(m),
                Ok((t, e)) => Ok((Json::Str(t), e)),
            }
        } else if c == 't' {
            match keyword_at(s, q, "true"@, 0) {
                Err(m) => Err(m),
                Ok(e) => Ok((Json::Bool(true), e)),
            }
        } else if c == 'f' {
            match keyword_at(s, q, "false"@, 0) {
                Err(m) => Err(m),
                Ok(e) => Ok((Json::Bool(false), e)),
            }
        } else if c == 'n' {
            match keyword_at(s, q, "null"@, 0) {
                Err(m) => Err(m),
                Ok(e) => Ok((Json::Null, e)),
            }
        } else if c == '-' || is_digit(c) {
            number_at(s, q)
        } else {
            Err(msg_unexpected_char(c, q))
        }
    }
}

/// The contents of an array from `p`, just after `[`.
pub open spec fn array_at(s: Seq<char>, p: int) -> Result<(Json, int), Seq<char>>
    decreases s.len() - p, 2nat,
{
    let q = scan_ws(s, p);
    if !(0 <= p <= q <= s.len()) {
        Err(msg_end_of_input())
    } else if q < s.len() && s[q] == ']' {
        Ok((Json::Array(Seq::empty()), q + 1))
    } else {
        match elements_at(s, q) {
            Err(m) => Err(m),
            Ok((items, e)) => Ok((Json::Array(items), e)),
        }
    }
}

/// Array elements from `p`: a value, then `,` and more elements, or `]`.
pub open spec fn elements_at(s: Seq<char>, p: int) -> Result<(Seq<Json>, int), Seq<char>>
    decreases s.len() - p, 1nat,
{
    if !(0 <= p <= s.len()) {
        Err(msg_end_of_input())
    } else {
        match value_at(s, p) {
            Err(m) => Err(m),
            Ok((v, q)) => {
                let r = scan_ws(s, q);
                if 0 <= r < s.len() && s[r] == ',' {
                    let t = scan_ws(s, r + 1);
                    if !(p < t <= s.len()) {
                        Err(msg_no_progress())
                    } else {
                        match elements_at(s, t) {
                            Err(m) => Err(m),
                            Ok((rest, e)) => Ok((seq![v] + rest, e)),
                        }
                    }
                } else if 0 <= r < s.len() && s[r] == ']' {
                    Ok((seq![v], r + 1))
                } else {
                    Err(msg_array_sep())
                }
            },
        }
    }
}

/// The contents of an object from `p`, just after `{`.
pub open spec fn object_at(s: Seq<char>, p: int) -> Result<(Json, int), Seq<char>>
    decreases s.len() - p, 2nat,
{
    let q = scan_ws(s, p);
    if !(0 <= p <= q <= s.len()) {
        Err(msg_end_of_input())
    } else if q < s.len() && s[q] == '}' {
        Ok((Json::Object(Seq::empty()), q + 1))
    } else {
        match members_at(s, q) {
            Err(m) => Err(m),
            Ok((pairs, e)) => Ok((Json::Object(pairs), e)),
        }
    }
}

/// Object members from `p`: a string key, `:`, a value, then `,` and more members, or `}`.
pub open spec fn members_at(s: Seq<char>, p: int) -> Result<(Seq<(Seq<char>, Json)>, int), Seq<char>>
    decreases s.len() - p, 1nat,
{
    let q = scan_ws(s, p);
    if !(0 <= p <= q < s.len() && s[q] == '"') {
        Err(msg_object_key())
    } else {
        match string_body(s, q + 1) {
            Err(m) => Err(m),
            Ok((k, a)) => {
                let b = scan_ws(s, a);
                if !(q < a <= b < s.len() && s[b] == ':') {
                    Err(msg_object_colon())
                } else {
                    match value_at(s, b + 1) {
                        Err(m) => Err(m),
                        Ok((v, c)) => {
                            let d = scan_ws(s, c);
                            if 0 <= d < s.len() && s[d] == ',' {
                                let t = scan_ws(s, d + 1);
                                if !(p < t <= s.len()) {
                                    Err(msg_no_progress())
                                } else {
                                    match members_at(s, t) {
                                        Err(m) => Err(m),
                                        Ok((rest, e)) => Ok((seq![(k, v)] + rest, e)),
                                    }
                                }
                            } else if 0 <= d < s.len() && s[d] == '}' {
                                Ok((seq![(k, v)], d + 1))
                            } else {
                                Err(msg_object_sep())
                            }
                        },
                    }
                }
            },
        }
    }
}

/// A whole document: one value with optional whitespace around it.
pub open spec fn document(s: Seq<char>) -> Result<Json, Seq<char>> {
    match value_at(s, 0) {
        Err(m) => Err(m),
        Ok((v, q)) => {
            let r = scan_ws(s, q);
            if r != s.len() {
                Err(msg_trailing(r))
            } else {
                Ok(v)
            }
        },
    }
}

// ----- Facts about the readers. -----

/// Skipping whitespace stays within the input and stops at non-whitespace.
pub proof fn lemma_scan_ws(s: Seq<char>, p: int)
    requires
        0 <= p <= s.len(),
    ensures
        p <= scan_ws(s, p) <= s.len(),
        scan_ws(s, p) < s.len() ==> !is_ws(s[scan_ws(s, p)]),
    decreases s.len() - p,
{
    if p < s.len() && is_ws(s[p]) {
        lemma_scan_ws(s, p + 1);
    }
}

/// Leading whitespace from `p` up to `q` is skipped first.
pub proof fn lemma_scan_ws_skip(t: Seq<char>, p: int, q: int)
    requires
        0 <= p <= q <= t.len(),
        forall|j: int| p <= j < q ==> is_ws(#[trigger] t[j]),
    ensures
        scan_ws(t, p) == scan_ws(t, q),
    decreases q - p,
{
    if p < q {
        assert(is_ws(t[p]));
        lemma_scan_ws_skip(t, p + 1, q);
    }
}

/// Skipping whitespace to the end passes only whitespace.
pub proof fn lemma_scan_ws_all(s: Seq<char>, p: int, j: int)
    requires
        0 <= p <= j < s.len(),
        scan_ws(s, p) == s.len(),
    ensures
        is_ws(s[j]),
    decreases j - p,
{
    if !is_ws(s[p]) {
        assert(scan_ws(s, p) == p);
    } else if p < j {
        lemma_scan_ws_all(s, p + 1, j);
    }
}

/// Skipping digits stays within the input.
pub proof fn lemma_scan_digits(s: Seq<char>, p: int)
    requires
        0 <= p <= s.len(),
    ensures
        p <= scan_digits(s, p) <= s.len(),
    decreases s.len() - p,
{
    if p < s.len() && is_digit(s[p]) {
        lemma_scan_digits(s, p + 1);
    }
}

/// A run of digits from `p` up to a non-digit (or the end) at `q` is skipped whole.
proof fn lemma_scan_digits_to(s: Seq<char>, p: int, q: int)
    requires
        0 <= p <= q <= s.len(),
        forall|j: int| p <= j < q ==> is_digit(#[trigger] s[j]),
        q == s.len() || !is_digit(s[q]),
    ensures
        scan_digits(s, p) == q,
    decreases q - p,
{
    if p < q {
        assert(is_digit(s[p]));
        lemma_scan_digits_to(s, p + 1, q);
    }
}

/// Every number literal reads whole: an optional `-`, one or more digits, an
/// optional `.` with one or more digits, and an optional `e` or `E` with an
/// optional `+` or `-` and one or more digits, is a document that reads as that
/// number, its text the whole literal.
pub proof fn law_number_literals_read(
    sign: Seq<char>,
    int_digits: Seq<char>,
    has_frac: bool,
    frac_digits: Seq<char>,
    has_exp: bool,
    e: char,
    exp_sign: Seq<char>,
    exp_digits: Seq<char>,
)
    requires
        sign == Seq::<char>::empty() || sign == seq!['-'],
        int_digits.len() > 0,
        forall|i: int| 0 <= i < int_digits.len() ==> is_digit(#[trigger] int_digits[i]),
        has_frac ==> frac_digits.len() > 0,
        forall|i: int| 0 <= i < frac_digits.len() ==> is_digit(#[trigger] frac_digits[i]),
        has_exp ==> (e == 'e' || e == 'E') && exp_digits.len() > 0,
        exp_sign == Seq::<char>::empty() || exp_sign == seq!['+'] || exp_sign == seq!['-'],
        forall|i: int| 0 <= i < exp_digits.len() ==> is_digit(#[trigger] exp_digits[i]),
    ensures
        ({
            let lit = sign + int_digits + (if has_frac { seq!['.'] + frac_digits } else { Seq::empty() }) + (
            if has_exp {
                seq![e] + exp_sign + exp_digits
            } else {
                Seq::empty()
            });
            &&& number_at(lit, 0) == Ok::<(Json, int), Seq<char>>((Json::Number(lit), lit.len() as int))
            &&& document(lit) == Ok::<Json, Seq<char>>(Json::Number(lit))
        }),
{
    let fr: Seq<char> = if has_frac { seq!['.'] + frac_digits } else { Seq::empty() };
    let ex: Seq<char> = if has_exp { seq![e] + exp_sign + exp_digits } else { Seq::empty() };
    let lit = sign + int_digits + fr + ex;
    let l1 = sign.len() as int;
    let l2 = l1 + int_digits.len();
    let l3 = l2 + fr.len();
    let len = lit.len() as int;
    assert(len == l3 + ex.len());
    // What stands where.
    assert forall|j: int| l1 <= j < l2 implies is_digit(#[trigger] lit[j]) by {
        assert(lit[j] == int_digits[j - l1]);
    }
    if has_frac {
        assert(lit[l2] == '.');
        assert forall|j: int| l2 + 1 <= j < l3 implies is_digit(#[trigger] lit[j]) by {
            assert(lit[j] == frac_digits[j - l2 - 1]);
        }
    }
    if has_exp {
        assert(lit[l3] == e);
        let d = l3 + 1 + exp_sign.len();
        if exp_sign.len() > 0 {
            assert(lit[l3 + 1] == exp_sign[0]);
        } else {
            assert(lit[l3 + 1] == exp_digits[0]);
        }
        assert forall|j: int| d <= j < len implies is_digit(#[trigger] lit[j]) by {
            assert(lit[j] == exp_digits[j - d]);
        }
        lemma_scan_digits_to(lit, d, len);
    }
    // The reader's steps.
    if sign.len() > 0 {
        assert(lit[0] == '-');
    } else {
        assert(lit[0] == int_digits[0]);
    }
    if has_frac {
        lemma_scan_digits_to(lit, l1, l2);
        lemma_scan_digits_to(lit, l2 + 1, l3);
    } else if has_exp {
        lemma_scan_digits_to(lit, l1, l2);
    } else {
        lemma_scan_digits_to(lit, l1, l2);
    }
    if has_exp {
        assert(!is_digit(lit[l3]));
    }
    assert(number_extent(lit, 0) == (len, true));
    assert(lit.subrange(0, len) =~= lit);
    assert(number_at(lit, 0) == Ok::<(Json, int), Seq<char>>((Json::Number(lit), len)));
    assert(!is_ws(lit[0]));
    assert(scan_ws(lit, 0) == 0);
    assert(scan_ws(lit, len) == len);
}

// ----- A document inside a larger text -----

/// `s` stands in `t` from position `k`, followed by whitespace or by the end of `t`.
spec fn embeds(t: Seq<char>, k: int, s: Seq<char>) -> bool {
    &&& 0 <= k && k + s.len() <= t.len()
    &&& forall|j: int| 0 <= j < s.len() ==> #[trigger] t[k + j] == s[j]
    &&& k + s.len() < t.len() ==> is_ws(t[k + s.len()])
}

/// Skipping whitespace that stops inside `s` stops at the same place in `t`.
proof fn lemma_scan_ws_embed(t: Seq<char>, k: int, s: Seq<char>, p: int)
    requires
        embeds(t, k, s),
        0 <= p,
        scan_ws(s, p) < s.len(),
    ensures
        scan_ws(t, k + p) == k + scan_ws(s, p),
    decreases s.len() - p,
{
    if p < s.len() {
        assert(t[k + p] == s[p]);
        if is_ws(s[p]) {
            lemma_scan_ws_embed(t, k, s, p + 1);
        }
    }
}

/// Skipping digits stops at the same place in `t`.
proof fn lemma_scan_digits_embed(t: Seq<char>, k: int, s: Seq<char>, p: int)
    requires
        embeds(t, k, s),
        0 <= p <= s.len(),
    ensures
        scan_digits(t, k + p) == k + scan_digits(s, p),
    decreases s.len() - p,
{
    if p < s.len() {
        assert(t[k + p] == s[p]);
        if is_digit(s[p]) {
            lemma_scan_digits_embed(t, k, s, p + 1);
        }
    } else if k + p < t.len() {
        assert(is_ws(t[k + p]));
    }
}

/// Hex digits read inside `s` read the same in `t`.
proof fn lemma_hex_run_embed(t: Seq<char>, k: int, s: Seq<char>, q: int, n: nat)
    requires
        embeds(t, k, s),
        0 <= q,
    ensures
        hex_run(s, q, n) is Ok ==> hex_run(t, k + q, n) == hex_run(s, q, n),
    decreases n,
{
    if n > 0 {
        lemma_hex_run_embed(t, k, s, q, (n - 1) as nat);
        let at = q + n - 1;
        if 0 <= at < s.len() {
            assert(t[k + at] == s[at]);
        }
    }
}

/// A `\u` escape read inside `s` reads the same in `t`.
proof fn lemma_unicode_escape_embed(t: Seq<char>, k: int, s: Seq<char>, q: int)
    requires
        embeds(t, k, s),
        0 <= q,
    ensures
        unicode_escape(s, q) matches Ok((cs, e)) ==> unicode_escape(t, k + q) == Ok::<(Seq<char>, int), Seq<char>>(
            (cs, k + e),
        ),
{
    lemma_hex_run_embed(t, k, s, q, 4);
    lemma_hex_run_embed(t, k, s, q + 6, 4);
    if q + 5 < s.len() {
        assert(t[k + (q + 4)] == s[q + 4]);
        assert(t[k + (q + 5)] == s[q + 5]);
    }
}

/// A string literal read inside `s` reads the same in `t`.
proof fn lemma_string_body_embed(t: Seq<char>, k: int, s: Seq<char>, q: int)
    requires
        embeds(t, k, s),
        0 <= q,
    ensures
        string_body(s, q) matches Ok((v, e)) ==> q < e && string_body(t, k + q) == Ok::<(Seq<char>, int), Seq<char>>(
            (v, k + e),
        ),
    decreases s.len() - q,
{
    if string_body(s, q) is Ok {
        assert(t[k + q] == s[q]);
        if s[q] == '"' {
        } else if s[q] == '\\' {
            assert(t[k + (q + 1)] == s[q + 1]);
            if s[q + 1] == 'u' {
                lemma_unicode_escape_embed(t, k, s, q + 2);
                let next = unicode_escape(s, q + 2)->Ok_0.1;
                lemma_string_body_embed(t, k, s, next);
            } else {
                lemma_string_body_embed(t, k, s, q + 2);
            }
        } else {
            lemma_string_body_embed(t, k, s, q + 1);
        }
    }
}

/// A keyword read inside `s` reads the same in `t`.
proof fn lemma_keyword_embed(t: Seq<char>, k: int, s: Seq<char>, p: int, word: Seq<char>, i: int)
    requires
        embeds(t, k, s),
        0 <= p,
        0 <= i,
    ensures
        keyword_at(s, p, word, i) matches Ok(e) ==> p <= e && keyword_at(t, k + p, word, i) == Ok::<int, Seq<char>>(
            k + e,
        ),
    decreases word.len() - i,
{
    if 0 <= i < word.len() && keyword_at(s, p, word, i) is Ok {
        assert(t[k + (p + i)] == s[p + i]);
        lemma_keyword_embed(t, k, s, p, word, i + 1);
    }
}

/// A number read inside `s` reads the same in `t`.
proof fn lemma_number_embed(t: Seq<char>, k: int, s: Seq<char>, p: int)
    requires
        embeds(t, k, s),
        0 <= p <= s.len(),
    ensures
        number_at(s, p) matches Ok((v, e)) ==> p <= e && number_at(t, k + p) == Ok::<(Json, int), Seq<char>>(
            (v, k + e),
        ),
{
    let len = s.len() as int;
    if p < len {
        assert(t[k + p] == s[p]);
    } else if k + p < t.len() {
        assert(is_ws(t[k + p]));
    }
    let a = if p < len && s[p] == '-' { p + 1 } else { p };
    lemma_scan_digits(s, a);
    lemma_scan_digits_embed(t, k, s, a);
    let b = scan_digits(s, a);
    if b < len {
        assert(t[k + b] == s[b]);
    } else if k + b < t.len() {
        assert(is_ws(t[k + b]));
    }
    let has_dot = b < len && s[b] == '.';
    if has_dot {
        lemma_scan_digits(s, b + 1);
        lemma_scan_digits_embed(t, k, s, b + 1);
    }
    let c = if has_dot { scan_digits(s, b + 1) } else { b };
    if c < len {
        assert(t[k + c] == s[c]);
    } else if k + c < t.len() {
        assert(is_ws(t[k + c]));
    }
    let has_exp = c < len && (s[c] == 'e' || s[c] == 'E');
    if has_exp {
        let d0 = c + 1;
        if d0 < len {
            assert(t[k + d0] == s[d0]);
        } else if k + d0 < t.len() {
            assert(is_ws(t[k + d0]));
        }
        let d = if d0 < len && (s[d0] == '+' || s[d0] == '-') { d0 + 1 } else { d0 };
        lemma_scan_digits(s, d);
        lemma_scan_digits_embed(t, k, s, d);
    }
    let e = number_extent(s, p).0;
    assert(number_extent(t, k + p).0 == k + e);
    assert(number_extent(t, k + p).1 == number_extent(s, p).1);
    assert(p <= e <= len);
    assert(t.subrange(k + p, k + e) =~= s.subrange(p, e)) by {
        assert forall|j: int| 0 <= j < e - p implies #[trigger] t.subrange(k + p, k + e)[j] == s.subrange(p, e)[j] by {
            assert(t[k + (p + j)] == s[p + j]);
        }
    }
}

/// A value read inside `s` reads the same in `t`, ending at the same place.
proof fn lemma_value_embed(t: Seq<char>, k: int, s: Seq<char>, p: int)
    requires
        embeds(t, k, s),
    ensures
        value_at(s, p) matches Ok((v, e)) ==> p <= e && value_at(t, k + p) == Ok::<(Json, int), Seq<char>>(
            (v, k + e),
        ),
    decreases s.len() - p, 0nat,
{
    if value_at(s, p) is Ok {
        let q = scan_ws(s, p);
        lemma_scan_ws(s, p);
        lemma_scan_ws_embed(t, k, s, p);
        assert(t[k + q] == s[q]);
        let c = s[q];
        if c == '{' {
            lemma_object_embed(t, k, s, q + 1);
        } else if c == '[' {
            lemma_array_embed(t, k, s, q + 1);
        } else if c == '"' {
            lemma_string_body_embed(t, k, s, q + 1);
        } else if c == 't' {
            lemma_keyword_embed(t, k, s, q, "true"@, 0);
        } else if c == 'f' {
            lemma_keyword_embed(t, k, s, q, "false"@, 0);
        } else if c == 'n' {
            lemma_keyword_embed(t, k, s, q, "null"@, 0);
        } else {
            lemma_number_embed(t, k, s, q);
        }
    }
}

/// Array contents read inside `s` read the same in `t`.
proof fn lemma_array_embed(t: Seq<char>, k: int, s: Seq<char>, p: int)
    requires
        embeds(t, k, s),
    ensures
        array_at(s, p) matches Ok((v, e)) ==> p <= e && array_at(t, k + p) == Ok::<(Json, int), Seq<char>>(
            (v, k + e),
        ),
    decreases s.len() - p, 2nat,
{
    if array_at(s, p) is Ok {
        let q = scan_ws(s, p);
        lemma_scan_ws(s, p);
        if q == s.len() {
            assert(value_at(s, q) is Err);
            assert(elements_at(s, q) is Err);
        } else {
            lemma_scan_ws_embed(t, k, s, p);
            assert(t[k + q] == s[q]);
            if s[q] != ']' {
                lemma_elements_embed(t, k, s, q);
            }
        }
    }
}

/// Skipping whitespace never moves back.
proof fn lemma_scan_ws_from(s: Seq<char>, p: int)
    ensures
        scan_ws(s, p) >= p,
    decreases s.len() - p,
{
    if 0 <= p < s.len() && is_ws(s[p]) {
        lemma_scan_ws_from(s, p + 1);
    }
}

/// One step of the array-element grammar: a value, `,`, and more elements.
proof fn lemma_elements_more(x: Seq<char>, p: int, v: Json, q: int, r: int, tt: int, rest: Seq<Json>, e: int)
    requires
        0 <= p <= x.len(),
        value_at(x, p) == Ok::<(Json, int), Seq<char>>((v, q)),
        scan_ws(x, q) == r,
        0 <= r < x.len(),
        x[r] == ',',
        scan_ws(x, r + 1) == tt,
        p < tt <= x.len(),
        elements_at(x, tt) == Ok::<(Seq<Json>, int), Seq<char>>((rest, e)),
    ensures
        elements_at(x, p) == Ok::<(Seq<Json>, int), Seq<char>>((seq![v] + rest, e)),
{
}

/// One step of the array-element grammar: a last value and `]`.
proof fn lemma_elements_last(x: Seq<char>, p: int, v: Json, q: int, r: int)
    requires
        0 <= p <= x.len(),
        value_at(x, p) == Ok::<(Json, int), Seq<char>>((v, q)),
        scan_ws(x, q) == r,
        0 <= r < x.len(),
        x[r] == ']',
    ensures
        elements_at(x, p) == Ok::<(Seq<Json>, int), Seq<char>>((seq![v], r + 1)),
{
}

/// One step of the member grammar: a key, `:`, a value, and then `e_of` decides.
proof fn lemma_members_step(
    x: Seq<char>,
    p: int,
    q: int,
    key: Seq<char>,
    a: int,
    b: int,
    v: Json,
    c: int,
    d: int,
)
    requires
        scan_ws(x, p) == q,
        0 <= p <= q < x.len() && x[q] == '"',
        string_body(x, q + 1) == Ok::<(Seq<char>, int), Seq<char>>((key, a)),
        scan_ws(x, a) == b,
        q < a <= b < x.len() && x[b] == ':',
        value_at(x, b + 1) == Ok::<(Json, int), Seq<char>>((v, c)),
        scan_ws(x, c) == d,
        0 <= d < x.len(),
    ensures
        x[d] == '}' ==> members_at(x, p) == Ok::<(Seq<(Seq<char>, Json)>, int), Seq<char>>((seq![(key, v)], d + 1)),
        x[d] == ',' ==> members_at(x, p) == (if !(p < scan_ws(x, d + 1) <= x.len()) {
            Err(msg_no_progress())
        } else {
            match members_at(x, scan_ws(x, d + 1)) {
                Err(m) => Err(m),
                Ok((rest, e)) => Ok((seq![(key, v)] + rest, e)),
            }
        }),
{
}

/// Array elements read inside `s` read the same in `t`.
proof fn lemma_elements_embed(t: Seq<char>, k: int, s: Seq<char>, p: int)
    requires
        embeds(t, k, s),
    ensures
        elements_at(s, p) matches Ok((v, e)) ==> p <= e && elements_at(t, k + p) == Ok::<(Seq<Json>, int), Seq<char>>(
            (v, k + e),
        ),
    decreases s.len() - p, 1nat,
{
    if elements_at(s, p) is Ok {
        lemma_value_embed(t, k, s, p);
        let (v, q) = value_at(s, p)->Ok_0;
        let r = scan_ws(s, q);
        lemma_scan_ws_from(s, q);
        lemma_scan_ws_embed(t, k, s, q);
        assert(t[k + r] == s[r]);
        if s[r] == ',' {
            let tt = scan_ws(s, r + 1);
            if tt == s.len() {
                assert(value_at(s, tt) is Err);
                assert(elements_at(s, tt) is Err);
            } else {
                lemma_scan_ws_embed(t, k, s, r + 1);
                lemma_elements_embed(t, k, s, tt);
                let (rest, e) = elements_at(s, tt)->Ok_0;
                lemma_elements_more(s, p, v, q, r, tt, rest, e);
                lemma_elements_more(t, k + p, v, k + q, k + r, k + tt, rest, k + e);
            }
        } else {
            lemma_elements_last(s, p, v, q, r);
            lemma_elements_last(t, k + p, v, k + q, k + r);
        }
    }
}

/// Object contents read inside `s` read the same in `t`.
proof fn lemma_object_embed(t: Seq<char>, k: int, s: Seq<char>, p: int)
    requires
        embeds(t, k, s),
    ensures
        object_at(s, p) matches Ok((v, e)) ==> p <= e && object_at(t, k + p) == Ok::<(Json, int), Seq<char>>(
            (v, k + e),
        ),
    decreases s.len() - p, 2nat,
{
    if object_at(s, p) is Ok {
        let q = scan_ws(s, p);
        lemma_scan_ws(s, p);
        if q == s.len() {
            assert(members_at(s, q) is Err);
        } else {
            lemma_scan_ws_embed(t, k, s, p);
            assert(t[k + q] == s[q]);
            if s[q] != '}' {
                lemma_members_embed(t, k, s, q);
            }
        }
    }
}

/// Object members read inside `s` read the same in `t`.
proof fn lemma_members_embed(t: Seq<char>, k: int, s: Seq<char>, p: int)
    requires
        embeds(t, k, s),
    ensures
        members_at(s, p) matches Ok((v, e)) ==> p <= e && members_at(t, k + p) == Ok::<
            (Seq<(Seq<char>, Json)>, int),
            Seq<char>,
        >((v, k + e)),
    decreases s.len() - p, 1nat,
{
    if members_at(s, p) is Ok {
        let q = scan_ws(s, p);
        lemma_scan_ws_embed(t, k, s, p);
        assert(t[k + q] == s[q]);
        lemma_string_body_embed(t, k, s, q + 1);
        let (key, a) = string_body(s, q + 1)->Ok_0;
        let b = scan_ws(s, a);
        lemma_scan_ws_embed(t, k, s, a);
        assert(t[k + b] == s[b]);
        lemma_value_embed(t, k, s, b + 1);
        let (v, c) = value_at(s, b + 1)->Ok_0;
        let d = scan_ws(s, c);
        lemma_scan_ws_from(s, c);
        lemma_scan_ws_from(s, a);
        lemma_scan_ws_embed(t, k, s, c);
        assert(t[k + d] == s[d]);
        lemma_members_step(s, p, q, key, a, b, v, c, d);
        lemma_members_step(t, k + p, k + q, key, k + a, k + b, v, k + c, k + d);
        if s[d] == ',' {
            let tt = scan_ws(s, d + 1);
            if tt == s.len() {
                assert(members_at(s, tt) is Err);
            } else {
                lemma_scan_ws_embed(t, k, s, d + 1);
                lemma_members_embed(t, k, s, tt);
            }
        }
    }
}

/// Whitespace around a document changes nothing: a document that reads as a
/// value reads as the same value with whitespace before and after it.
pub proof fn law_document_ignores_surrounding_whitespace(w1: Seq<char>, s: Seq<char>, w2: Seq<char>)
    requires
        all_ws(w1),
        all_ws(w2),
        document(s) is Ok,
    ensures
        document(w1 + s + w2) == document(s),
{
    let t = w1 + s + w2;
    let k = w1.len() as int;
    assert forall|j: int| 0 <= j < s.len() implies #[trigger] t[k + j] == s[j] by {}
    if w2.len() > 0 {
        assert(t[k + s.len()] == w2[0]);
    }
    assert(embeds(t, k, s));
    lemma_value_embed(t, k, s, 0);
    let (v, e) = value_at(s, 0)->Ok_0;
    assert forall|j: int| 0 <= j < k implies is_ws(#[trigger] t[j]) by {
        assert(t[j] == w1[j]);
    }
    lemma_scan_ws_skip(t, 0, k);
    lemma_scan_ws(t, k);
    assert(value_at(t, 0) == value_at(t, k));
    lemma_scan_ws(s, e);
    assert forall|j: int| k + e <= j < t.len() implies is_ws(#[trigger] t[j]) by {
        if j < k + s.len() {
            lemma_scan_ws_all(s, e, j - k);
            assert(t[k + (j - k)] == s[j - k]);
        } else {
            assert(t[j] == w2[j - k - s.len()]);
        }
    }
    lemma_scan_ws_skip(t, k + e, t.len() as int);
    assert(scan_ws(t, t.len() as int) == t.len());
}

/// Whether an outcome of the exec parser agrees with a reader of the grammar:
/// the same value and end position, or the same error message.
pub open spec fn agrees<T, V>(r: Result<T, String>, model: spec_fn(T) -> V, spec: Result<(V, int), Seq<char>>, pos: int) -> bool {
    match r {
        Ok(v) => spec matches Ok((w, e)) && model(v) == w && pos == e,
        Err(m) => spec matches Err(sm) && m@ == sm,
    }
}

/// The array whose first elements are `items`, followed by what `rest` read.
pub open spec fn array_with(items: Seq<Json>, rest: Result<(Seq<Json>, int), Seq<char>>) -> Result<(Json, int), Seq<char>> {
    match rest {
        Ok((more, e)) => Ok((Json::Array(items + more), e)),
        Err(m) => Err(m),
    }
}

/// The object whose first members are `pairs`, followed by what `rest` read.
pub open spec fn object_with(pairs: Seq<(Seq<char>, Json)>, rest: Result<(Seq<(Seq<char>, Json)>, int), Seq<char>>) -> Result<(Json, int), Seq<char>> {
    match rest {
        Ok((more, e)) => Ok((Json::Object(pairs + more), e)),
        Err(m) => Err(m),
    }
}

/// The string whose first characters are `t`, followed by what `rest` read.
pub open spec fn string_with(t: Seq<char>, rest: Result<(Seq<char>, int), Seq<char>>) -> Result<(Seq<char>, int), Seq<char>> {
    match rest {
        Ok((more, e)) => Ok((t + more, e)),
        Err(m) => Err(m),
    }
}

/// 16 to the power `n`.
pub open spec fn pow16(n: nat) -> int
    decreases n,
{
    if n == 0 {
        1
    } else {
        16 * pow16((n - 1) as nat)
    }
}

/// `n` hex digits are worth less than 16 to the `n`.
pub proof fn lemma_hex_run_bound(s: Seq<char>, q: int, n: nat)
    ensures
        hex_run(s, q, n) matches Ok(v) ==> 0 <= v < pow16(n),
    decreases n,
{
    if n > 0 {
        lemma_hex_run_bound(s, q, (n - 1) as nat);
    }
}

/// The first bad hex digit decides the error of any longer run.
pub proof fn lemma_hex_run_err(s: Seq<char>, q: int, n: nat, k: nat)
    requires
        n <= k,
        hex_run(s, q, n) is Err,
    ensures
        hex_run(s, q, k) == hex_run(s, q, n),
    decreases k - n,
{
    if n < k {
        lemma_hex_run_err(s, q, n, (k - 1) as nat);
    }
}

/// Prefixing twice is prefixing once with both.
pub proof fn lemma_string_with(a: Seq<char>, b: Seq<char>, r: Result<(Seq<char>, int), Seq<char>>)
    ensures
        string_with(a, string_with(b, r)) == string_with(a + b, r),
{
    if let Ok((more, e)) = r {
        assert(a + (b + more) =~= (a + b) + more);
    }
}

/// Prefixing nothing changes nothing.
pub proof fn lemma_string_with_empty(r: Result<(Seq<char>, int), Seq<char>>)
    ensures
        string_with(Seq::empty(), r) == r,
{
    if let Ok((more, e)) = r {
        assert(Seq::<char>::empty() + more =~= more);
    }
}

/// A keyword read to its end ends after its last character.
pub proof fn lemma_keyword_at(s: Seq<char>, p: int, word: Seq<char>, i: int)
    requires
        0 <= i <= word.len(),
    ensures
        keyword_at(s, p, word, i) matches Ok(e) ==> e == p + word.len(),
    decreases word.len() - i,
{
    if i < word.len() {
        lemma_keyword_at(s, p, word, i + 1);
    }
}

/// `char::from_u32`: the character with code point `u`, if `u` is a Unicode scalar value.
#[verifier::external_body]
fn char_from_u32(u: u32) -> (r: Option<char>)
    ensures
        match r {
            Some(c) => code_point_chars(u as int) == seq![c],
            None => code_point_chars(u as int) == Seq::<char>::empty(),
        },
{
    char::from_u32(u)
}

/// The value of a hexadecimal digit.
fn hex_digit_value(c: char) -> (r: Option<u16>)
    ensures
        match hex_digit(c) {
            Some(d) => r == Some(d as u16),
            None => r is None,
        },
{
    if '0' <= c && c <= '9' {
        Some((c as u32 - 48) as u16)
    } else if 'a' <= c && c <= 'f' {
        Some((c as u32 - 87) as u16)
    } else if 'A' <= c && c <= 'F' {
        Some((c as u32 - 55) as u16)
    } else {
        None
    }
}

struct Parser {
    chars: Vec<char>,
    pos: usize,
}

impl Parser {
    spec fn wf(&self) -> bool {
        self.pos <= self.chars.len()
    }

    fn new(input: &str) -> (p: Parser)
        ensures
            p.chars@ == input@,
            p.pos == 0,
            p.wf(),
    {
        let chars = collect_chars(input);
        Parser { chars, pos: 0 }
    }

    fn peek(&self) -> (r: Option<char>)
        ensures
            r == if self.pos < self.chars.len() {
                Some(self.chars@[self.pos as int])
            } else {
                None::<char>
            },
    {
        if self.pos < self.chars.len() {
            Some(self.chars[self.pos])
        } else {
            None
        }
    }

    fn advance(&mut self) -> (r: Option<char>)
        requires
            old(self).wf(),
        ensures
            final(self).wf(),
            final(self).chars == old(self).chars,
            r == if old(self).pos < old(self).chars.len() {
                Some(old(self).chars@[old(self).pos as int])
            } else {
                None::<char>
            },
            final(self).pos == if r is Some {
                old(self).pos + 1
            } else {
                old(self).pos as int
            },
    {
        let c = self.peek();
        if c.is_some() {
            self.pos = self.pos + 1;
        }
        c
    }

    fn skip_ws(&mut self)
        requires
            old(self).wf(),
        ensures
            final(self).wf(),
            final(self).chars == old(self).chars,
            final(self).pos == scan_ws(old(self).chars@, old(self).pos as int),
    {
        while self.pos < self.chars.len() && is_whitespace(self.chars[self.pos])
            invariant
                self.wf(),
                self.chars == old(self).chars,
                scan_ws(self.chars@, self.pos as int) == scan_ws(old(self).chars@, old(self).pos as int),
            decreases self.chars.len() - self.pos,
        {
            self.pos = self.pos + 1;
        }
    }

    fn read_hex4(&mut self) -> (r: Result<u16, String>)
        requires
            old(self).wf(),
        ensures
            final(self).wf(),
            final(self).chars == old(self).chars,
            final(self).pos >= old(self).pos,
            match hex_run(old(self).chars@, old(self).pos as int, 4) {
                Ok(v) => r matches Ok(x) && x as int == v && final(self).pos == old(self).pos + 4,
                Err(m) => r matches Err(e) && e@ == m,
            },
    {
        let ghost s = self.chars@;
        let ghost p0 = self.pos as int;
        let mut value: u16 = 0;
        let mut i: u16 = 0;
        while i < 4
            invariant
                self.wf(),
                self.chars == old(self).chars,
                s == self.chars@,
                p0 == old(self).pos,
                0 <= i <= 4,
                self.pos == p0 + i,
                hex_run(s, p0, i as nat) == Ok::<int, Seq<char>>(value as int),
                value < pow16(i as nat),
            decreases 4 - i,
        {
            proof {
                lemma_hex_run_bound(s, p0, (i + 1) as nat);
            }
            let c = match self.advance() {
                Some(c) => c,
                None => {
                    proof {
                        lemma_hex_run_err(s, p0, (i + 1) as nat, 4);
                    }
                    return Err(String::from_str("unexpected end of input in \\u escape"));
                },
            };
            let digit = match hex_digit_value(c) {
                Some(d) => d,
                None => {
                    proof {
                        lemma_hex_run_err(s, p0, (i + 1) as nat, 4);
                    }
                    return Err(String::from_str("invalid hex digit in \\u escape"));
                },
            };
            assert(pow16((i + 1) as nat) == 16 * pow16(i as nat));
            assert(pow16(4) == 65536) by {
                reveal_with_fuel(pow16, 5);
            }
            assert(pow16(i as nat) <= 4096) by {
                reveal_with_fuel(pow16, 5);
            }
            value = value * 16 + digit;
            i = i + 1;
        }
        Ok(value)
    }

    fn parse_string(&mut self) -> (r: Result<String, String>)
        requires
            old(self).wf(),
            old(self).pos < old(self).chars.len(),
            old(self).chars@[old(self).pos as int] == '"',
        ensures
            final(self).wf(),
            final(self).chars == old(self).chars,
            agrees(r, |t: String| t@, string_body(old(self).chars@, old(self).pos + 1), final(self).pos as int),
            final(self).pos > old(self).pos,
    {
        let ghost s = self.chars@;
        let ghost p0 = self.pos as int;
        self.advance();
        let mut out = String::new();
        proof {
            lemma_string_with_empty(string_body(s, p0 + 1));
        }
        loop
            invariant
                self.wf(),
                self.chars == old(self).chars,
                s == self.chars@,
                p0 == old(self).pos,
                p0 < self.pos,
                string_body(s, p0 + 1) == string_with(out@, string_body(s, self.pos as int)),
            decreases self.chars.len() - self.pos,
        {
            let ghost q = self.pos as int;
            let ghost out0 = out@;
            match self.advance() {
                None => {
                    return Err(String::from_str("unterminated string"));
                },
                Some(c) => {
                    if c == '"' {
                        assert(string_body(s, q) == Ok::<(Seq<char>, int), Seq<char>>((Seq::<char>::empty(), q + 1)));
                        assert(out@ + Seq::<char>::empty() =~= out@);
                        return Ok(out);
                    } else if c == '\\' {
                        let e = match self.advance() {
                            Some(e) => e,
                            None => {
                                return Err(String::from_str("invalid escape sequence in string"));
                            },
                        };
                        if e == 'u' {
                            let cp = self.read_hex4()?;
                            if 0xD800 <= cp && cp <= 0xDBFF {
                                let b1 = self.advance();
                                let ok1 = match b1 {
                                    Some(x) => x == '\\',
                                    None => false,
                                };
                                if !ok1 {
                                    proof {
                                        lemma_hex_run_bound(s, q + 2, 4);
                                        assert(hex_run(s, q + 2, 4) == Ok::<int, Seq<char>>(cp as int));
                                        assert(unicode_escape(s, q + 2) == Err::<(Seq<char>, int), Seq<char>>(msg_low_surrogate()));
                                    }
                                    return Err(String::from_str("expected low surrogate after high surrogate"));
                                }
                                let b2 = self.advance();
                                let ok2 = match b2 {
                                    Some(x) => x == 'u',
                                    None => false,
                                };
                                if !ok2 {
                                    proof {
                                        lemma_hex_run_bound(s, q + 2, 4);
                                        assert(hex_run(s, q + 2, 4) == Ok::<int, Seq<char>>(cp as int));
                                        assert(unicode_escape(s, q + 2) == Err::<(Seq<char>, int), Seq<char>>(msg_low_surrogate()));
                                    }
                                    return Err(String::from_str("expected low surrogate after high surrogate"));
                                }
                                let low = self.read_hex4()?;
                                let combined: u32 = 0x10000 + ((cp - 0xD800) as u32) * 1024 + (low.wrapping_sub(0xDC00) as u32);
                                assert(combined == pair_code_point(cp as int, low as int));
                                match char_from_u32(combined) {
                                    Some(ch) => {
                                        push_char(&mut out, ch);
                                    },
                                    None => {},
                                }
                                proof {
                                    assert(out@ =~= out0 + code_point_chars(pair_code_point(cp as int, low as int)));
                                }
                            } else {
                                match char_from_u32(cp as u32) {
                                    Some(ch) => {
                                        push_char(&mut out, ch);
                                    },
                                    None => {},
                                }
                                proof {
                                    assert(out@ =~= out0 + code_point_chars(cp as int));
                                }
                            }
                            proof {
                                let (cs, next) = unicode_escape(s, q + 2)->Ok_0;
                                assert(next == self.pos);
                                assert(out@ == out0 + cs);
                                lemma_string_with(out0, cs, string_body(s, next));
                            }
                        } else {
                            let mapped = if e == '"' {
                                '"'
                            } else if e == '\\' {
                                '\\'
                            } else if e == '/' {
                                '/'
                            } else if e == 'b' {
                                '\u{0008}'
                            } else if e == 'f' {
                                '\u{000C}'
                            } else if e == 'n' {
                                '\n'
                            } else if e == 'r' {
                                '\r'
                            } else if e == 't' {
                                '\t'
                            } else {
                                return Err(String::from_str("invalid escape sequence in string"));
                            };
                            push_char(&mut out, mapped);
                            proof {
                                lemma_string_with(out0, seq![mapped], string_body(s, q + 2));
                                assert(out0 + seq![mapped] =~= out@);
                            }
                        }
                    } else {
                        push_char(&mut out, c);
                        proof {
                            lemma_string_with(out0, seq![c], string_body(s, q + 1));
                            assert(out0 + seq![c] =~= out@);
                        }
                    }
                },
            }
        }
    }

    fn peek_is(&self, c: char) -> (b: bool)
        ensures
            b == (self.pos < self.chars.len() && self.chars@[self.pos as int] == c),
    {
        self.pos < self.chars.len() && self.chars[self.pos] == c
    }

    fn skip_digits(&mut self)
        requires
            old(self).wf(),
        ensures
            final(self).wf(),
            final(self).chars == old(self).chars,
            final(self).pos == scan_digits(old(self).chars@, old(self).pos as int),
    {
        while self.pos < self.chars.len() && is_ascii_digit(self.chars[self.pos])
            invariant
                self.wf(),
                self.chars == old(self).chars,
                scan_digits(self.chars@, self.pos as int) == scan_digits(old(self).chars@, old(self).pos as int),
            decreases self.chars.len() - self.pos,
        {
            self.pos = self.pos + 1;
        }
    }

    fn parse_number(&mut self) -> (r: Result<Value, String>)
        requires
            old(self).wf(),
        ensures
            final(self).wf(),
            final(self).chars == old(self).chars,
            agrees(r, |v: Value| v@, number_at(old(self).chars@, old(self).pos as int), final(self).pos as int),
            r is Ok ==> final(self).pos > old(self).pos,
    {
        let ghost s = self.chars@;
        let start = self.pos;
        if self.peek_is('-') {
            self.advance();
        }
        let a = self.pos;
        proof {
            lemma_scan_digits(s, a as int);
        }
        self.skip_digits();
        let b = self.pos;
        let has_dot = self.peek_is('.');
        if has_dot {
            self.advance();
            proof {
                lemma_scan_digits(s, b + 1);
            }
            self.skip_digits();
        }
        let c = self.pos;
        let has_exp = self.peek_is('e') || self.peek_is('E');
        let mut d = c;
        if has_exp {
            self.advance();
            if self.peek_is('+') || self.peek_is('-') {
                self.advance();
            }
            d = self.pos;
            proof {
                lemma_scan_digits(s, d as int);
            }
            self.skip_digits();
        }
        let e = self.pos;
        let mut text = String::new();
        let mut i = start;
        while i < e
            invariant
                self.wf(),
                self.chars@ == s,
                start <= i <= e <= self.chars.len(),
                text@ == s.subrange(start as int, i as int),
            decreases e - i,
        {
            push_char(&mut text, self.chars[i]);
            i = i + 1;
            proof {
                assert(text@ =~= s.subrange(start as int, i as int));
            }
        }
        let mantissa_ok = b > a || (has_dot && c > b + 1);
        let exponent_ok = !has_exp || e > d;
        assert(number_extent(s, start as int) == (e as int, mantissa_ok && exponent_ok));
        if mantissa_ok && exponent_ok {
            Ok(Value::Number(text))
        } else {
            let mut m = String::from_str("invalid number '");
            m.append(text.as_str());
            m.append("': invalid float literal");
            Err(m)
        }
    }

    fn parse_value(&mut self) -> (r: Result<Value, String>)
        requires
            old(self).wf(),
        ensures
            final(self).wf(),
            final(self).chars == old(self).chars,
            agrees(r, |v: Value| v@, value_at(old(self).chars@, old(self).pos as int), final(self).pos as int),
            r is Ok ==> final(self).pos > old(self).pos,
        decreases old(self).chars.len() - old(self).pos, 1nat,
    {
        let ghost s = self.chars@;
        let ghost p0 = self.pos as int;
        proof {
            lemma_scan_ws(s, p0);
        }
        self.skip_ws();
        let q = self.pos;
        if q >= self.chars.len() {
            return Err(String::from_str("unexpected end of input"));
        }
        let c = self.chars[q];
        if c == '{' {
            self.parse_object()
        } else if c == '[' {
            self.parse_array()
        } else if c == '"' {
            match self.parse_string() {
                Ok(t) => Ok(Value::String(t)),
                Err(m) => Err(m),
            }
        } else if c == 't' {
            proof {
                reveal_strlit("true");
                lemma_keyword_at(s, q as int, "true"@, 0);
            }
            self.parse_keyword("true", Value::Bool(true))
        } else if c == 'f' {
            proof {
                reveal_strlit("false");
                lemma_keyword_at(s, q as int, "false"@, 0);
            }
            self.parse_keyword("false", Value::Bool(false))
        } else if c == 'n' {
            proof {
                reveal_strlit("null");
                lemma_keyword_at(s, q as int, "null"@, 0);
            }
            self.parse_keyword("null", Value::Null)
        } else if c == '-' || is_ascii_digit(c) {
            self.parse_number()
        } else {
            let mut m = String::from_str("unexpected character '");
            push_char(&mut m, c);
            m.append("' at position ");
            push_u64_decimal(&mut m, q as u64);
            assert(m@ =~= msg_unexpected_char(c, q as int));
            Err(m)
        }
    }

    fn parse_array(&mut self) -> (r: Result<Value, String>)
        requires
            old(self).wf(),
            old(self).pos < old(self).chars.len(),
        ensures
            final(self).wf(),
            final(self).chars == old(self).chars,
            agrees(r, |v: Value| v@, array_at(old(self).chars@, old(self).pos + 1), final(self).pos as int),
            r is Ok ==> final(self).pos > old(self).pos,
        decreases old(self).chars.len() - old(self).pos, 0nat,
    {
        let ghost s = self.chars@;
        let ghost p0 = self.pos as int;
        self.advance();
        let mut items: Vec<Value> = Vec::new();
        proof {
            lemma_scan_ws(s, p0 + 1);
        }
        self.skip_ws();
        if self.peek_is(']') {
            self.advance();
            assert(json_items(items@) =~= Seq::<Json>::empty());
            return Ok(Value::Array(items));
        }
        assert(json_items(items@) =~= Seq::<Json>::empty());
        assert(array_at(s, p0 + 1) == array_with(json_items(items@), elements_at(s, self.pos as int))) by {
            if let Ok((more, e)) = elements_at(s, self.pos as int) {
                assert(Seq::<Json>::empty() + more =~= more);
            }
        }
        loop
            invariant
                self.wf(),
                self.chars == old(self).chars,
                s == self.chars@,
                p0 == old(self).pos,
                p0 < self.pos,
                array_at(s, p0 + 1) == array_with(json_items(items@), elements_at(s, self.pos as int)),
            decreases self.chars.len() - self.pos,
        {
            let ghost t = self.pos as int;
            let ghost items0 = json_items(items@);
            let item = self.parse_value()?;
            let ghost v = item@;
            let ghost q = self.pos as int;
            items.push(item);
            assert(json_items(items@) =~= items0.push(v));
            proof {
                lemma_scan_ws(s, q);
            }
            self.skip_ws();
            let ghost r0 = self.pos as int;
            match self.advance() {
                Some(c) => {
                    if c == ',' {
                        proof {
                            lemma_scan_ws(s, r0 + 1);
                        }
                        self.skip_ws();
                        proof {
                            if let Ok((more, e)) = elements_at(s, self.pos as int) {
                                assert(items0 + (seq![v] + more) =~= items0.push(v) + more);
                            }
                        }
                    } else if c == ']' {
                        assert(items0 + seq![v] =~= items0.push(v));
                        return Ok(Value::Array(items));
                    } else {
                        return Err(String::from_str("expected ',' or ']' in array"));
                    }
                },
                None => {
                    return Err(String::from_str("expected ',' or ']' in array"));
                },
            }
        }
    }

    fn parse_object(&mut self) -> (r: Result<Value, String>)
        requires
            old(self).wf(),
            old(self).pos < old(self).chars.len(),
        ensures
            final(self).wf(),
            final(self).chars == old(self).chars,
            agrees(r, |v: Value| v@, object_at(old(self).chars@, old(self).pos + 1), final(self).pos as int),
            r is Ok ==> final(self).pos > old(self).pos,
        decreases old(self).chars.len() - old(self).pos, 0nat,
    {
        let ghost s = self.chars@;
        let ghost p0 = self.pos as int;
        self.advance();
        let mut pairs: Vec<(String, Value)> = Vec::new();
        proof {
            lemma_scan_ws(s, p0 + 1);
        }
        self.skip_ws();
        if self.peek_is('}') {
            self.advance();
            assert(json_members(pairs@) =~= Seq::<(Seq<char>, Json)>::empty());
            return Ok(Value::Object(pairs));
        }
        assert(json_members(pairs@) =~= Seq::<(Seq<char>, Json)>::empty());
        assert(object_at(s, p0 + 1) == object_with(json_members(pairs@), members_at(s, self.pos as int))) by {
            if let Ok((more, e)) = members_at(s, self.pos as int) {
                assert(Seq::<(Seq<char>, Json)>::empty() + more =~= more);
            }
        }
        loop
            invariant
                self.wf(),
                self.chars == old(self).chars,
                s == self.chars@,
                p0 == old(self).pos,
                p0 < self.pos,
                object_at(s, p0 + 1) == object_with(json_members(pairs@), members_at(s, self.pos as int)),
            decreases self.chars.len() - self.pos,
        {
            let ghost t = self.pos as int;
            let ghost pairs0 = json_members(pairs@);
            proof {
                lemma_scan_ws(s, t);
            }
            self.skip_ws();
            if !self.peek_is('"') {
                return Err(String::from_str("expected string key in object"));
            }
            let key = self.parse_string()?;
            proof {
                lemma_scan_ws(s, self.pos as int);
            }
            self.skip_ws();
            let colon = match self.advance() {
                Some(c) => c == ':',
                None => false,
            };
            if !colon {
                return Err(String::from_str("expected ':' after object key"));
            }
            let value = self.parse_value()?;
            let ghost kv = (key@, value@);
            let ghost c0 = self.pos as int;
            pairs.push((key, value));
            assert(json_members(pairs@) =~= pairs0.push(kv));
            proof {
                lemma_scan_ws(s, c0);
            }
            self.skip_ws();
            let ghost d0 = self.pos as int;
            match self.advance() {
                Some(c) => {
                    if c == ',' {
                        proof {
                            lemma_scan_ws(s, d0 + 1);
                        }
                        self.skip_ws();
                        proof {
                            if let Ok((more, e)) = members_at(s, self.pos as int) {
                                assert(pairs0 + (seq![kv] + more) =~= pairs0.push(kv) + more);
                            }
                        }
                    } else if c == '}' {
                        assert(pairs0 + seq![kv] =~= pairs0.push(kv));
                        return Ok(Value::Object(pairs));
                    } else {
                        return Err(String::from_str("expected ',' or '}' in object"));
                    }
                },
                None => {
                    return Err(String::from_str("expected ',' or '}' in object"));
                },
            }
        }
    }

    fn parse_keyword(&mut self, word: &str, value: Value) -> (r: Result<Value, String>)
        requires
            old(self).wf(),
        ensures
            final(self).wf(),
            final(self).chars == old(self).chars,
            match keyword_at(old(self).chars@, old(self).pos as int, word@, 0) {
                Ok(e) => r == Ok::<Value, String>(value) && final(self).pos == e,
                Err(m) => r matches Err(em) && em@ == m,
            },
    {
        broadcast use vstd::string::group_string_axioms;

        let ghost s = self.chars@;
        let ghost p0 = self.pos as int;
        for expected in it: word.chars()
            invariant
                self.wf(),
                self.chars == old(self).chars,
                s == self.chars@,
                p0 == old(self).pos,
                it.seq() == word@,
                self.pos == p0 + it.index(),
                keyword_at(s, p0, word@, 0) == keyword_at(s, p0, word@, it.index()),
        {
            match self.advance() {
                Some(c) => {
                    if c != expected {
                        let mut m = String::from_str("invalid literal near position ");
                        push_u64_decimal(&mut m, self.pos as u64);
                        return Err(m);
                    }
                },
                None => {
                    let mut m = String::from_str("invalid literal near position ");
                    push_u64_decimal(&mut m, self.pos as u64);
                    return Err(m);
                },
            }
        }
        Ok(value)
    }
}

/// The value of the first member named `key`, in document order.
pub open spec fn lookup(pairs: Seq<(Seq<char>, Json)>, key: Seq<char>) -> Option<Json>
    decreases pairs.len(),
{
    if pairs.len() == 0 {
        None
    } else if pairs[0].0 == key {
        Some(pairs[0].1)
    } else {
        lookup(pairs.drop_first(), key)
    }
}

/// The member `key` of an object; nothing for any other value.
pub open spec fn field(j: Json, key: Seq<char>) -> Option<Json> {
    match j {
        Json::Object(pairs) => lookup(pairs, key),
        _ => None,
    }
}

/// The text of a string value.
pub open spec fn str_of(j: Json) -> Option<Seq<char>> {
    match j {
        Json::Str(t) => Some(t),
        _ => None,
    }
}

/// The elements of an array value.
pub open spec fn array_of(j: Json) -> Option<Seq<Json>> {
    match j {
        Json::Array(items) => Some(items),
        _ => None,
    }
}

/// The truth value of a boolean value.
pub open spec fn bool_of(j: Json) -> Option<bool> {
    match j {
        Json::Bool(b) => Some(b),
        _ => None,
    }
}

impl Value {
    /// The first member named `key` of an object; `None` for a missing key or a non-object.
    pub fn get(&self, key: &str) -> (r: Option<&Value>)
        ensures
            match field(self@, key@) {
                Some(j) => r matches Some(v) && v@ == j,
                None => r is None,
            },
    {
        match self {
            Value::Object(pairs) => {
                let ghost m = json_members(pairs@);
                assert(m.subrange(0, m.len() as int) =~= m);
                let mut i: usize = 0;
                while i < pairs.len()
                    invariant
                        0 <= i <= pairs.len(),
                        m == json_members(pairs@),
                        self@ == Json::Object(m),
                        lookup(m, key@) == lookup(m.subrange(i as int, m.len() as int), key@),
                    decreases pairs.len() - i,
                {
                    let ghost rest = m.subrange(i as int, m.len() as int);
                    assert(rest.drop_first() =~= m.subrange(i + 1, m.len() as int));
                    assert(rest[0] == m[i as int]);
                    assert(m[i as int] == (pairs@[i as int].0@, json_of(pairs@[i as int].1)));

                    if str_eq(pairs[i].0.as_str(), key) {
                        return Some(&pairs[i].1);
                    }
                    i = i + 1;
                }
                None
            },
            _ => None,
        }
    }

    /// The text of a string value.
    pub fn as_str(&self) -> (r: Option<&str>)
        ensures
            match str_of(self@) {
                Some(t) => r matches Some(x) && x@ == t,
                None => r is None,
            },
    {
        match self {
            Value::String(s) => Some(s.as_str()),
            _ => None,
        }
    }

    /// The elements of an array value.
    pub fn as_array(&self) -> (r: Option<&Vec<Value>>)
        ensures
            match array_of(self@) {
                Some(items) => r matches Some(v) && json_items(v@) == items,
                None => r is None,
            },
    {
        match self {
            Value::Array(items) => Some(items),
            _ => None,
        }
    }

    /// The truth value of a boolean value.
    pub fn as_bool(&self) -> (r: Option<bool>)
        ensures
            r == bool_of(self@),
    {
        match self {
            Value::Bool(b) => Some(*b),
            _ => None,
        }
    }
}

/// Reads a whole JSON document: one value, with optional whitespace around it.
pub fn parse(input: &str) -> (r: Result<Value, String>)
    ensures
        match document(input@) {
            Ok(j) => r matches Ok(v) && v@ == j,
            Err(m) => r matches Err(e) && e@ == m,
        },
{
    let mut parser = Parser::new(input);
    let value = parser.parse_value()?;
    proof {
        lemma_scan_ws(parser.chars@, parser.pos as int);
    }
    parser.skip_ws();
    if parser.pos != parser.chars.len() {
        let mut m = String::from_str("unexpected trailing data at position ");
        push_u64_decimal(&mut m, parser.pos as u64);
        return Err(m);
    }
    Ok(value)
}

impl Clone for Value {
    /// A copy of the whole value, nested values included.
    fn clone(&self) -> (r: Self)
        ensures
            r@ == self@,
        decreases self,
    {
        match self {
            Value::Null => Value::Null,
            Value::Bool(b) => Value::Bool(*b),
            Value::Number(t) => Value::Number(t.clone()),
            Value::String(t) => Value::String(t.clone()),
            Value::Array(items) => {
                let mut out: Vec<Value> = Vec::new();
                let mut i: usize = 0;
                while i < items.len()
                    invariant
                        *self == Value::Array(*items),
                        i <= items.len(),
                        out@.len() == i,
                        forall|j: int| 0 <= j < i ==> json_of(#[trigger] out@[j]) == json_of(items@[j]),
                    decreases items.len() - i,
                {
                    assert(decreases_to!(*items => items@));
                    assert(decreases_to!(items@ => items@[i as int]));
                    assert(decreases_to!(*self => self->Array_0));
                    assert(decreases_to!(*self => items@[i as int]));
                    let c = items[i].clone();
                    out.push(c);
                    i = i + 1;
                }
                assert(json_items(out@) =~= json_items(items@));
                Value::Array(out)
            },
            Value::Object(pairs) => {
                let mut out: Vec<(String, Value)> = Vec::new();
                let mut i: usize = 0;
                while i < pairs.len()
                    invariant
                        *self == Value::Object(*pairs),
                        i <= pairs.len(),
                        out@.len() == i,
                        forall|j: int|
                            0 <= j < i ==> (#[trigger] out@[j]).0@ == pairs@[j].0@ && json_of(out@[j].1) == json_of(
                                pairs@[j].1,
                            ),
                    decreases pairs.len() - i,
                {
                    assert(decreases_to!(*pairs => pairs@));
                    assert(decreases_to!(pairs@ => pairs@[i as int]));
                    assert(decreases_to!(pairs@[i as int] => pairs@[i as int].1));
                    assert(decreases_to!(*self => self->Object_0));
                    assert(decreases_to!(*self => pairs@[i as int].1));
                    let k = pairs[i].0.clone();
                    let v = pairs[i].1.clone();
                    out.push((k, v));
                    i = i + 1;
                }
                assert(json_members(out@) =~= json_members(pairs@));
                Value::Object(out)
            },
        }
    }
}

impl View for Value {
    type V = Json;

    open spec fn view(&self) -> Json {
        json_of(*self)
    }
}

} // verus!
