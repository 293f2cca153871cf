//! The JSON report reads back: what `render_json` prints is a JSON array that
//! the reader turns back into the cards' fields.
use vstd::prelude::*;
use crate::text::{is_ws, is_digit, nat_decimal, int_decimal};
use crate::json::{
    Json, string_body, value_at, scan_ws, scan_digits, number_extent, members_at, elements_at,
    document,
};
use crate::report::{escaped, lemma_read_escaped, law_escape_reads_back, json_line, json_lines, json_text};
use crate::board::StaleView;
use crate::time::duration_text;

verus! {

broadcast use vstd::seq::group_seq_axioms;

/// A character written as itself inside a JSON string literal.
pub open spec fn plain(c: char) -> bool {
    c != '"' && c != '\\' && (c as u32) >= 0x20
}

/// Text without quotes, backslashes or control characters is escaped as itself.
proof fn lemma_escaped_plain(t: Seq<char>)
    requires
        forall|i: int| 0 <= i < t.len() ==> plain(#[trigger] t[i]),
    ensures
        escaped(t) == t,
    decreases t.len(),
{
    if t.len() > 0 {
        lemma_escaped_plain(t.drop_last());
        assert(plain(t[t.len() - 1]));
        assert(t.drop_last().push(t.last()) =~= t);
    }
}

/// A string body (escaped text and closing quote) at `p` reads as the text.
proof fn lemma_string_at(s: Seq<char>, p: int, t: Seq<char>)
    requires
        0 <= p,
        p + escaped(t).len() + 1 <= s.len(),
        s.subrange(p, p + escaped(t).len() + 1) == escaped(t).push('"'),
    ensures
        string_body(s, p) == Ok::<(Seq<char>, int), Seq<char>>((t, p + escaped(t).len() + 1)),
{
    let e = escaped(t);
    let pre = s.subrange(0, p);
    let rest = s.subrange(p + e.len() + 1, s.len() as int);
    assert(s =~= pre + e + seq!['"'] + rest) by {
        assert forall|i: int| 0 <= i < s.len() implies s[i] == (pre + e + seq!['"'] + rest)[i] by {
            if p <= i < p + e.len() + 1 {
                assert(s.subrange(p, p + e.len() + 1)[i - p] == s[i]);
            }
        }
    }
    lemma_read_escaped(pre, t, rest);
}

/// A decimal rendering is one or more digits.
proof fn lemma_nat_decimal_digits(n: nat)
    ensures
        nat_decimal(n).len() >= 1,
        forall|i: int| 0 <= i < nat_decimal(n).len() ==> is_digit(#[trigger] nat_decimal(n)[i]),
    decreases n,
{
    if n >= 10 {
        lemma_nat_decimal_digits(n / 10);
        let d = nat_decimal(n / 10);
        assert forall|i: int| 0 <= i < nat_decimal(n).len() implies is_digit(#[trigger] nat_decimal(n)[i]) by {
            if i < d.len() {
                assert(nat_decimal(n)[i] == d[i]);
            }
        }
    }
}

/// Digits from `a` up to a non-digit at `b`.
proof fn lemma_scan_digit_run(s: Seq<char>, a: int, b: int)
    requires
        0 <= a <= b < s.len(),
        forall|i: int| a <= i < b ==> is_digit(#[trigger] s[i]),
        !is_digit(s[b]),
    ensures
        scan_digits(s, a) == b,
    decreases b - a,
{
    if a < b {
        lemma_scan_digit_run(s, a + 1, b);
    }
}

/// A number written by `int_decimal`, followed by a comma, reads as that text.
proof fn lemma_value_number_at(s: Seq<char>, p0: int, p: int, i: int)
    requires
        0 <= p0 <= p,
        scan_ws(s, p0) == p,
        p + int_decimal(i).len() < s.len(),
        s.subrange(p, p + int_decimal(i).len()) == int_decimal(i),
        s[p + int_decimal(i).len()] == ',',
    ensures
        value_at(s, p0) == Ok::<(Json, int), Seq<char>>((Json::Number(int_decimal(i)), p + int_decimal(i).len())),
{
    let d = int_decimal(i);
    let m = if i < 0 { -i } else { i };
    lemma_nat_decimal_digits(m as nat);
    let a = if i < 0 { p + 1 } else { p };
    let b = p + d.len();
    assert forall|j: int| a <= j < b implies is_digit(#[trigger] s[j]) by {
        assert(s.subrange(p, b)[j - p] == s[j]);
        if i < 0 {
            assert(d[j - p] == nat_decimal(m as nat)[j - p - 1]);
        } else {
            assert(d[j - p] == nat_decimal(m as nat)[j - p]);
        }
    }
    assert(s[p] == d[0]) by {
        assert(s.subrange(p, b)[0] == s[p]);
    }
    if i < 0 {
        assert(d[0] == '-');
    } else {
        assert(is_digit(d[0]));
    }
    lemma_scan_digit_run(s, a, b);
    assert(a < b);
    let (e, ok) = number_extent(s, p);
    assert(e == b);
    assert(ok);
    assert(s.subrange(p, b) == d);
}

/// A string value at `p` (after the whitespace that starts at `p0`) reads as the text.
proof fn lemma_value_string_at(s: Seq<char>, p0: int, p: int, t: Seq<char>)
    requires
        0 <= p0 <= p,
        scan_ws(s, p0) == p,
        p + escaped(t).len() + 2 <= s.len(),
        s[p] == '"',
        s.subrange(p + 1, p + escaped(t).len() + 2) == escaped(t).push('"'),
    ensures
        value_at(s, p0) == Ok::<(Json, int), Seq<char>>((Json::Str(t), p + escaped(t).len() + 2)),
{
    lemma_string_at(s, p + 1, t);
}

/// `"key":` at `p`.
pub open spec fn key_part(k: Seq<char>) -> Seq<char> {
    seq!['"'] + k + seq!['"', ':']
}

/// One object member at `p`: the key, then a value that `value_at` reads from
/// just after the colon to `vend`, then `, ` and the next key, or `}`.
proof fn lemma_member(s: Seq<char>, p: int, k: Seq<char>, v: Json, vend: int)
    requires
        0 <= p,
        p + k.len() + 3 <= vend < s.len(),
        s.subrange(p, p + k.len() + 3) == key_part(k),
        forall|i: int| 0 <= i < k.len() ==> plain(#[trigger] k[i]),
        value_at(s, p + k.len() + 3) == Ok::<(Json, int), Seq<char>>((v, vend)),
        s[vend] == '}' || (s[vend] == ',' && vend + 2 < s.len() && s[vend + 1] == ' ' && s[vend + 2]
            == '"'),
    ensures
        s[vend] == '}' ==> members_at(s, p) == Ok::<(Seq<(Seq<char>, Json)>, int), Seq<char>>(
            (seq![(k, v)], vend + 1),
        ),
        s[vend] == ',' ==> members_at(s, p) == match members_at(s, vend + 2) {
            Ok((more, e)) => Ok((seq![(k, v)] + more, e)),
            Err(m) => Err::<(Seq<(Seq<char>, Json)>, int), Seq<char>>(m),
        },
{
    lemma_escaped_plain(k);
    let kp = key_part(k);
    assert(s[p] == kp[0]) by {
        assert(s.subrange(p, p + k.len() + 3)[0] == s[p]);
    }
    assert(s.subrange(p + 1, p + k.len() + 2) =~= k.push('"')) by {
        assert forall|i: int| 0 <= i < k.len() + 1 implies s.subrange(p + 1, p + k.len() + 2)[i]
            == k.push('"')[i] by {
            assert(s.subrange(p, p + k.len() + 3)[i + 1] == s[p + 1 + i]);
            assert(kp[i + 1] == k.push('"')[i]);
        }
    }
    lemma_string_at(s, p + 1, k);
    assert(s[p + k.len() + 2] == ':') by {
        assert(s.subrange(p, p + k.len() + 3)[k.len() + 2int] == s[p + k.len() + 2]);
    }
    assert(!is_ws(':'));
    assert(!is_ws('"'));
    assert(!is_ws(','));
    assert(!is_ws('}'));
    assert(is_ws(' '));
    assert(scan_ws(s, p) == p);
    assert(scan_ws(s, p + k.len() + 2) == p + k.len() + 2);
    assert(scan_ws(s, vend) == vend);
    if s[vend] == ',' {
        assert(scan_ws(s, vend + 2) == vend + 2);
        assert(scan_ws(s, vend + 1) == vend + 2);
    }
}

/// A piece of `whole` at `off`, where `whole` is written at `p`, is written at `p + off`.
proof fn lemma_piece(s: Seq<char>, p: int, whole: Seq<char>, off: int, piece: Seq<char>)
    requires
        0 <= p,
        0 <= off,
        off + piece.len() <= whole.len(),
        p + whole.len() <= s.len(),
        s.subrange(p, p + whole.len()) == whole,
        whole.subrange(off, off + piece.len()) == piece,
    ensures
        s.subrange(p + off, p + off + piece.len()) == piece,
{
    assert forall|i: int| 0 <= i < piece.len() implies s.subrange(p + off, p + off + piece.len())[i]
        == piece[i] by {
        assert(s.subrange(p, p + whole.len())[off + i] == s[p + off + i]);
        assert(whole.subrange(off, off + piece.len())[i] == whole[off + i]);
    }
    assert(s.subrange(p + off, p + off + piece.len()) =~= piece);
}

/// The value of a field in the JSON report: a string or an integer.
pub enum Field {
    Text(Seq<char>),
    Int(int),
}

/// How a field value is written.
pub open spec fn field_text(f: Field) -> Seq<char> {
    match f {
        Field::Text(t) => seq!['"'] + escaped(t) + seq!['"'],
        Field::Int(i) => int_decimal(i),
    }
}

/// How a field value reads back.
pub open spec fn field_json(f: Field) -> Json {
    match f {
        Field::Text(t) => Json::Str(t),
        Field::Int(i) => Json::Number(int_decimal(i)),
    }
}

/// Object members written `"key": value`, separated by `, `, closed by `}`.
pub open spec fn members_text(ms: Seq<(Seq<char>, Field)>) -> Seq<char>
    decreases ms.len(),
{
    if ms.len() <= 1 {
        key_part(ms[0].0) + seq![' '] + field_text(ms[0].1) + seq!['}']
    } else {
        key_part(ms[0].0) + seq![' '] + field_text(ms[0].1) + seq![',', ' '] + members_text(
            ms.drop_first(),
        )
    }
}

/// What the members read back as.
pub open spec fn members_json(ms: Seq<(Seq<char>, Field)>) -> Seq<(Seq<char>, Json)> {
    Seq::new(ms.len(), |i: int| (ms[i].0, field_json(ms[i].1)))
}

/// Whether members can be written and read back: plain keys, and no integer last.
pub open spec fn members_ok(ms: Seq<(Seq<char>, Field)>) -> bool {
    &&& ms.len() >= 1
    &&& forall|i: int, j: int| 0 <= i < ms.len() && 0 <= j < ms[i].0.len() ==> plain(#[trigger] ms[i].0[j])
    &&& ms.last().1 is Text
}

/// A field value at `q` (just after the colon and its space) reads back, up to
/// the character after it, which is `,` or `}`.
proof fn lemma_field_at(s: Seq<char>, q: int, f: Field)
    requires
        0 <= q,
        q + 1 + field_text(f).len() < s.len(),
        s[q] == ' ',
        s.subrange(q + 1, q + 1 + field_text(f).len()) == field_text(f),
        s[q + 1 + field_text(f).len()] == ',' || (f is Text && s[q + 1 + field_text(f).len()] == '}'),
    ensures
        value_at(s, q) == Ok::<(Json, int), Seq<char>>((field_json(f), q + 1 + field_text(f).len())),
{
    let ft = field_text(f);
    assert(is_ws(' '));
    assert(s[q + 1] == ft[0]) by {
        assert(s.subrange(q + 1, q + 1 + ft.len())[0] == s[q + 1]);
    }
    match f {
        Field::Text(t) => {
            assert(!is_ws('"'));
            assert(scan_ws(s, q + 1) == q + 1);
            assert(scan_ws(s, q) == q + 1);
            let e = escaped(t);
            assert(ft.subrange(1, 1 + e.len() + 1int) =~= e.push('"'));
            lemma_piece(s, q + 1, ft, 1, e.push('"'));
            lemma_value_string_at(s, q, q + 1, t);
        },
        Field::Int(i) => {
            lemma_nat_decimal_digits((if i < 0 { -i } else { i }) as nat);
            assert(!is_ws(ft[0])) by {
                if i < 0 {
                } else {
                    assert(is_digit(nat_decimal(i as nat)[0]));
                }
            }
            assert(scan_ws(s, q + 1) == q + 1);
            assert(scan_ws(s, q) == q + 1);
            lemma_value_number_at(s, q, q + 1, i);
        },
    }
}

/// Members written by `members_text` at `p` read back as `members_json`.
proof fn lemma_members_read(s: Seq<char>, p: int, ms: Seq<(Seq<char>, Field)>)
    requires
        0 <= p,
        members_ok(ms),
        p + members_text(ms).len() <= s.len(),
        s.subrange(p, p + members_text(ms).len()) == members_text(ms),
    ensures
        members_at(s, p) == Ok::<(Seq<(Seq<char>, Json)>, int), Seq<char>>(
            (members_json(ms), p + members_text(ms).len()),
        ),
    decreases ms.len(),
{
    let (k, f) = ms[0];
    let kp = key_part(k);
    let ft = field_text(f);
    let whole = members_text(ms);
    let head = kp + seq![' '] + ft;
    let kl = kp.len() as int;
    let hl = head.len() as int;
    let fl = ft.len() as int;
    let q = p + kp.len();
    let vend = q + 1 + ft.len();
    assert(whole.subrange(0, kl) =~= kp);
    lemma_piece(s, p, whole, 0, kp);
    assert(whole[kl] == ' ');
    assert(s[q] == ' ') by {
        assert(s.subrange(p, p + whole.len())[kl] == s[q]);
    }
    assert(whole.subrange(kl + 1, kl + 1 + fl) =~= ft);
    lemma_piece(s, p, whole, kl + 1, ft);
    assert(s[vend] == whole[hl]) by {
        assert(s.subrange(p, p + whole.len())[hl] == s[vend]);
    }
    assert forall|j: int| 0 <= j < k.len() implies plain(#[trigger] k[j]) by {
        assert(plain(ms[0].0[j]));
    }
    if ms.len() <= 1 {
        assert(whole[hl] == '}');
        assert(f is Text);
        lemma_field_at(s, q, f);
        lemma_member(s, p, k, field_json(f), vend);
        assert(members_json(ms) =~= seq![(k, field_json(f))]);
    } else {
        let rest = ms.drop_first();
        let rt = members_text(rest);
        assert(whole[hl] == ',');
        assert(whole[hl + 1] == ' ');
        assert(whole.subrange(hl + 2, hl + 2 + rt.len()) =~= rt);
        lemma_piece(s, p, whole, hl + 2, rt);
        assert(members_ok(rest)) by {
            assert forall|i: int, j: int| 0 <= i < rest.len() && 0 <= j < rest[i].0.len() implies plain(
                #[trigger] rest[i].0[j],
            ) by {
                assert(rest[i] == ms[i + 1]);
                assert(plain(ms[i + 1].0[j]));
            }
        }
        lemma_members_read(s, vend + 2, rest);
        let (k2, f2) = rest[0];
        assert(rt[0] == '"');
        assert(s[vend + 1] == ' ') by {
            assert(s.subrange(p, p + whole.len())[hl + 1] == s[vend + 1]);
        }
        assert(s[vend + 2] == '"') by {
            assert(s.subrange(vend + 2, vend + 2 + rt.len())[0] == s[vend + 2]);
        }
        lemma_field_at(s, q, f);
        lemma_member(s, p, k, field_json(f), vend);
        assert(members_json(ms) =~= seq![(k, field_json(f))] + members_json(rest));
    }
}

/// The fields of a card in the JSON report, in order.
pub open spec fn card_fields(c: StaleView) -> Seq<(Seq<char>, Field)> {
    seq![
        ("card"@, Field::Text(c.card_name)),
        ("list"@, Field::Text(c.list_name)),
        ("entered_at_unix"@, Field::Int(c.entered_at as int)),
        ("stale_seconds"@, Field::Int(c.stale_seconds as int)),
        ("stale_human"@, Field::Text(duration_text(c.stale_seconds as int))),
    ]
}

/// What a card's line in the JSON report reads back as: an object with the
/// card name, the list name, the entry time and the staleness as written, and
/// the human-readable staleness.
pub open spec fn card_json(c: StaleView) -> Json {
    Json::Object(members_json(card_fields(c)))
}

#[verifier::rlimit(50)]
#[verifier::spinoff_prover]
proof fn lemma_card_line_layout(c: StaleView)
    ensures
        members_ok(card_fields(c)),
        json_line(c) == seq![' ', ' ', '{'] + members_text(card_fields(c)),
{
    let ms = card_fields(c);
    let k1 = "card"@;
    let k2 = "list"@;
    let k3 = "entered_at_unix"@;
    let k4 = "stale_seconds"@;
    let k5 = "stale_human"@;
    reveal_strlit("card");
    reveal_strlit("list");
    reveal_strlit("entered_at_unix");
    reveal_strlit("stale_seconds");
    reveal_strlit("stale_human");
    let l1 = "  {\"card\": \""@;
    let l2 = "\", \"list\": \""@;
    let l3 = "\", \"entered_at_unix\": "@;
    let l4 = ", \"stale_seconds\": "@;
    let l5 = ", \"stale_human\": \""@;
    let l6 = "\"}"@;
    reveal_strlit("  {\"card\": \"");
    reveal_strlit("\", \"list\": \"");
    reveal_strlit("\", \"entered_at_unix\": ");
    reveal_strlit(", \"stale_seconds\": ");
    reveal_strlit(", \"stale_human\": \"");
    reveal_strlit("\"}");
    let sep = seq![',', ' '];
    let q = seq!['"'];
    let sp = seq![' '];
    assert(l1 =~= seq![' ', ' ', '{'] + key_part(k1) + sp + q);
    assert(l2 =~= q + sep + key_part(k2) + sp + q);
    assert(l3 =~= q + sep + key_part(k3) + sp);
    assert(l4 =~= sep + key_part(k4) + sp);
    assert(l5 =~= sep + key_part(k5) + sp + q);
    assert(l6 =~= q + seq!['}']);
    let a = escaped(c.card_name);
    let b = escaped(c.list_name);
    let d1 = int_decimal(c.entered_at as int);
    let d2 = int_decimal(c.stale_seconds as int);
    let e = escaped(duration_text(c.stale_seconds as int));
    assert(nat_decimal(c.entered_at as nat) == d1);
    let ms2 = ms.drop_first();
    let ms3 = ms2.drop_first();
    let ms4 = ms3.drop_first();
    let ms5 = ms4.drop_first();
    assert(ms5 =~= seq![(k5, Field::Text(duration_text(c.stale_seconds as int)))]);
    let m5 = members_text(ms5);
    let m4 = members_text(ms4);
    let m3 = members_text(ms3);
    let m2 = members_text(ms2);
    let m1 = members_text(ms);
    assert(m5 == key_part(k5) + sp + (q + e + q) + seq!['}']);
    assert(m4 == key_part(k4) + sp + d2 + sep + m5);
    assert(m3 == key_part(k3) + sp + d1 + sep + m4);
    assert(m2 == key_part(k2) + sp + (q + b + q) + sep + m3);
    assert(m1 == key_part(k1) + sp + (q + a + q) + sep + m2);
    let j5 = l5 + e + l6;
    let j4 = l4 + d2 + j5;
    let j3 = l3 + d1 + j4;
    let j2 = l2 + b + j3;
    assert(sep + m5 =~= j5);
    assert(sep + m4 =~= j4);
    assert(q + sep + m3 =~= j3);
    assert(q + sep + m2 =~= j2);
    assert(seq![' ', ' ', '{'] + m1 =~= l1 + a + j2);
    let q1 = l1 + a;
    let q2 = q1 + l2 + b;
    let q3 = q2 + l3 + d1;
    let q4 = q3 + l4 + d2;
    assert(json_line(c) == q4 + l5 + e + l6) by {
        reveal(json_line);
    }
    assert(q4 + l5 + e + l6 =~= q4 + j5);
    assert(q3 + j4 =~= q4 + j5);
    assert(q2 + j3 =~= q3 + j4);
    assert(q1 + j2 =~= q2 + j3);
    assert forall|i: int, j: int| 0 <= i < ms.len() && 0 <= j < ms[i].0.len() implies plain(
        #[trigger] ms[i].0[j],
    ) by {
        if i == 0 {
            assert(ms[i].0 == k1);
        } else if i == 1 {
            assert(ms[i].0 == k2);
        } else if i == 2 {
            assert(ms[i].0 == k3);
        } else if i == 3 {
            assert(ms[i].0 == k4);
        } else {
            assert(ms[i].0 == k5);
        }
    }
}

/// A card's object at `p` (after whitespace from `p0`) reads back.
proof fn lemma_card_object(s: Seq<char>, p0: int, p: int, c: StaleView)
    requires
        0 <= p0 <= p,
        scan_ws(s, p0) == p,
        p + 1 + members_text(card_fields(c)).len() <= s.len(),
        s[p] == '{',
        s.subrange(p + 1, p + 1 + members_text(card_fields(c)).len()) == members_text(card_fields(c)),
    ensures
        value_at(s, p0) == Ok::<(Json, int), Seq<char>>(
            (card_json(c), p + 1 + members_text(card_fields(c)).len()),
        ),
{
    lemma_card_line_layout(c);
    let mt = members_text(card_fields(c));
    lemma_members_read(s, p + 1, card_fields(c));
    assert(mt[0] == '"');
    assert(s[p + 1] == '"') by {
        assert(s.subrange(p + 1, p + 1 + mt.len())[0] == s[p + 1]);
    }
    assert(!is_ws('"'));
    assert(scan_ws(s, p + 1) == p + 1);
}

/// A card's line in the JSON report: its object, a comma unless it is the last
/// of `n`, and a newline.
#[verifier::opaque]
pub open spec fn line_text(c: StaleView, k: int, n: int) -> Seq<char> {
    json_line(c) + (if k + 1 < n {
        seq![',']
    } else {
        Seq::empty()
    }) + seq!['\n']
}

/// The characters of a line.
proof fn lemma_line_text(c: StaleView, k: int, n: int)
    ensures
        line_text(c, k, n).len() == json_line(c).len() + (if k + 1 < n { 2int } else { 1int }),
        forall|i: int| 0 <= i < json_line(c).len() ==> line_text(c, k, n)[i] == json_line(c)[i],
        k + 1 < n ==> line_text(c, k, n)[json_line(c).len() as int] == ',' && line_text(c, k, n)[json_line(c).len() + 1int] == '\n',
        k + 1 >= n ==> line_text(c, k, n)[json_line(c).len() as int] == '\n',
{
    reveal(line_text);
}

/// The lines of the first cards begin the lines of all of them.
proof fn lemma_lines_prefix(cards: Seq<StaleView>, n: int, j: int)
    requires
        0 <= j <= cards.len(),
    ensures
        json_lines(cards.take(j), n).len() <= json_lines(cards, n).len(),
        json_lines(cards, n).subrange(0, json_lines(cards.take(j), n).len() as int) == json_lines(
            cards.take(j),
            n,
        ),
    decreases cards.len() - j,
{
    if j < cards.len() {
        lemma_lines_prefix(cards, n, j + 1);
        assert(cards.take(j + 1).drop_last() =~= cards.take(j));
        assert(cards.take(j + 1).last() == cards[j]);
        let a = json_lines(cards.take(j), n);
        let b = json_lines(cards.take(j + 1), n);
        let w = json_lines(cards, n);
        assert(b == a + line_text(cards[j], j, n)) by {
            reveal(line_text);
        }
        assert(w.subrange(0, a.len() as int) =~= b.subrange(0, a.len() as int));
        assert(b.subrange(0, a.len() as int) =~= a);
    } else {
        assert(cards.take(j) =~= cards);
        assert(json_lines(cards, n).subrange(0, json_lines(cards, n).len() as int) =~= json_lines(cards, n));
    }
}

/// Where line `k` of the JSON report starts.
pub open spec fn line_start(cards: Seq<StaleView>, k: int) -> int {
    2 + json_lines(cards.take(k), cards.len() as int).len() as int
}

/// Line `k` is written where it starts.
proof fn lemma_line_at(cards: Seq<StaleView>, k: int)
    requires
        0 <= k < cards.len(),
    ensures
        line_start(cards, k) + line_text(cards[k], k, cards.len() as int).len() + 1 <= json_text(cards).len(),
        json_text(cards).subrange(
            line_start(cards, k),
            line_start(cards, k) + line_text(cards[k], k, cards.len() as int).len(),
        ) == line_text(cards[k], k, cards.len() as int),
        line_start(cards, k) + line_text(cards[k], k, cards.len() as int).len() == if k + 1 < cards.len() {
            line_start(cards, k + 1)
        } else {
            json_text(cards).len() - 1
        },
{
    let n = cards.len() as int;
    let s = json_text(cards);
    let lines = json_lines(cards, n);
    lemma_lines_prefix(cards, n, k + 1);
    assert(cards.take(k + 1).drop_last() =~= cards.take(k));
    assert(cards.take(k + 1).last() == cards[k]);
    let a = json_lines(cards.take(k), n);
    let l = line_text(cards[k], k, n);
    let b = json_lines(cards.take(k + 1), n);
    assert(b == a + l) by {
        reveal(line_text);
    }
    assert(s == seq!['[', '\n'] + lines + seq![']']);
    assert forall|i: int| 0 <= i < l.len() implies s.subrange(line_start(cards, k), line_start(cards, k)
        + l.len())[i] == l[i] by {
        assert(s[2 + a.len() + i] == lines[a.len() + i]);
        assert(lines.subrange(0, b.len() as int)[a.len() + i] == b[a.len() + i]);
    }
    assert(s.subrange(line_start(cards, k), line_start(cards, k) + l.len()) =~= l);
    if k + 1 == n {
        assert(cards.take(k + 1) =~= cards);
    }
}

/// The object on line `k` reads back, and what follows it is a comma and the
/// next line's indentation, or the last newline and `]`.
#[verifier::spinoff_prover]
#[verifier::rlimit(40)]
proof fn lemma_line_object(cards: Seq<StaleView>, k: int)
    requires
        0 <= k < cards.len(),
    ensures
        ({
            let s = json_text(cards);
            let e = line_start(cards, k) + json_line(cards[k]).len();
            &&& value_at(s, line_start(cards, k) + 2) == Ok::<(Json, int), Seq<char>>((card_json(cards[k]), e))
            &&& 0 <= e < s.len()
            &&& k + 1 < cards.len() ==> s[e] == ',' && scan_ws(s, e + 1) == line_start(cards, k + 1) + 2
            &&& k + 1 >= cards.len() ==> s[e] == '\n' && scan_ws(s, e) == s.len() - 1 && s[s.len() - 1] == ']'
        }),
{
    let n = cards.len() as int;
    let s = json_text(cards);
    let c = cards[k];
    let p = line_start(cards, k);
    let l = line_text(c, k, n);
    lemma_line_at(cards, k);
    lemma_card_line_layout(c);
    lemma_line_text(c, k, n);
    let mt = members_text(card_fields(c));
    let jl = json_line(c);
    assert(jl == seq![' ', ' ', '{'] + mt);
    assert(s[p + 2] == '{') by {
        assert(s.subrange(p, p + l.len())[2] == s[p + 2]);
        assert(l[2] == jl[2]);
    }
    assert(s.subrange(p + 3, p + 3 + mt.len()) =~= mt) by {
        assert forall|i: int| 0 <= i < mt.len() implies s.subrange(p + 3, p + 3 + mt.len())[i] == mt[i] by {
            assert(s.subrange(p, p + l.len())[3 + i] == s[p + 3 + i]);
            assert(l[3 + i] == jl[3 + i]);
        }
    }
    assert(!is_ws('{'));
    assert(scan_ws(s, p + 2) == p + 2);
    lemma_card_object(s, p + 2, p + 2, c);
    let e = p + 3 + mt.len();
    assert(e == p + jl.len());
    assert(s[e] == l[jl.len() as int]) by {
        assert(s.subrange(p, p + l.len())[jl.len() as int] == s[e]);
    }
    if k + 1 < n {
        assert(s[e + 1] == '\n') by {
            assert(s.subrange(p, p + l.len())[jl.len() + 1int] == s[e + 1]);
        }
        lemma_line_at(cards, k + 1);
        let p2 = line_start(cards, k + 1);
        let l2 = line_text(cards[k + 1], k + 1, n);
        let jl2 = json_line(cards[k + 1]);
        lemma_card_line_layout(cards[k + 1]);
        lemma_line_text(cards[k + 1], k + 1, n);
        assert(p2 == e + 2);
        assert(s[p2] == ' ' && s[p2 + 1] == ' ' && s[p2 + 2] == '{') by {
            assert(s.subrange(p2, p2 + l2.len())[0] == s[p2]);
            assert(s.subrange(p2, p2 + l2.len())[1] == s[p2 + 1]);
            assert(s.subrange(p2, p2 + l2.len())[2] == s[p2 + 2]);
            assert(l2[0] == jl2[0] && l2[1] == jl2[1] && l2[2] == jl2[2]);
        }
        assert(is_ws('\n') && is_ws(' '));
        assert(scan_ws(s, e + 4) == e + 4);
        assert(scan_ws(s, e + 3) == e + 4);
        assert(scan_ws(s, e + 2) == e + 4);
        assert(scan_ws(s, e + 1) == e + 4);
    } else {
        assert(e + 1 == s.len() - 1);
        assert(s[e + 1] == ']');
        assert(is_ws('\n') && !is_ws(']'));
        assert(scan_ws(s, e + 1) == e + 1);
        assert(scan_ws(s, e) == e + 1);
    }
}

/// From the object on line `k` on, the elements read back, up to the end.
#[verifier::spinoff_prover]
#[verifier::rlimit(40)]
proof fn lemma_elements_read(cards: Seq<StaleView>, k: int)
    requires
        0 <= k < cards.len(),
    ensures
        elements_at(json_text(cards), line_start(cards, k) + 2) == Ok::<(Seq<Json>, int), Seq<char>>(
            (
                Seq::new((cards.len() - k) as nat, |i: int| card_json(cards[k + i])),
                json_text(cards).len() as int,
            ),
        ),
    decreases cards.len() - k,
{
    let n = cards.len() as int;
    let s = json_text(cards);
    lemma_line_object(cards, k);
    lemma_line_at(cards, k);
    lemma_line_text(cards[k], k, n);
    lemma_card_line_layout(cards[k]);
    let p = line_start(cards, k) + 2;
    let e = line_start(cards, k) + json_line(cards[k]).len();
    assert(p < e);
    let v = card_json(cards[k]);
    assert(!is_ws(','));
    if k + 1 < n {
        assert(scan_ws(s, e) == e);
        assert(line_start(cards, k + 1) + 2 > p);
        assert(line_start(cards, k + 1) + 2 <= s.len()) by {
            lemma_line_object(cards, k + 1);
        }
        lemma_elements_read(cards, k + 1);
        assert(Seq::new((n - k) as nat, |i: int| card_json(cards[k + i])) =~= seq![v] + Seq::new(
            (n - (k + 1)) as nat,
            |i: int| card_json(cards[k + 1 + i]),
        ));
    } else {
        assert(Seq::new((n - k) as nat, |i: int| card_json(cards[k + i])) =~= seq![v]);
    }
}

/// The JSON report reads back: what `render_json` prints for a list of cards
/// is a JSON document, an array with one object per card, in order, holding the
/// card name, the list name, the entry time and the staleness (as the decimal
/// text written) and the human-readable staleness.
pub proof fn law_json_report_reads_back(cards: Seq<StaleView>)
    ensures
        document(json_text(cards)) == Ok::<Json, Seq<char>>(
            Json::Array(Seq::new(cards.len(), |i: int| card_json(cards[i]))),
        ),
{
    let s = json_text(cards);
    assert(is_ws('\n') && is_ws(' ') && !is_ws('[') && !is_ws(']') && !is_ws('{'));
    assert(s[0] == '[');
    assert(s[1] == '\n');
    assert(scan_ws(s, 0) == 0);
    if cards.len() == 0 {
        assert(s =~= seq!['[', '\n', ']']);
        assert(scan_ws(s, 2) == 2);
        assert(scan_ws(s, 1) == 2);
        assert(scan_ws(s, 3) == 3);
        assert(Seq::new(cards.len(), |i: int| card_json(cards[i])) =~= Seq::<Json>::empty());
    } else {
        lemma_elements_read(cards, 0);
        lemma_line_at(cards, 0);
        assert(cards.take(0) =~= Seq::<StaleView>::empty());
        assert(line_start(cards, 0) == 2);
        let l = line_text(cards[0], 0, cards.len() as int);
        let jl = json_line(cards[0]);
        lemma_card_line_layout(cards[0]);
        lemma_line_text(cards[0], 0, cards.len() as int);
        assert(s[2] == ' ' && s[3] == ' ' && s[4] == '{') by {
            assert(s.subrange(2, 2 + l.len() as int)[0] == s[2]);
            assert(s.subrange(2, 2 + l.len() as int)[1] == s[3]);
            assert(s.subrange(2, 2 + l.len() as int)[2] == s[4]);
            assert(l[0] == jl[0] && l[1] == jl[1] && l[2] == jl[2]);
        }
        assert(scan_ws(s, 4) == 4);
        assert(scan_ws(s, 3) == 4);
        assert(scan_ws(s, 2) == 4);
        assert(scan_ws(s, 1) == 4);
        assert(scan_ws(s, s.len() as int) == s.len());
        assert(Seq::new((cards.len() - 0) as nat, |i: int| card_json(cards[0 + i])) =~= Seq::new(
            cards.len(),
            |i: int| card_json(cards[i]),
        ));
    }
}

/// An escaped text between quotes is a whole JSON document that reads back as
/// exactly that text: `parse` of `"` + `json_escape(t)` + `"` gives the string `t`.
pub proof fn law_escaped_string_parses_back(t: Seq<char>)
    ensures
        document(seq!['"'] + escaped(t) + seq!['"']) == Ok::<Json, Seq<char>>(Json::Str(t)),
{
    let s = seq!['"'] + escaped(t) + seq!['"'];
    law_escape_reads_back(t, Seq::empty());
    assert(s + Seq::<char>::empty() =~= s);
    assert(s[0] == '"');
    assert(scan_ws(s, 0) == 0);
    let e = escaped(t).len() + 2;
    assert(s.len() == e);
    assert(scan_ws(s, e as int) == e);
    assert(value_at(s, 0) == Ok::<(Json, int), Seq<char>>((Json::Str(t), e as int)));
}

} // verus!
