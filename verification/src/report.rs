//! What the command line prints: the cards chosen and ordered, as a table or
//! as JSON.
use vstd::prelude::*;
use crate::text::{
    push_char, collect_chars, nat_decimal, int_decimal, pad_right, push_padded, push_u64_decimal,
    push_i64_decimal,
};
use crate::time::{duration_text, format_duration};
use crate::board::{StaleCard, StaleView, stale_views};
use crate::json::{
    string_body, string_with, hex_run, hex_digit, unicode_escape, code_point_chars, simple_escape,
};

verus! {

broadcast use vstd::std_specs::vec::group_vec_axioms, vstd::seq::group_seq_axioms;

/// A lowercase hexadecimal digit.
pub open spec fn hex_lower(d: int) -> char {
    if d < 10 {
        (48 + d) as char
    } else {
        (87 + d) as char
    }
}

/// How one character is written inside a JSON string literal.
pub open spec fn escape_char(c: char) -> Seq<char> {
    if c == '"' {
        seq!['\\', '"']
    } else if c == '\\' {
        seq!['\\', '\\']
    } else if c == '\n' {
        seq!['\\', 'n']
    } else if c == '\r' {
        seq!['\\', 'r']
    } else if c == '\t' {
        seq!['\\', 't']
    } else if (c as u32) < 0x20 {
        seq!['\\', 'u', '0', '0', hex_lower(((c as u32) / 16) as int), hex_lower(((c as u32) % 16) as int)]
    } else {
        seq![c]
    }
}

/// A text escaped for a JSON string literal, character by character.
pub open spec fn escaped(s: Seq<char>) -> Seq<char>
    decreases s.len(),
{
    if s.len() == 0 {
        Seq::empty()
    } else {
        escaped(s.drop_last()) + escape_char(s.last())
    }
}

/// A lowercase hexadecimal digit.
fn hex_lower_digit(d: u32) -> (c: char)
    requires
        d < 16,
    ensures
        c == hex_lower(d as int),
{
    if d < 10 {
        ((48 + d) as u8) as char
    } else {
        ((87 + d) as u8) as char
    }
}

/// Escapes `s` for use inside a JSON string literal: quotes, backslashes,
/// newlines, carriage returns and tabs get their short escapes, other control
/// characters a `\u00XX` escape; everything else stays as it is.
pub fn json_escape(s: &str) -> (r: String)
    ensures
        r@ == escaped(s@),
{
    broadcast use vstd::string::group_string_axioms;

    let mut out = String::new();
    let ghost mut seen: Seq<char> = Seq::empty();
    for c in it: s.chars()
        invariant
            out@ == escaped(seen),
            seen == it.seq().take(it.index()),
    {
        let ghost before = out@;
        let ghost pre = seen;
        proof {
            seen = seen.push(c);
            assert(seen =~= it.seq().take(it.index() + 1));
        }
        let ghost next = seen;
        if c == '"' {
            push_char(&mut out, '\\');
            push_char(&mut out, '"');
        } else if c == '\\' {
            push_char(&mut out, '\\');
            push_char(&mut out, '\\');
        } else if c == '\n' {
            push_char(&mut out, '\\');
            push_char(&mut out, 'n');
        } else if c == '\r' {
            push_char(&mut out, '\\');
            push_char(&mut out, 'r');
        } else if c == '\t' {
            push_char(&mut out, '\\');
            push_char(&mut out, 't');
        } else if (c as u32) < 0x20 {
            let u = c as u32;
            push_char(&mut out, '\\');
            push_char(&mut out, 'u');
            push_char(&mut out, '0');
            push_char(&mut out, '0');
            push_char(&mut out, hex_lower_digit(u / 16));
            push_char(&mut out, hex_lower_digit(u % 16));
        } else {
            push_char(&mut out, c);
        }
        proof {
            assert(next.drop_last() =~= pre);
            assert(next.last() == c);
            assert(out@ =~= before + escape_char(c));
        }
    }
    assert(seen =~= s@);
    out
}

// ----- Escaping and reading back -----

/// Escaping works front to back as well.
proof fn lemma_escaped_front(c: char, t: Seq<char>)
    ensures
        escaped(seq![c] + t) == escape_char(c) + escaped(t),
    decreases t.len(),
{
    let s = seq![c] + t;
    if t.len() == 0 {
        assert(s.drop_last() =~= Seq::<char>::empty());
        assert(s.last() == c);
        assert(escaped(s) == escaped(s.drop_last()) + escape_char(c));
        assert(escaped(Seq::<char>::empty()) == Seq::<char>::empty());
        assert(t =~= Seq::<char>::empty());
        assert(escape_char(c) + Seq::<char>::empty() =~= escape_char(c));
        assert(Seq::<char>::empty() + escape_char(c) =~= escape_char(c));
    } else {
        lemma_escaped_front(c, t.drop_last());
        assert(s.drop_last() =~= seq![c] + t.drop_last());
        assert(s.last() == t.last());
        assert(escape_char(c) + escaped(t.drop_last()) + escape_char(t.last()) =~= escape_char(c) + (
        escaped(t.drop_last()) + escape_char(t.last())));
    }
}

/// One escaped character at `q` reads back as that character.
proof fn lemma_read_one(s: Seq<char>, q: int, c: char)
    requires
        0 <= q,
        q + escape_char(c).len() < s.len(),
        s.subrange(q, q + escape_char(c).len()) == escape_char(c),
    ensures
        string_body(s, q) == string_with(seq![c], string_body(s, q + escape_char(c).len())),
{
    let e = escape_char(c);
    assert(forall|i: int| 0 <= i < e.len() ==> s[q + i] == #[trigger] e[i]) by {
        assert forall|i: int| 0 <= i < e.len() implies s[q + i] == #[trigger] e[i] by {
            assert(s.subrange(q, q + e.len())[i] == s[q + i]);
        }
    }
    if c == '"' || c == '\\' || c == '\n' || c == '\r' || c == '\t' {
        assert(s[q] == e[0]);
        assert(s[q + 1] == e[1]);
        assert(simple_escape(s[q + 1]) == Some(c));
    } else if (c as u32) < 0x20 {
        let u = c as u32;
        assert(s[q] == e[0]);
        assert(s[q + 1] == e[1]);
        assert(s[q + 2] == e[2]);
        assert(s[q + 3] == e[3]);
        assert(s[q + 4] == e[4]);
        assert(s[q + 5] == e[5]);
        assert(hex_digit(hex_lower((u / 16) as int)) == Some((u / 16) as int));
        assert(hex_digit(hex_lower((u % 16) as int)) == Some((u % 16) as int));
        assert(hex_run(s, q + 2, 4) == Ok::<int, Seq<char>>(u as int)) by {
            reveal_with_fuel(hex_run, 5);
        }
        assert(code_point_chars(u as int) =~= seq![c]);
        assert(unicode_escape(s, q + 2) == Ok::<(Seq<char>, int), Seq<char>>((seq![c], q + 6)));
    } else {
        assert(s[q] == e[0]);
    }
}

/// An escaped text and a closing quote, after any prefix, read back as the text.
pub proof fn lemma_read_escaped(pre: Seq<char>, t: Seq<char>, rest: Seq<char>)
    ensures
        string_body(pre + escaped(t) + seq!['"'] + rest, pre.len() as int) == Ok::<(Seq<char>, int), Seq<char>>(
            (t, (pre.len() + escaped(t).len() + 1) as int),
        ),
    decreases t.len(),
{
    let s = pre + escaped(t) + seq!['"'] + rest;
    let q = pre.len() as int;
    if t.len() == 0 {
        assert(escaped(t) =~= Seq::<char>::empty());
        assert(s[q] == '"');
        assert(t =~= Seq::<char>::empty());
    } else {
        let c = t[0];
        let t2 = t.drop_first();
        assert(seq![c] + t2 =~= t);
        lemma_escaped_front(c, t2);
        let e = escape_char(c);
        let pre2 = pre + e;
        lemma_read_escaped(pre2, t2, rest);
        assert(s =~= pre2 + escaped(t2) + seq!['"'] + rest);
        assert(s.subrange(q, q + e.len()) =~= e);
        lemma_read_one(s, q, c);
    }
}

/// Reading back: an escaped text between quotes reads back, as a JSON string
/// literal, as exactly the text, ending just after the closing quote, whatever
/// follows it.
pub proof fn law_escape_reads_back(t: Seq<char>, rest: Seq<char>)
    ensures
        string_body(seq!['"'] + escaped(t) + seq!['"'] + rest, 1) == Ok::<(Seq<char>, int), Seq<char>>(
            (t, (escaped(t).len() + 2) as int),
        ),
{
    lemma_read_escaped(seq!['"'], t, rest);
}

/// Escaping goes character by character: the escape of two texts one after the
/// other is the escape of the first followed by the escape of the second.
pub proof fn law_escape_concat(a: Seq<char>, b: Seq<char>)
    ensures
        escaped(a + b) == escaped(a) + escaped(b),
    decreases b.len(),
{
    if b.len() == 0 {
        assert(a + b =~= a);
        assert(escaped(a) + escaped(b) =~= escaped(a));
    } else {
        law_escape_concat(a, b.drop_last());
        assert((a + b).drop_last() =~= a + b.drop_last());
        assert((a + b).last() == b.last());
        assert(escaped(a) + escaped(b.drop_last()) + escape_char(b.last()) =~= escaped(a) + escaped(b));
    }
}

/// The escape of one character holds no control character.
proof fn lemma_escape_char_printable(c: char)
    ensures
        forall|i: int| 0 <= i < escape_char(c).len() ==> (#[trigger] escape_char(c)[i] as u32) >= 0x20,
{
    if (c as u32) < 0x20 && c != '\n' && c != '\r' && c != '\t' {
        let u = c as u32;
        assert(u / 16 < 2);
        assert(hex_lower((u / 16) as int) as u32 >= 0x20);
        assert(hex_lower((u % 16) as int) as u32 >= 0x20);
    }
}

/// An escaped text holds no control character (none below U+0020).
pub proof fn law_escape_has_no_control(t: Seq<char>)
    ensures
        forall|i: int| 0 <= i < escaped(t).len() ==> (#[trigger] escaped(t)[i] as u32) >= 0x20,
    decreases t.len(),
{
    if t.len() > 0 {
        law_escape_has_no_control(t.drop_last());
        lemma_escape_char_printable(t.last());
        let a = escaped(t.drop_last());
        let b = escape_char(t.last());
        assert forall|i: int| 0 <= i < escaped(t).len() implies (#[trigger] escaped(t)[i] as u32) >= 0x20 by {
            if i < a.len() {
                assert(escaped(t)[i] == a[i]);
            } else {
                assert(escaped(t)[i] == b[i - a.len()]);
            }
        }
    }
}

/// A text with no quote, no backslash and no control character escapes to itself.
pub proof fn law_plain_text_is_unchanged(t: Seq<char>)
    requires
        forall|i: int| 0 <= i < t.len() ==> #[trigger] t[i] != '"' && t[i] != '\\' && (t[i] as u32) >= 0x20,
    ensures
        escaped(t) == t,
    decreases t.len(),
{
    if t.len() > 0 {
        law_plain_text_is_unchanged(t.drop_last());
        let c = t.last();
        assert(c == t[t.len() - 1]);
        assert(escape_char(c) == seq![c]);
        assert(t.drop_last().push(c) =~= t);
        assert(escaped(t) =~= t.drop_last() + seq![c]);
    }
}

// ----- Choosing and ordering the cards -----

/// ASCII lowercase of one character; other characters stay as they are.
pub open spec fn ascii_lower(c: char) -> char {
    if 'A' <= c <= 'Z' {
        ((c as int) + 32) as char
    } else {
        c
    }
}

/// Equality ignoring ASCII case (`str::eq_ignore_ascii_case`).
pub open spec fn same_ignoring_ascii_case(a: Seq<char>, b: Seq<char>) -> bool {
    &&& a.len() == b.len()
    &&& forall|i: int| 0 <= i < a.len() ==> ascii_lower(#[trigger] a[i]) == ascii_lower(b[i])
}

/// The cards whose list is named `name`, ignoring ASCII case, in their order.
pub open spec fn in_list(cards: Seq<StaleView>, name: Seq<char>) -> Seq<StaleView>
    decreases cards.len(),
{
    if cards.len() == 0 {
        Seq::empty()
    } else {
        let prev = in_list(cards.drop_last(), name);
        if same_ignoring_ascii_case(cards.last().list_name, name) {
            prev.push(cards.last())
        } else {
            prev
        }
    }
}

/// The list filter keeps exactly the cards of the named list, in their order:
/// a card is kept when its list name has the length of `name` and agrees with it
/// character by character once ASCII capitals are lowered (`'A'..='Z'` become
/// `'a'..='z'`, every other character stays), and is dropped otherwise.
pub proof fn law_list_filter_keeps_exactly_that_list(cards: Seq<StaleView>, name: Seq<char>)
    ensures
        in_list(cards, name) == cards.filter(
            |c: StaleView|
                c.list_name.len() == name.len() && forall|i: int|
                    0 <= i < name.len() ==> (if 'A' <= #[trigger] c.list_name[i] <= 'Z' {
                        ((c.list_name[i] as int) + 32) as char
                    } else {
                        c.list_name[i]
                    }) == (if 'A' <= name[i] <= 'Z' {
                        ((name[i] as int) + 32) as char
                    } else {
                        name[i]
                    }),
        ),
    decreases cards.len(),
{
    reveal(Seq::filter);
    if cards.len() > 0 {
        law_list_filter_keeps_exactly_that_list(cards.drop_last(), name);
    }
}

/// `out` is `input` reordered by `p` (`out[k] == input[p[k]]`, `p` a permutation),
/// stalest first, cards equally stale keeping their order in `input`.
pub open spec fn stalest_first_by(input: Seq<StaleView>, out: Seq<StaleView>, p: Seq<int>) -> bool {
    &&& p.len() == input.len()
    &&& out.len() == input.len()
    &&& forall|k: int| 0 <= k < p.len() ==> 0 <= #[trigger] p[k] < input.len() && out[k] == input[p[k]]
    &&& forall|a: int, b: int| 0 <= a < b < p.len() ==> #[trigger] p[a] != #[trigger] p[b]
    &&& forall|a: int, b: int|
        0 <= a < b < out.len() ==> #[trigger] out[a].stale_seconds >= #[trigger] out[b].stale_seconds
    &&& forall|a: int, b: int|
        0 <= a < b < out.len() && #[trigger] out[a].stale_seconds == #[trigger] out[b].stale_seconds
            ==> p[a] < p[b]
}

/// `out` is the stable ordering of `input` with the stalest card first.
pub open spec fn stalest_first(input: Seq<StaleView>, out: Seq<StaleView>) -> bool {
    exists|p: Seq<int>| stalest_first_by(input, out, p)
}

/// The first `limit` cards, or all of them without a limit.
pub open spec fn at_most(cards: Seq<StaleView>, limit: Option<usize>) -> Seq<StaleView> {
    match limit {
        Some(n) => if n < cards.len() {
            cards.take(n as int)
        } else {
            cards
        },
        None => cards,
    }
}

/// ASCII lowercase of one character.
fn ascii_lower_char(c: char) -> (r: char)
    ensures
        r == ascii_lower(c),
{
    if 'A' <= c && c <= 'Z' {
        ((c as u32 + 32) as u8) as char
    } else {
        c
    }
}

/// Whether `a` and `b` are equal ignoring ASCII case.
pub fn eq_ignore_ascii_case(a: &str, b: &str) -> (r: bool)
    ensures
        r == same_ignoring_ascii_case(a@, b@),
{
    let x = collect_chars(a);
    let y = collect_chars(b);
    if x.len() != y.len() {
        return false;
    }
    let mut i: usize = 0;
    while i < x.len()
        invariant
            x@ == a@,
            y@ == b@,
            x.len() == y.len(),
            0 <= i <= x.len(),
            forall|j: int| 0 <= j < i ==> ascii_lower(#[trigger] x@[j]) == ascii_lower(y@[j]),
        decreases x.len() - i,
    {
        if ascii_lower_char(x[i]) != ascii_lower_char(y[i]) {
            return false;
        }
        i = i + 1;
    }
    true
}

/// The cards whose list is named `name` (ignoring ASCII case), in their order.
pub fn keep_list(cards: Vec<StaleCard>, name: &str) -> (r: Vec<StaleCard>)
    ensures
        stale_views(r@) == in_list(stale_views(cards@), name@),
{
    let ghost all = stale_views(cards@);
    let mut kept: Vec<StaleCard> = Vec::new();
    let ghost mut seen: Seq<StaleCard> = Seq::empty();
    for card in it: cards.into_iter()
        invariant
            seen == it.seq().take(it.index()),
            stale_views(kept@) == in_list(stale_views(seen), name@),
    {
        let ghost before = seen;
        proof {
            seen = seen.push(card);
            assert(seen =~= it.seq().take(it.index() + 1));
            assert(stale_views(seen).drop_last() =~= stale_views(before));
        }
        let ghost kept0 = stale_views(kept@);
        if eq_ignore_ascii_case(card.list_name.as_str(), name) {
            kept.push(card);
            assert(stale_views(kept@) =~= kept0.push(stale_views(seen).last()));
        }
    }
    assert(seen =~= cards@);
    kept
}

/// Orders cards stalest first; equally stale cards keep their order.
pub fn sort_stalest_first(cards: Vec<StaleCard>) -> (r: Vec<StaleCard>)
    ensures
        stalest_first(stale_views(cards@), stale_views(r@)),
{
    let ghost inp = stale_views(cards@);
    let mut sorted: Vec<StaleCard> = Vec::new();
    let ghost mut p: Seq<int> = Seq::empty();
    let ghost mut seen: Seq<StaleCard> = Seq::empty();
    for card in it: cards.into_iter()
        invariant
            seen == it.seq().take(it.index()),
            stalest_first_by(stale_views(seen), stale_views(sorted@), p),
    {
        let ghost before = stale_views(seen);
        let ghost i = seen.len() as int;
        let ghost out = stale_views(sorted@);
        let ghost x = card@;
        proof {
            seen = seen.push(card);
            assert(seen =~= it.seq().take(it.index() + 1));
        }
        let ghost after = stale_views(seen);
        assert(after.drop_last() =~= before);
        assert(after[i] == x);
        let mut pos: usize = 0;
        while pos < sorted.len() && sorted[pos].stale_seconds >= card.stale_seconds
            invariant
                0 <= pos <= sorted.len(),
                out == stale_views(sorted@),
                x == card@,
                forall|k: int| 0 <= k < pos ==> #[trigger] out[k].stale_seconds >= x.stale_seconds,
            decreases sorted.len() - pos,
        {
            pos = pos + 1;
        }
        proof {
            assert forall|k: int| pos <= k < out.len() implies #[trigger] out[k].stale_seconds < x.stale_seconds by {
                if k > pos {
                    assert(out[pos as int].stale_seconds >= out[k].stale_seconds);
                }
            }
        }
        sorted.insert(pos, card);
        let ghost out2 = stale_views(sorted@);
        let ghost p2 = p.insert(pos as int, i);
        assert(out2 =~= out.insert(pos as int, x));
        proof {
            assert forall|k: int| 0 <= k < p2.len() implies 0 <= #[trigger] p2[k] < after.len() && out2[k] == after[p2[k]] by {
                if k < pos {
                    assert(p2[k] == p[k]);
                    assert(out2[k] == out[k]);
                    assert(after[p[k]] == before[p[k]]);
                } else if k == pos {
                } else {
                    assert(p2[k] == p[k - 1]);
                    assert(out2[k] == out[k - 1]);
                    assert(after[p[k - 1]] == before[p[k - 1]]);
                }
            }
            assert forall|a: int, b: int| 0 <= a < b < p2.len() implies #[trigger] p2[a] != #[trigger] p2[b] by {
                if a < pos && b < pos {
                    assert(p[a] != p[b]);
                } else if a < pos && b == pos {
                    assert(p[a] < i);
                } else if a < pos && b > pos {
                    assert(p[a] != p[b - 1]);
                } else if a == pos {
                    assert(p[b - 1] < i);
                } else {
                    assert(p[a - 1] != p[b - 1]);
                }
            }
            assert forall|a: int, b: int| 0 <= a < b < out2.len() implies #[trigger] out2[a].stale_seconds
                >= #[trigger] out2[b].stale_seconds by {
                if a < pos && b < pos {
                    assert(out[a].stale_seconds >= out[b].stale_seconds);
                } else if a < pos && b == pos {
                    assert(out[a].stale_seconds >= x.stale_seconds);
                } else if a < pos && b > pos {
                    assert(out[a].stale_seconds >= out[b - 1].stale_seconds);
                } else if a == pos {
                    assert(out[b - 1].stale_seconds < x.stale_seconds);
                } else {
                    assert(out[a - 1].stale_seconds >= out[b - 1].stale_seconds);
                }
            }
            assert forall|a: int, b: int|
                0 <= a < b < out2.len() && #[trigger] out2[a].stale_seconds == #[trigger] out2[b].stale_seconds
                    implies p2[a] < p2[b] by {
                if a < pos && b < pos {
                    assert(out[a].stale_seconds == out[b].stale_seconds);
                } else if a < pos && b == pos {
                    assert(p[a] < i);
                } else if a < pos && b > pos {
                    assert(out[a].stale_seconds == out[b - 1].stale_seconds);
                } else if a == pos {
                    assert(out[b - 1].stale_seconds < x.stale_seconds);
                } else {
                    assert(out[a - 1].stale_seconds == out[b - 1].stale_seconds);
                }
            }
            p = p2;
        }
    }
    assert(seen =~= cards@);
    sorted
}

/// The cards to report: those in the list named `list_filter` (ignoring ASCII
/// case) when there is a filter, stalest first with ties in their input
/// order, and at most `limit` of them.
pub fn select_cards(cards: Vec<StaleCard>, list_filter: Option<&str>, limit: Option<usize>) -> (r: Vec<StaleCard>)
    ensures
        exists|ordered: Seq<StaleView>|
            stalest_first(
                match list_filter {
                    Some(name) => in_list(stale_views(cards@), name@),
                    None => stale_views(cards@),
                },
                ordered,
            ) && stale_views(r@) == at_most(ordered, limit),
{
    let chosen = match list_filter {
        Some(name) => keep_list(cards, name),
        None => cards,
    };
    let mut ordered = sort_stalest_first(chosen);
    let ghost full = stale_views(ordered@);
    match limit {
        Some(n) => {
            ordered.truncate(n);
            assert(stale_views(ordered@) =~= at_most(full, limit));
        },
        None => {},
    }
    assert(stalest_first(
        match list_filter {
            Some(name) => in_list(stale_views(cards@), name@),
            None => stale_views(cards@),
        },
        full,
    ) && stale_views(ordered@) == at_most(full, limit));
    ordered
}

// ----- The table -----

/// The widest card name, and at least 4.
pub open spec fn name_width(cards: Seq<StaleView>) -> int
    decreases cards.len(),
{
    if cards.len() == 0 {
        4
    } else {
        let w = name_width(cards.drop_last());
        if cards.last().card_name.len() > w {
            cards.last().card_name.len() as int
        } else {
            w
        }
    }
}

/// The widest list name, and at least 4.
pub open spec fn list_width(cards: Seq<StaleView>) -> int
    decreases cards.len(),
{
    if cards.len() == 0 {
        4
    } else {
        let w = list_width(cards.drop_last());
        if cards.last().list_name.len() > w {
            cards.last().list_name.len() as int
        } else {
            w
        }
    }
}

/// One line of the table.
pub open spec fn table_line(c: StaleView, nw: int, lw: int) -> Seq<char> {
    pad_right(c.card_name, nw) + seq![' ', ' '] + pad_right(c.list_name, lw) + seq![' ', ' ']
        + duration_text(c.stale_seconds as int) + seq!['\n']
}

/// The lines of the table for `cards`.
pub open spec fn table_lines(cards: Seq<StaleView>, nw: int, lw: int) -> Seq<char>
    decreases cards.len(),
{
    if cards.len() == 0 {
        Seq::empty()
    } else {
        table_lines(cards.drop_last(), nw, lw) + table_line(cards.last(), nw, lw)
    }
}

/// The table printed for `cards`: a header and a line per card, the columns as
/// wide as their widest entry; a message when there is no card.
pub open spec fn table_text(cards: Seq<StaleView>) -> Seq<char> {
    if cards.len() == 0 {
        "no open cards found in this export\n"@
    } else {
        let nw = name_width(cards);
        let lw = list_width(cards);
        pad_right("CARD"@, nw) + seq![' ', ' '] + pad_right("LIST"@, lw) + "  STALE\n"@
            + table_lines(cards, nw, lw)
    }
}

/// Renders the cards as the human-readable table.
pub fn render_table(cards: &Vec<StaleCard>) -> (r: String)
    ensures
        r@ == table_text(stale_views(cards@)),
{
    let ghost cs = stale_views(cards@);
    if cards.len() == 0 {
        return String::from_str("no open cards found in this export\n");
    }
    let mut nw: usize = 4;
    let mut lw: usize = 4;
    let mut i: usize = 0;
    assert(cs.take(0) =~= Seq::<StaleView>::empty());
    while i < cards.len()
        invariant
            0 <= i <= cards.len(),
            cs == stale_views(cards@),
            nw == name_width(cs.take(i as int)),
            lw == list_width(cs.take(i as int)),
        decreases cards.len() - i,
    {
        assert(cs.take(i + 1).drop_last() =~= cs.take(i as int));
        assert(cs.take(i + 1).last() == cards@[i as int]@);
        let n = cards[i].card_name.as_str().unicode_len();
        if n > nw {
            nw = n;
        }
        let l = cards[i].list_name.as_str().unicode_len();
        if l > lw {
            lw = l;
        }
        i = i + 1;
    }
    assert(cs.take(cards.len() as int) =~= cs);
    let mut out = String::new();
    push_padded(&mut out, "CARD", nw);
    out.append("  ");
    push_padded(&mut out, "LIST", lw);
    out.append("  STALE\n");
    proof {
        reveal_strlit("  ");
    }
    let ghost head = out@;
    let mut k: usize = 0;
    assert(table_lines(cs.take(0), nw as int, lw as int) =~= Seq::<char>::empty());
    while k < cards.len()
        invariant
            0 <= k <= cards.len(),
            cs == stale_views(cards@),
            out@ == head + table_lines(cs.take(k as int), nw as int, lw as int),
        decreases cards.len() - k,
    {
        assert(cs.take(k + 1).drop_last() =~= cs.take(k as int));
        assert(cs.take(k + 1).last() == cards@[k as int]@);
        let ghost before = out@;
        let card = &cards[k];
        push_padded(&mut out, card.card_name.as_str(), nw);
        out.append("  ");
        push_padded(&mut out, card.list_name.as_str(), lw);
        out.append("  ");
        let d = format_duration(card.stale_seconds);
        out.append(d.as_str());
        push_char(&mut out, '\n');
        proof {
            reveal_strlit("  ");
        }
        assert(out@ =~= before + table_line(card@, nw as int, lw as int));
        k = k + 1;
    }
    assert(cs.take(cards.len() as int) =~= cs);
    assert(out@ =~= table_text(cs));
    out
}

// ----- JSON output -----

/// One card as a JSON object on a line of its own.
#[verifier::opaque]
pub open spec fn json_line(c: StaleView) -> Seq<char> {
    "  {\"card\": \""@ + escaped(c.card_name) + "\", \"list\": \""@ + escaped(c.list_name)
        + "\", \"entered_at_unix\": "@ + nat_decimal(c.entered_at as nat) + ", \"stale_seconds\": "@
        + int_decimal(c.stale_seconds as int) + ", \"stale_human\": \""@ + escaped(
        duration_text(c.stale_seconds as int),
    ) + "\"}"@
}

/// The lines for the first `k` of `n` cards, each but the last followed by a comma.
pub open spec fn json_lines(cards: Seq<StaleView>, n: int) -> Seq<char>
    decreases cards.len(),
{
    if cards.len() == 0 {
        Seq::empty()
    } else {
        json_lines(cards.drop_last(), n) + json_line(cards.last()) + (if cards.len() < n {
            seq![',']
        } else {
            Seq::empty()
        }) + seq!['\n']
    }
}

/// The JSON array printed for `cards` (without the final newline).
pub open spec fn json_text(cards: Seq<StaleView>) -> Seq<char> {
    seq!['[', '\n'] + json_lines(cards, cards.len() as int) + seq![']']
}

/// Renders the cards as a JSON array, one object per line.
pub fn render_json(cards: &Vec<StaleCard>) -> (r: String)
    ensures
        r@ == json_text(stale_views(cards@)),
{
    let ghost cs = stale_views(cards@);
    let mut out = String::new();
    push_char(&mut out, '[');
    push_char(&mut out, '\n');
    let ghost head = out@;
    assert(json_lines(cs.take(0), cs.len() as int) =~= Seq::<char>::empty());
    let mut i: usize = 0;
    while i < cards.len()
        invariant
            0 <= i <= cards.len(),
            cs == stale_views(cards@),
            head == seq!['[', '\n'],
            out@ == head + json_lines(cs.take(i as int), cs.len() as int),
        decreases cards.len() - i,
    {
        assert(cs.take(i + 1).drop_last() =~= cs.take(i as int));
        assert(cs.take(i + 1).last() == cards@[i as int]@);
        let ghost before = out@;
        let card = &cards[i];
        out.append("  {\"card\": \"");
        out.append(json_escape(card.card_name.as_str()).as_str());
        out.append("\", \"list\": \"");
        out.append(json_escape(card.list_name.as_str()).as_str());
        out.append("\", \"entered_at_unix\": ");
        push_u64_decimal(&mut out, card.entered_at);
        out.append(", \"stale_seconds\": ");
        push_i64_decimal(&mut out, card.stale_seconds);
        out.append(", \"stale_human\": \"");
        out.append(json_escape(format_duration(card.stale_seconds).as_str()).as_str());
        out.append("\"}");
        let ghost mid = out@;
        assert(mid =~= before + json_line(card@)) by {
            reveal(json_line);
        }
        if i + 1 < cards.len() {
            push_char(&mut out, ',');
        }
        push_char(&mut out, '\n');
        assert(out@ =~= before + json_line(card@) + (if i + 1 < cs.len() {
            seq![',']
        } else {
            Seq::<char>::empty()
        }) + seq!['\n']);
        i = i + 1;
    }
    assert(cs.take(cards.len() as int) =~= cs);
    push_char(&mut out, ']');
    assert(out@ =~= json_text(cs));
    out
}

} // verus!
