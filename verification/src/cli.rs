//! The command line: what the arguments ask for.
use vstd::prelude::*;
use crate::text::{str_eq, collect_chars, is_ascii_digit, is_digit};
use crate::time::{digits_value, all_digits, lemma_digits_prefix};

verus! {

broadcast use vstd::std_specs::vec::group_vec_axioms, vstd::seq::group_seq_axioms;

/// The options of a run.
pub struct Args {
    pub path: String,
    pub json_output: bool,
    pub limit: Option<usize>,
    pub list_filter: Option<String>,
}

/// What the command line asks for: the usage text, or a run.
pub enum Command {
    Help,
    Run(Args),
}

/// The options seen so far while reading the arguments.
pub struct Seen {
    pub path: Option<Seq<char>>,
    pub json_output: bool,
    pub limit: Option<usize>,
    pub list_filter: Option<Seq<char>>,
}

/// The model of a `Command`.
pub enum CommandView {
    Help,
    Run { path: Seq<char>, json_output: bool, limit: Option<usize>, list_filter: Option<Seq<char>> },
}

/// The model of a parsed command line.
pub open spec fn command_view(c: Command) -> CommandView {
    match c {
        Command::Help => CommandView::Help,
        Command::Run(a) => CommandView::Run {
            path: a.path@,
            json_output: a.json_output,
            limit: a.limit,
            list_filter: match a.list_filter {
                Some(l) => Some(l@),
                None => None,
            },
        },
    }
}

/// What `str::parse::<usize>` accepts: an optional `+`, then one or more ASCII
/// digits, with a value that fits in `usize`.
pub open spec fn usize_literal(t: Seq<char>) -> Option<usize> {
    if t.len() == 0 {
        None
    } else {
        let ds = if t[0] == '+' {
            t.drop_first()
        } else {
            t
        };
        if ds.len() == 0 || !all_digits(ds) || digits_value(ds) > usize::MAX {
            None
        } else {
            Some(digits_value(ds) as usize)
        }
    }
}

/// Reads the arguments from position `i` on, with the options seen so far.
pub open spec fn read_args(args: Seq<Seq<char>>, i: int, seen: Seen) -> Result<CommandView, Seq<char>>
    decreases args.len() - i,
{
    if !(0 <= i < args.len()) {
        match seen.path {
            Some(p) => Ok(
                CommandView::Run {
                    path: p,
                    json_output: seen.json_output,
                    limit: seen.limit,
                    list_filter: seen.list_filter,
                },
            ),
            None => Err("missing path to a board export JSON file"@),
        }
    } else {
        let a = args[i];
        if a == "--json"@ {
            read_args(
                args,
                i + 1,
                Seen { path: seen.path, json_output: true, limit: seen.limit, list_filter: seen.list_filter },
            )
        } else if a == "--limit"@ {
            if i + 1 >= args.len() {
                Err("--limit requires a number"@)
            } else {
                match usize_literal(args[i + 1]) {
                    Some(n) => read_args(
                        args,
                        i + 2,
                        Seen {
                            path: seen.path,
                            json_output: seen.json_output,
                            limit: Some(n),
                            list_filter: seen.list_filter,
                        },
                    ),
                    None => Err("--limit expects a positive integer"@),
                }
            }
        } else if a == "--list"@ {
            if i + 1 >= args.len() {
                Err("--list requires a list name"@)
            } else {
                read_args(
                    args,
                    i + 2,
                    Seen {
                        path: seen.path,
                        json_output: seen.json_output,
                        limit: seen.limit,
                        list_filter: Some(args[i + 1]),
                    },
                )
            }
        } else if a == "-h"@ || a == "--help"@ {
            Ok(CommandView::Help)
        } else if seen.path is None {
            read_args(
                args,
                i + 1,
                Seen { path: Some(a), json_output: seen.json_output, limit: seen.limit, list_filter: seen.list_filter },
            )
        } else {
            Err("unexpected argument '"@ + a + "'"@)
        }
    }
}

/// The texts of the arguments.
pub open spec fn arg_texts(args: Seq<String>) -> Seq<Seq<char>> {
    args.map_values(|a: String| a@)
}

/// The command a command line asks for (the arguments after the program name).
pub open spec fn command_line(args: Seq<Seq<char>>) -> Result<CommandView, Seq<char>> {
    read_args(args, 0, Seen { path: None, json_output: false, limit: None, list_filter: None })
}

/// Once `--json` has been read, the run it leads to prints JSON.
proof fn lemma_json_kept(args: Seq<Seq<char>>, j: int, seen: Seen)
    requires
        seen.json_output,
    ensures
        read_args(args, j, seen) matches Ok(CommandView::Run { json_output, .. }) ==> json_output,
    decreases args.len() - j,
{
    if 0 <= j < args.len() {
        let a = args[j];
        if a == "--json"@ {
            lemma_json_kept(args, j + 1, Seen { path: seen.path, json_output: true, limit: seen.limit, list_filter: seen.list_filter });
        } else if a == "--limit"@ {
            if j + 1 < args.len() {
                if let Some(n) = usize_literal(args[j + 1]) {
                    lemma_json_kept(args, j + 2, Seen { path: seen.path, json_output: seen.json_output, limit: Some(n), list_filter: seen.list_filter });
                }
            }
        } else if a == "--list"@ {
            if j + 1 < args.len() {
                lemma_json_kept(args, j + 2, Seen { path: seen.path, json_output: seen.json_output, limit: seen.limit, list_filter: Some(args[j + 1]) });
            }
        } else if a == "-h"@ || a == "--help"@ {
        } else if seen.path is None {
            lemma_json_kept(args, j + 1, Seen { path: Some(a), json_output: seen.json_output, limit: seen.limit, list_filter: seen.list_filter });
        }
    }
}

/// Reading on from `j`, a `--json` at `i` that is no option's value is read as the flag.
proof fn lemma_json_reached(args: Seq<Seq<char>>, i: int, j: int, seen: Seen)
    requires
        0 <= j <= i < args.len(),
        args[i] == "--json"@,
        i == 0 || (args[i - 1] != "--limit"@ && args[i - 1] != "--list"@),
    ensures
        read_args(args, j, seen) matches Ok(CommandView::Run { json_output, .. }) ==> json_output,
    decreases i - j,
{
    let a = args[j];
    if j == i {
        lemma_json_kept(args, i + 1, Seen { path: seen.path, json_output: true, limit: seen.limit, list_filter: seen.list_filter });
    } else if a == "--json"@ {
        lemma_json_reached(args, i, j + 1, Seen { path: seen.path, json_output: true, limit: seen.limit, list_filter: seen.list_filter });
    } else if a == "--limit"@ {
        if j + 1 < args.len() {
            if let Some(n) = usize_literal(args[j + 1]) {
                assert(j + 1 != i);
                lemma_json_reached(args, i, j + 2, Seen { path: seen.path, json_output: seen.json_output, limit: Some(n), list_filter: seen.list_filter });
            }
        }
    } else if a == "--list"@ {
        if j + 1 < args.len() {
            assert(j + 1 != i);
            lemma_json_reached(args, i, j + 2, Seen { path: seen.path, json_output: seen.json_output, limit: seen.limit, list_filter: Some(args[j + 1]) });
        }
    } else if a == "-h"@ || a == "--help"@ {
    } else if seen.path is None {
        lemma_json_reached(args, i, j + 1, Seen { path: Some(a), json_output: seen.json_output, limit: seen.limit, list_filter: seen.list_filter });
    }
}

/// Options may come in any order: whenever a `--json` that is no option's value
/// (the argument before it is neither `--limit` nor `--list`) stands anywhere in
/// the command line, before or after the path, a run it leads to prints JSON.
pub proof fn law_json_flag_anywhere(args: Seq<Seq<char>>, i: int)
    requires
        0 <= i < args.len(),
        args[i] == "--json"@,
        i == 0 || (args[i - 1] != "--limit"@ && args[i - 1] != "--list"@),
    ensures
        command_line(args) matches Ok(CommandView::Run { json_output, .. }) ==> json_output,
{
    lemma_json_reached(args, i, 0, Seen { path: None, json_output: false, limit: None, list_filter: None });
}

/// `str::parse::<usize>`.
pub fn parse_usize(s: &str) -> (r: Option<usize>)
    ensures
        r == usize_literal(s@),
{
    let chars = collect_chars(s);
    let ghost t = s@;
    if chars.len() == 0 {
        return None;
    }
    let start: usize = if chars[0] == '+' { 1 } else { 0 };
    let ghost ds = if t[0] == '+' {
        t.drop_first()
    } else {
        t
    };
    assert(ds =~= chars@.subrange(start as int, chars.len() as int));
    if start >= chars.len() {
        return None;
    }
    let mut acc: u128 = 0;
    let mut i = start;
    while i < chars.len()
        invariant
            start <= i <= chars.len(),
            chars@ == t,
            t == s@,
            ds == chars@.subrange(start as int, chars.len() as int),
            ds == (if t[0] == '+' { t.drop_first() } else { t }),
            t.len() > 0,
            ds.len() > 0,
            acc == digits_value(ds.subrange(0, i - start)),
            all_digits(ds.subrange(0, i - start)),
            acc <= usize::MAX,
        decreases chars.len() - i,
    {
        let c = chars[i];
        if !is_ascii_digit(c) {
            assert(!all_digits(ds)) by {
                assert(ds[i - start] == c);
            }
            return None;
        }
        let ghost pre = ds.subrange(0, i - start);
        let ghost next = ds.subrange(0, i - start + 1);
        assert(next.drop_last() =~= pre);
        assert(next.last() == c);
        acc = acc * 10 + (c as u32 - 48) as u128;
        assert(all_digits(next)) by {
            assert forall|j: int| 0 <= j < next.len() implies is_digit(#[trigger] next[j]) by {
                if j < next.len() - 1 {
                    assert(next[j] == pre[j]);
                }
            }
        }
        i = i + 1;
        if acc > usize::MAX as u128 {
            proof {
                if all_digits(ds) {
                    lemma_digits_prefix(ds, i - start);
                }
            }
            return None;
        }
    }
    assert(ds.subrange(0, i - start) =~= ds);
    Some(acc as usize)
}

/// Reads the command line (the arguments after the program name): `--json`,
/// `--limit N`, `--list NAME`, `-h`/`--help`, and one path.
pub fn parse_args(args: &Vec<String>) -> (r: Result<Command, String>)
    ensures
        match command_line(arg_texts(args@)) {
            Ok(c) => r matches Ok(x) && command_view(x) == c,
            Err(m) => r matches Err(e) && e@ == m,
        },
{
    let ghost texts = arg_texts(args@);
    let mut path: Option<String> = None;
    let mut json_output = false;
    let mut limit: Option<usize> = None;
    let mut list_filter: Option<String> = None;
    let mut i: usize = 0;
    loop
        invariant
            i <= args.len(),
            texts == arg_texts(args@),
            command_line(texts) == read_args(
                texts,
                i as int,
                Seen {
                    path: match path {
                        Some(p) => Some(p@),
                        None => None,
                    },
                    json_output,
                    limit,
                    list_filter: match list_filter {
                        Some(l) => Some(l@),
                        None => None,
                    },
                },
            ),
        decreases args.len() - i,
    {
        if i >= args.len() {
            return match path {
                Some(p) => Ok(Command::Run(Args { path: p, json_output, limit, list_filter })),
                None => Err(String::from_str("missing path to a board export JSON file")),
            };
        }
        let a = args[i].as_str();
        assert(texts[i as int] == a@);
        if str_eq(a, "--json") {
            json_output = true;
            i = i + 1;
        } else if str_eq(a, "--limit") {
            if i + 1 >= args.len() {
                return Err(String::from_str("--limit requires a number"));
            }
            assert(texts[i + 1] == args@[i + 1]@);
            match parse_usize(args[i + 1].as_str()) {
                Some(n) => {
                    limit = Some(n);
                    i = i + 2;
                },
                None => {
                    return Err(String::from_str("--limit expects a positive integer"));
                },
            }
        } else if str_eq(a, "--list") {
            if i + 1 >= args.len() {
                return Err(String::from_str("--list requires a list name"));
            }
            assert(texts[i + 1] == args@[i + 1]@);
            list_filter = Some(args[i + 1].clone());
            i = i + 2;
        } else if str_eq(a, "-h") || str_eq(a, "--help") {
            return Ok(Command::Help);
        } else if path.is_none() {
            path = Some(String::from_str(a));
            i = i + 1;
        } else {
            let mut m = String::from_str("unexpected argument '");
            m.append(a);
            m.append("'");
            return Err(m);
        }
    }
}

} // verus!
