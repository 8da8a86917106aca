//! The command line: arguments, the block listing, the exit status.
use vstd::prelude::*;
use vstd::string::*;
use crate::blocks::Block;
use crate::format::Format;
use crate::text::{
    decimal, decimal_string, pad_left, pad_right, padded_left, padded_right, str_eq, texts, Laid,
};

verus! {

pub const USAGE: &'static str = "usage: marginal [--dump-blocks] [--raw] [--result PATH] [--label NAME] [--format NAME] FILE";

/// What a session was asked for.
#[derive(Debug)]
pub struct Args {
    pub file: String,
    pub result: Option<String>,
    pub label: Option<String>,
    pub dump: bool,
    pub pretty: bool,
    /// The format asked for; the file's extension decides where there is none.
    pub format: Option<Format>,
}

/// The mathematical form of what has been read of the arguments.
pub struct Asked {
    pub file: Option<Seq<char>>,
    pub result: Option<Seq<char>>,
    pub label: Option<Seq<char>>,
    pub dump: bool,
    pub pretty: bool,
    pub format: Option<Format>,
}

/// What the arguments come to.
pub enum Reading {
    Help,
    Wrong(Seq<char>),
    Session(Asked),
}

pub open spec fn nothing_asked() -> Asked {
    Asked { file: None, result: None, label: None, dump: false, pretty: true, format: None }
}

pub open spec fn format_named(name: Seq<char>) -> Option<Format> {
    if name == "markdown"@ {
        Some(Format::Markdown)
    } else if name == "plain"@ {
        Some(Format::Plain)
    } else {
        None
    }
}

/// What arguments `i` and on come to, after what was read before them. The first thing that is
/// wrong, or asks for help, settles it.
pub open spec fn reading(args: Seq<Seq<char>>, i: int, a: Asked) -> Reading
    decreases args.len() - i,
{
    if i < 0 || i >= args.len() {
        match a.file {
            Some(_) => Reading::Session(a),
            None => Reading::Wrong("no input file"@),
        }
    } else if args[i] == "--dump-blocks"@ {
        reading(args, i + 1, Asked { dump: true, ..a })
    } else if args[i] == "--raw"@ {
        reading(args, i + 1, Asked { pretty: false, ..a })
    } else if args[i] == "--result"@ {
        if i + 1 < args.len() {
            reading(args, i + 2, Asked { result: Some(args[i + 1]), ..a })
        } else {
            Reading::Wrong("--result needs a path"@)
        }
    } else if args[i] == "--label"@ {
        if i + 1 < args.len() {
            reading(args, i + 2, Asked { label: Some(args[i + 1]), ..a })
        } else {
            Reading::Wrong("--label needs a name"@)
        }
    } else if args[i] == "--format"@ {
        if i + 1 < args.len() {
            match format_named(args[i + 1]) {
                Some(f) => reading(args, i + 2, Asked { format: Some(f), ..a }),
                None => Reading::Wrong(
                    "unknown format: "@ + args[i + 1] + " (markdown or plain)"@,
                ),
            }
        } else {
            Reading::Wrong("--format needs a name"@)
        }
    } else if args[i] == "-h"@ || args[i] == "--help"@ {
        Reading::Help
    } else if args[i].len() > 0 && args[i][0] == '-' {
        Reading::Wrong("unknown flag: "@ + args[i])
    } else {
        reading(args, i + 1, Asked { file: Some(args[i]), ..a })
    }
}

pub open spec fn opt(s: Option<String>) -> Option<Seq<char>> {
    match s {
        Some(s) => Some(s@),
        None => None,
    }
}

impl Args {
    pub open spec fn model(self) -> Asked {
        Asked {
            file: Some(self.file@),
            result: opt(self.result),
            label: opt(self.label),
            dump: self.dump,
            pretty: self.pretty,
            format: self.format,
        }
    }
}

fn starts_with_dash(s: &str) -> (r: bool)
    ensures
        r == (s@.len() > 0 && s@[0] == '-'),
{
    let l = Laid::new(s);
    l.chars.len() > 0 && l.chars[0] == '-'
}

/// Reads the arguments. `Ok(None)` means help was asked for, which is not a failure.
pub fn parse_argv(argv: Vec<String>) -> (r: Result<Option<Args>, String>)
    ensures
        match reading(texts(argv@), 0, nothing_asked()) {
            Reading::Help => r matches Ok(o) && o is None,
            Reading::Wrong(why) => r matches Err(e) && e@ == why,
            Reading::Session(a) => r matches Ok(o) && (o matches Some(args) && args.model() == a),
        },
{
    let ghost args = texts(argv@);
    let ghost whole = reading(args, 0, nothing_asked());
    let mut file: Option<String> = None;
    let mut result: Option<String> = None;
    let mut label: Option<String> = None;
    let mut dump = false;
    let mut pretty = true;
    let mut format: Option<Format> = None;
    let n: usize = argv.len();
    let mut i: usize = 0;
    while i < n
        invariant
            n == argv@.len(),
            i <= n,
            args == texts(argv@),
            whole == reading(texts(argv@), 0, nothing_asked()),
            whole == reading(
                args,
                i as int,
                Asked {
                    file: opt(file),
                    result: opt(result),
                    label: opt(label),
                    dump,
                    pretty,
                    format,
                },
            ),
        decreases n - i,
    {
        let a = argv[i].as_str();
        proof {
            assert(args[i as int] == a@);
            if i + 1 < n {
                assert(args[i + 1] == argv@[i + 1]@);
            }
        }
        if str_eq(a, "--dump-blocks") {
            dump = true;
            i += 1;
        } else if str_eq(a, "--raw") {
            pretty = false;
            i += 1;
        } else if str_eq(a, "--result") {
            if n - i < 2 {
                return Err("--result needs a path".to_owned());
            }
            result = Some(argv[i + 1].clone());
            i += 2;
        } else if str_eq(a, "--label") {
            if n - i < 2 {
                return Err("--label needs a name".to_owned());
            }
            label = Some(argv[i + 1].clone());
            i += 2;
        } else if str_eq(a, "--format") {
            if n - i < 2 {
                return Err("--format needs a name".to_owned());
            }
            match Format::from_name(argv[i + 1].as_str()) {
                Some(f) => {
                    format = Some(f);
                },
                None => {
                    let mut why = "unknown format: ".to_owned();
                    why.append(argv[i + 1].as_str());
                    why.append(" (markdown or plain)");
                    return Err(why);
                },
            }
            i += 2;
        } else if str_eq(a, "-h") || str_eq(a, "--help") {
            return Ok(None);
        } else if starts_with_dash(a) {
            let mut why = "unknown flag: ".to_owned();
            why.append(a);
            return Err(why);
        } else {
            file = Some(a.to_owned());
            i += 1;
        }
    }
    match file {
        Some(file) => Ok(Some(Args { file, result, label, dump, pretty, format })),
        None => Err("no input file".to_owned()),
    }
}

/// The format a session reads its file in: the one asked for, else the one the extension names.
pub fn session_format(args: &Args) -> (r: Format)
    ensures
        r == match args.format {
            Some(f) => f,
            None => crate::format::format_for(args.file@),
        },
{
    match args.format {
        Some(f) => f,
        None => Format::of_path(args.file.as_str()),
    }
}

/// One line of the block listing.
pub open spec fn listing(b: Block) -> Seq<char> {
    pad_left(decimal(b.id as nat), 3) + "  "@ + pad_right(b.kind@, 12) + " L"@ + decimal(
        b.span.start.line as nat,
    ) + "-"@ + decimal(b.span.end.line as nat) + if b.level > 0 {
        "  level="@ + decimal(b.level as nat)
    } else {
        Seq::empty()
    }
}

/// One line of the block listing, without its line feed.
pub fn dump_line(b: &Block) -> (r: String)
    ensures
        r@ == listing(*b),
{
    let mut out = padded_left(decimal_string(b.id).as_str(), 3);
    out.append("  ");
    out.append(padded_right(b.kind, 12).as_str());
    out.append(" L");
    out.append(decimal_string(b.start()).as_str());
    out.append("-");
    out.append(decimal_string(b.end()).as_str());
    if b.level > 0 {
        let mut level = "  level=".to_owned();
        level.append(decimal_string(b.level).as_str());
        out.append(level.as_str());
    } else {
        proof {
            assert(out@ + Seq::<char>::empty() =~= out@);
        }
    }
    out
}

/// The exit status of a session that ran: 2 where its result could not be written, else 0 where
/// nothing was annotated and 1 where something was.
pub fn exit_code(write_failed: bool, annotations: usize) -> (r: u8)
    ensures
        r == if write_failed {
            2u8
        } else if annotations == 0 {
            0u8
        } else {
            1u8
        },
{
    if write_failed {
        2
    } else if annotations == 0 {
        0
    } else {
        1
    }
}

proof fn lemma_reads_on(args: Seq<Seq<char>>, more: Seq<Seq<char>>, i: int, a: Asked, b: Asked)
    requires
        0 <= i <= args.len(),
        reading(args, i, a) == Reading::Session(b),
    ensures
        reading(args + more, i, a) == reading(args + more, args.len() as int, b),
    decreases args.len() - i,
{
    let all = args + more;
    if i < args.len() {
        assert(all[i] == args[i]);
        if i + 1 < args.len() {
            assert(all[i + 1] == args[i + 1]);
        }
        if args[i] == "--dump-blocks"@ {
            lemma_reads_on(args, more, i + 1, Asked { dump: true, ..a }, b);
        } else if args[i] == "--raw"@ {
            lemma_reads_on(args, more, i + 1, Asked { pretty: false, ..a }, b);
        } else if args[i] == "--result"@ {
            lemma_reads_on(args, more, i + 2, Asked { result: Some(args[i + 1]), ..a }, b);
        } else if args[i] == "--label"@ {
            lemma_reads_on(args, more, i + 2, Asked { label: Some(args[i + 1]), ..a }, b);
        } else if args[i] == "--format"@ {
            let f = format_named(args[i + 1])->0;
            lemma_reads_on(args, more, i + 2, Asked { format: Some(f), ..a }, b);
        } else {
            lemma_reads_on(args, more, i + 1, Asked { file: Some(args[i]), ..a }, b);
        }
    }
}

proof fn lemma_flags_differ()
    ensures
        "--dump-blocks"@.len() == 13,
        "--raw"@.len() == 5,
        "--result"@.len() == 8,
        "--label"@.len() == 7,
        "--format"@.len() == 8,
        "--result"@[2] == 'r',
        "--format"@[2] == 'f',
        "-h"@.len() == 2,
        "--help"@.len() == 6,
        "--dump-blocks"@[0] == '-',
        "--raw"@[0] == '-',
        "--result"@[0] == '-',
        "--label"@[0] == '-',
        "--format"@[0] == '-',
        "-h"@[0] == '-',
        "--help"@[0] == '-',
{
    reveal_strlit("--dump-blocks");
    reveal_strlit("--raw");
    reveal_strlit("--result");
    reveal_strlit("--label");
    reveal_strlit("--format");
    reveal_strlit("-h");
    reveal_strlit("--help");
}

/// A command line that is in order can be added to. A flag or an option more changes what it is
/// about and nothing else, wherever the file was named; an option said twice counts as said last,
/// and so does a second file.
pub proof fn law_arguments_add_up(args: Seq<Seq<char>>, a: Asked, value: Seq<char>)
    requires
        reading(args, 0, nothing_asked()) == Reading::Session(a),
    ensures
        reading(args + seq!["--dump-blocks"@], 0, nothing_asked()) == Reading::Session(
            Asked { dump: true, ..a },
        ),
        reading(args + seq!["--raw"@], 0, nothing_asked()) == Reading::Session(
            Asked { pretty: false, ..a },
        ),
        reading(args + seq!["--result"@, value], 0, nothing_asked()) == Reading::Session(
            Asked { result: Some(value), ..a },
        ),
        reading(args + seq!["--label"@, value], 0, nothing_asked()) == Reading::Session(
            Asked { label: Some(value), ..a },
        ),
        value == "markdown"@ ==> reading(args + seq!["--format"@, value], 0, nothing_asked())
            == Reading::Session(Asked { format: Some(Format::Markdown), ..a }),
        value == "plain"@ ==> reading(args + seq!["--format"@, value], 0, nothing_asked())
            == Reading::Session(Asked { format: Some(Format::Plain), ..a }),
        value.len() == 0 || value[0] != '-' ==> reading(args + seq![value], 0, nothing_asked())
            == Reading::Session(Asked { file: Some(value), ..a }),
        reading(args + seq!["-h"@], 0, nothing_asked()) is Help,
        reading(args + seq!["--help"@], 0, nothing_asked()) is Help,
{
    lemma_flags_differ();
    reveal_strlit("markdown");
    reveal_strlit("plain");
    assert("markdown"@.len() == 8 && "plain"@.len() == 5);
    lemma_session_has_file(args, 0, nothing_asked(), a);
    lemma_one_more(args, a, "--dump-blocks"@);
    lemma_one_more(args, a, "--raw"@);
    lemma_one_more(args, a, "-h"@);
    lemma_one_more(args, a, "--help"@);
    lemma_one_more(args, a, value);
    lemma_two_more(args, a, "--result"@, value);
    lemma_two_more(args, a, "--label"@, value);
    lemma_two_more(args, a, "--format"@, value);
}

proof fn lemma_session_has_file(args: Seq<Seq<char>>, i: int, a: Asked, b: Asked)
    requires
        0 <= i,
        reading(args, i, a) == Reading::Session(b),
    ensures
        b.file is Some,
    decreases args.len() - i,
{
    if i < args.len() {
        if args[i] == "--dump-blocks"@ {
            lemma_session_has_file(args, i + 1, Asked { dump: true, ..a }, b);
        } else if args[i] == "--raw"@ {
            lemma_session_has_file(args, i + 1, Asked { pretty: false, ..a }, b);
        } else if args[i] == "--result"@ {
            lemma_session_has_file(args, i + 2, Asked { result: Some(args[i + 1]), ..a }, b);
        } else if args[i] == "--label"@ {
            lemma_session_has_file(args, i + 2, Asked { label: Some(args[i + 1]), ..a }, b);
        } else if args[i] == "--format"@ {
            let f = format_named(args[i + 1])->0;
            lemma_session_has_file(args, i + 2, Asked { format: Some(f), ..a }, b);
        } else {
            lemma_session_has_file(args, i + 1, Asked { file: Some(args[i]), ..a }, b);
        }
    }
}

proof fn lemma_one_more(args: Seq<Seq<char>>, a: Asked, x: Seq<char>)
    requires
        reading(args, 0, nothing_asked()) == Reading::Session(a),
        a.file is Some,
    ensures
        x == "--dump-blocks"@ ==> reading(args + seq![x], 0, nothing_asked()) == Reading::Session(
            Asked { dump: true, ..a },
        ),
        x == "--raw"@ ==> reading(args + seq![x], 0, nothing_asked()) == Reading::Session(
            Asked { pretty: false, ..a },
        ),
        x == "-h"@ || x == "--help"@ ==> reading(args + seq![x], 0, nothing_asked()) is Help,
        x.len() == 0 || x[0] != '-' ==> reading(args + seq![x], 0, nothing_asked())
            == Reading::Session(Asked { file: Some(x), ..a }),
{
    lemma_flags_differ();
    let more = seq![x];
    let n = args.len() as int;
    lemma_reads_on(args, more, 0, nothing_asked(), a);
    lemma_reads_from(args + more, more, n, 0, a);
    assert(more[0] == x);
    let b = Asked { dump: true, ..a };
    let c = Asked { pretty: false, ..a };
    let d = Asked { file: Some(x), ..a };
    assert(reading(more, 1, b) == Reading::Session(b));
    assert(reading(more, 1, c) == Reading::Session(c));
    assert(reading(more, 1, d) == Reading::Session(d));
}

proof fn lemma_two_more(args: Seq<Seq<char>>, a: Asked, x: Seq<char>, y: Seq<char>)
    requires
        reading(args, 0, nothing_asked()) == Reading::Session(a),
        a.file is Some,
    ensures
        x == "--result"@ ==> reading(args + seq![x, y], 0, nothing_asked()) == Reading::Session(
            Asked { result: Some(y), ..a },
        ),
        x == "--label"@ ==> reading(args + seq![x, y], 0, nothing_asked()) == Reading::Session(
            Asked { label: Some(y), ..a },
        ),
        x == "--format"@ && format_named(y) is Some ==> reading(args + seq![x, y], 0, nothing_asked())
            == Reading::Session(Asked { format: format_named(y), ..a }),
{
    lemma_flags_differ();
    let more = seq![x, y];
    let all = args + more;
    let n = args.len() as int;
    lemma_reads_on(args, more, 0, nothing_asked(), a);
    lemma_reads_from(all, more, n, 0, a);
    assert(more[0] == x && more[1] == y);
    if x == "--result"@ {
        assert(reading(more, 2, Asked { result: Some(y), ..a }) == Reading::Session(
            Asked { result: Some(y), ..a },
        ));
    } else if x == "--label"@ {
        assert(reading(more, 2, Asked { label: Some(y), ..a }) == Reading::Session(
            Asked { label: Some(y), ..a },
        ));
    } else if x == "--format"@ && format_named(y) is Some {
        assert(reading(more, 2, Asked { format: format_named(y), ..a }) == Reading::Session(
            Asked { format: format_named(y), ..a },
        ));
    }
}

/// Reading on from argument `n` of a list is reading the rest of it.
proof fn lemma_reads_from(all: Seq<Seq<char>>, more: Seq<Seq<char>>, n: int, i: int, a: Asked)
    requires
        0 <= n,
        0 <= i,
        all.len() == n + more.len(),
        forall|k: int| 0 <= k < more.len() ==> all[n + k] == #[trigger] more[k],
    ensures
        reading(all, n + i, a) == reading(more, i, a),
    decreases more.len() - i,
{
    if i < more.len() {
        assert(all[n + i] == more[i]);
        if i + 1 < more.len() {
            assert(all[n + (i + 1)] == more[i + 1]);
            lemma_reads_from(all, more, n, i + 2, Asked { result: Some(more[i + 1]), ..a });
            lemma_reads_from(all, more, n, i + 2, Asked { label: Some(more[i + 1]), ..a });
            if let Some(f) = format_named(more[i + 1]) {
                lemma_reads_from(all, more, n, i + 2, Asked { format: Some(f), ..a });
            }
        }
        lemma_reads_from(all, more, n, i + 1, Asked { dump: true, ..a });
        lemma_reads_from(all, more, n, i + 1, Asked { pretty: false, ..a });
        lemma_reads_from(all, more, n, i + 1, Asked { file: Some(more[i]), ..a });
    }
}

/// A file alone is a session on it with nothing else asked for, and no file is an error.
pub proof fn law_a_file_is_all_it_takes(file: Seq<char>)
    requires
        file.len() == 0 || file[0] != '-',
    ensures
        reading(seq![file], 0, nothing_asked()) == Reading::Session(
            Asked {
                file: Some(file),
                result: None,
                label: None,
                dump: false,
                pretty: true,
                format: None,
            },
        ),
        reading(Seq::empty(), 0, nothing_asked()) is Wrong,
{
    lemma_flags_differ();
    let a = Asked { file: Some(file), ..nothing_asked() };
    assert(reading(seq![file], 1, a) == Reading::Session(a));
}

} // verus!
