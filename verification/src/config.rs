//! Argument resolution: turns a flat list of `--name=value` tokens into a
//! validated configuration, or a descriptive error naming the field at
//! fault. A token supplies a field when it is exactly `--name` or begins
//! with `--name=`; its value runs from the first `=` to the next `=` or the
//! end of the token.

use vstd::prelude::*;
use crate::text::{find_char, lemma_find_char_unique, occurs_at, str_starts_with};

verus! {

/// The error kinds of the library. Argument resolution yields the first two;
/// the I/O shell around the library reports the last two.
#[derive(Debug)]
pub enum SearchError {
    /// A required field had no corresponding token.
    MissingArgument(String),
    /// A required or optional non-flag field's token lacked a value.
    MalformedArgument(String),
    /// The input file could not be read; the cause is carried as text.
    FileReadError(String),
    /// The output file could not be written; the cause is carried as text.
    FileWriteError(String),
}

/// The diagnostic text for each error kind.
pub open spec fn spec_describe(e: SearchError) -> Seq<char> {
    match e {
        SearchError::MissingArgument(n) => n@ + " is not provided"@,
        SearchError::MalformedArgument(n) => "Unable to parse "@ + n@
            + ", provide value in format --arg-name=arg-value, e.g. --file-name=superfile.txt"@,
        SearchError::FileReadError(c) => "Unable to read the file specified: "@ + c@,
        SearchError::FileWriteError(c) => "Unable to write to file: "@ + c@,
    }
}

impl SearchError {
    /// Render this error as its diagnostic message.
    pub fn describe(&self) -> (r: String)
        ensures
            r@ == spec_describe(*self),
    {
        match self {
            SearchError::MissingArgument(n) => String::from_str(n.as_str()).concat(
                " is not provided",
            ),
            SearchError::MalformedArgument(n) => String::from_str("Unable to parse ").concat(
                n.as_str(),
            ).concat(
                ", provide value in format --arg-name=arg-value, e.g. --file-name=superfile.txt",
            ),
            SearchError::FileReadError(c) => String::from_str(
                "Unable to read the file specified: ",
            ).concat(c.as_str()),
            SearchError::FileWriteError(c) => String::from_str("Unable to write to file: ").concat(
                c.as_str(),
            ),
        }
    }
}

/// The views of a list of argument tokens.
pub open spec fn arg_views(args: Seq<String>) -> Seq<Seq<char>> {
    args.map_values(|a: String| a@)
}

/// The command-line spelling of a field name: `--` followed by the name.
pub open spec fn full_flag(name: Seq<char>) -> Seq<char> {
    seq!['-', '-'] + name
}

/// A token supplies the field spelled `full` when it is exactly `full` or
/// begins with `full` followed by `=`.
pub open spec fn token_matches(t: Seq<char>, full: Seq<char>) -> bool {
    t == full || occurs_at(t, full.push('='), 0)
}

/// Index of the first token that supplies the field, or `args.len()` if none.
pub open spec fn find_arg(args: Seq<Seq<char>>, full: Seq<char>) -> int
    decreases args.len(),
{
    if args.len() == 0 {
        0
    } else if token_matches(args[0], full) {
        0
    } else {
        1 + find_arg(args.drop_first(), full)
    }
}

/// `find_arg` is pinned down by its characteristic properties.
pub proof fn lemma_find_arg_unique(args: Seq<Seq<char>>, full: Seq<char>, k: int)
    requires
        0 <= k <= args.len(),
        forall|j: int| 0 <= j < k ==> !token_matches(#[trigger] args[j], full),
        k < args.len() ==> token_matches(args[k], full),
    ensures
        find_arg(args, full) == k,
    decreases args.len(),
{
    if args.len() == 0 {
    } else if token_matches(args[0], full) {
        assert(k == 0);
    } else {
        assert(k >= 1);
        assert forall|j: int| 0 <= j < k - 1 implies !token_matches(
            #[trigger] args.drop_first()[j],
            full,
        ) by {
            assert(args.drop_first()[j] == args[j + 1]);
        }
        if k - 1 < args.drop_first().len() {
            assert(args.drop_first()[k - 1] == args[k as int]);
        }
        lemma_find_arg_unique(args.drop_first(), full, k - 1);
    }
}

/// The value carried by a token: the characters strictly between the first
/// `=` and the next `=` or the end; nothing when the token has no `=`.
pub open spec fn token_value(t: Seq<char>) -> Option<Seq<char>> {
    let i = find_char(t, '=');
    if i >= t.len() {
        Option::None
    } else {
        let rest = t.subrange(i + 1, t.len() as int);
        Option::Some(rest.subrange(0, find_char(rest, '=')))
    }
}

/// How one field resolves against the token list.
pub enum ArgOutcome {
    /// Required and no token supplies it.
    Missing,
    /// A token supplies it but carries no value, and the field is not a flag.
    Malformed,
    /// Optional and no token supplies it.
    Absent,
    /// A token supplies it with this value (a bare flag carries an empty one).
    Present(Seq<char>),
}

/// The value a `Present` outcome carries.
pub open spec fn present_value(o: ArgOutcome) -> Seq<char> {
    match o {
        ArgOutcome::Present(v) => v,
        _ => Seq::empty(),
    }
}

/// Resolve one field against the token list: the first matching token
/// decides, a flag never fails, a required field must find a token.
pub open spec fn resolve_arg(
    args: Seq<Seq<char>>,
    name: Seq<char>,
    is_flag: bool,
    is_optional: bool,
) -> ArgOutcome {
    let k = find_arg(args, full_flag(name));
    if k >= args.len() {
        if is_optional {
            ArgOutcome::Absent
        } else {
            ArgOutcome::Missing
        }
    } else {
        match token_value(args[k]) {
            Option::Some(v) => ArgOutcome::Present(v),
            Option::None => if is_flag {
                ArgOutcome::Present(Seq::empty())
            } else {
                ArgOutcome::Malformed
            },
        }
    }
}

/// Extract the value part of a matching token, or report it malformed.
fn token_result(t: &String, arg_name: &str, is_flag: bool) -> (r: Result<
    Option<String>,
    SearchError,
>)
    ensures
        (match r {
            Result::Ok(opt) => match opt {
                Option::Some(s) => (match token_value(t@) {
                    Option::Some(v) => s@ == v,
                    Option::None => is_flag && s@ == Seq::<char>::empty(),
                }),
                Option::None => false,
            },
            Result::Err(e) => match e {
                SearchError::MalformedArgument(n) => token_value(t@) is None && !is_flag && n@
                    == arg_name@,
                _ => false,
            },
        }),
{
    let tlen = t.as_str().unicode_len();
    let mut e: usize = 0;
    while e < tlen && t.as_str().get_char(e) != '='
        invariant
            tlen == t@.len(),
            e <= tlen,
            forall|j: int| 0 <= j < e ==> t@[j] != '=',
        decreases tlen - e,
    {
        e += 1;
    }
    proof {
        lemma_find_char_unique(t@, '=', e as int);
    }
    if e == tlen {
        if is_flag {
            Result::Ok(Option::Some(String::new()))
        } else {
            Result::Err(SearchError::MalformedArgument(String::from_str(arg_name)))
        }
    } else {
        let mut f: usize = e + 1;
        while f < tlen && t.as_str().get_char(f) != '='
            invariant
                tlen == t@.len(),
                e + 1 <= f <= tlen,
                forall|j: int| e + 1 <= j < f ==> t@[j] != '=',
            decreases tlen - f,
        {
            f += 1;
        }
        let value = String::from_str(t.as_str().substring_char(e + 1, f));
        proof {
            let rest = t@.subrange(e + 1, tlen as int);
            assert forall|p: int| 0 <= p < f - (e + 1) implies rest[p] != '=' by {
                assert(rest[p] == t@[e + 1 + p]);
            }
            if f < tlen {
                assert(rest[f - (e + 1)] == t@[f as int]);
            }
            lemma_find_char_unique(rest, '=', f - (e + 1));
            assert(value@ =~= rest.subrange(0, f - (e + 1)));
        }
        Result::Ok(Option::Some(value))
    }
}

/// The validated search request: where to read, what to look for, whether to
/// respect case, and where (if anywhere) to persist the matches.
#[derive(Debug)]
pub struct Config {
    pub file_name: String,
    pub search_str: String,
    pub output_file: Option<String>,
    pub match_case: bool,
}

/// How the whole token list resolves: the first failing field in the order
/// file-name, search-str, output-file names the error; otherwise the four
/// resolved fields.
pub enum ArgsOutcome {
    MissingName(Seq<char>),
    MalformedName(Seq<char>),
    Resolved {
        file_name: Seq<char>,
        search_str: Seq<char>,
        match_case: bool,
        output_file: Option<Seq<char>>,
    },
}

/// Resolution of the full token list into a configuration or an error.
pub open spec fn spec_build(a: Seq<Seq<char>>) -> ArgsOutcome {
    let fname = resolve_arg(a, "file-name"@, false, false);
    let sstr = resolve_arg(a, "search-str"@, false, false);
    let mcase = resolve_arg(a, "match-case"@, true, true);
    let ofile = resolve_arg(a, "output-file"@, false, true);
    if fname is Missing {
        ArgsOutcome::MissingName("file-name"@)
    } else if fname is Malformed {
        ArgsOutcome::MalformedName("file-name"@)
    } else if sstr is Missing {
        ArgsOutcome::MissingName("search-str"@)
    } else if sstr is Malformed {
        ArgsOutcome::MalformedName("search-str"@)
    } else if ofile is Malformed {
        ArgsOutcome::MalformedName("output-file"@)
    } else {
        ArgsOutcome::Resolved {
            file_name: present_value(fname),
            search_str: present_value(sstr),
            match_case: mcase is Present,
            output_file: if ofile is Present {
                Option::Some(present_value(ofile))
            } else {
                Option::None
            },
        }
    }
}

impl Config {
    /// Resolve one field against the token list. The result mirrors
    /// `resolve_arg` on the views of the tokens: the first matching token's
    /// value, `None` for an absent optional field, or the error naming the
    /// field.
    pub fn get_arg(args: &Vec<String>, arg_name: &str, is_flag: bool, is_optional: bool) -> (r:
        Result<Option<String>, SearchError>)
        ensures
            ({
                let outcome = resolve_arg(arg_views(args@), arg_name@, is_flag, is_optional);
                match r {
                    Result::Ok(opt) => match opt {
                        Option::Some(v) => outcome == ArgOutcome::Present(v@),
                        Option::None => outcome == ArgOutcome::Absent,
                    },
                    Result::Err(e) => match e {
                        SearchError::MissingArgument(n) => outcome == ArgOutcome::Missing && n@
                            == arg_name@,
                        SearchError::MalformedArgument(n) => outcome == ArgOutcome::Malformed && n@
                            == arg_name@,
                        _ => false,
                    },
                }
            }),
    {
        let full = String::from_str("--").concat(arg_name);
        let full_eq = String::from_str(full.as_str()).concat("=");
        proof {
            reveal_strlit("--");
            reveal_strlit("=");
            assert(full@ =~= full_flag(arg_name@));
            assert(full_eq@ =~= full_flag(arg_name@).push('='));
        }
        let ghost av = arg_views(args@);
        let n = args.len();
        let mut k: usize = 0;
        while k < n
            invariant
                n == args@.len(),
                k <= n,
                av == arg_views(args@),
                full@ == full_flag(arg_name@),
                full_eq@ == full_flag(arg_name@).push('='),
                forall|j: int| 0 <= j < k ==> !token_matches(#[trigger] av[j], full_flag(arg_name@)),
            decreases n - k,
        {
            let tok = &args[k];
            proof {
                assert(av[k as int] == tok@);
            }
            let is_tok = if full.eq(tok) {
                true
            } else {
                str_starts_with(tok.as_str(), full_eq.as_str())
            };
            if is_tok {
                proof {
                    lemma_find_arg_unique(av, full_flag(arg_name@), k as int);
                }
                return token_result(tok, arg_name, is_flag);
            }
            k += 1;
        }
        proof {
            lemma_find_arg_unique(av, full_flag(arg_name@), n as int);
        }
        if is_optional {
            Result::Ok(Option::None)
        } else {
            Result::Err(SearchError::MissingArgument(String::from_str(arg_name)))
        }
    }

    /// Resolve the token list into a configuration: `--file-name` and
    /// `--search-str` are required, `--match-case` is a flag defaulting to
    /// off, `--output-file` is optional. The first failing field, in that
    /// order, names the error.
    pub fn build(args: Vec<String>) -> (r: Result<Config, SearchError>)
        ensures
            ({
                let o = spec_build(arg_views(args@));
                match r {
                    Result::Ok(c) => {
                        &&& o matches ArgsOutcome::Resolved {
                            file_name,
                            search_str,
                            match_case,
                            output_file,
                        }
                        &&& c.file_name@ == file_name
                        &&& c.search_str@ == search_str
                        &&& c.match_case == match_case
                        &&& (match c.output_file {
                            Option::Some(v) => output_file == Option::Some(v@),
                            Option::None => output_file is None,
                        })
                    },
                    Result::Err(e) => match e {
                        SearchError::MissingArgument(n) => o == ArgsOutcome::MissingName(n@),
                        SearchError::MalformedArgument(n) => o == ArgsOutcome::MalformedName(n@),
                        _ => false,
                    },
                }
            }),
    {
        let file_name = match Self::get_arg(&args, "file-name", false, false) {
            Result::Ok(opt) => match opt {
                Option::Some(v) => v,
                Option::None => {
                    proof {
                        assert(false);
                    }
                    String::new()
                },
            },
            Result::Err(e) => {
                return Result::Err(e);
            },
        };
        let search_str = match Self::get_arg(&args, "search-str", false, false) {
            Result::Ok(opt) => match opt {
                Option::Some(v) => v,
                Option::None => {
                    proof {
                        assert(false);
                    }
                    String::new()
                },
            },
            Result::Err(e) => {
                return Result::Err(e);
            },
        };
        let match_case = match Self::get_arg(&args, "match-case", true, true) {
            Result::Ok(opt) => match opt {
                Option::Some(_) => true,
                Option::None => false,
            },
            Result::Err(_) => {
                proof {
                    assert(false);
                }
                false
            },
        };
        let output_file = match Self::get_arg(&args, "output-file", false, true) {
            Result::Ok(opt) => opt,
            Result::Err(e) => {
                return Result::Err(e);
            },
        };
        Result::Ok(Config { file_name, search_str, match_case, output_file })
    }
}

} // verus!
