//! Rendering matches for display and for persistence, reading a persisted
//! file back, and the round trip between the two; also the full
//! search-and-render pipeline over already-loaded text.

use vstd::prelude::*;
use crate::config::Config;
use crate::decimal::{
    char_digit_value, char_is_digit, digits_end, is_digit_char, lemma_decimal_props,
    lemma_digits_end_unique, spec_decimal, spec_parse_decimal, spec_usize_decimal,
    usize_to_decimal,
};
use crate::engine::{lemma_search_sound, match_views, search, spec_search};
use crate::text::{lemma_lines_append, lemma_lines_have_no_newline, nl_terminated, spec_lines,
    spec_strip_bom, split_lines, strip_bom, views_of};

verus! {

/// The persisted form of one match: its line number, a space, the line text
/// and a line break.
pub open spec fn spec_match_line(m: (int, Seq<char>)) -> Seq<char> {
    spec_usize_decimal(m.0) + " "@ + m.1 + "\n"@
}

/// The persisted form of a match set: its matches' lines, in order.
pub open spec fn spec_format_matches(ms: Seq<(int, Seq<char>)>) -> Seq<char>
    decreases ms.len(),
{
    if ms.len() == 0 {
        Seq::empty()
    } else {
        spec_format_matches(ms.drop_last()) + spec_match_line(ms.last())
    }
}

/// Render a match set in its persisted form, one `"<number> <text>"` line
/// per match, in order.
pub fn format_matches(result: &Vec<(usize, String)>) -> (r: String)
    ensures
        r@ == spec_format_matches(match_views(result@)),
{
    let mut out = String::new();
    let mut i: usize = 0;
    proof {
        assert(match_views(result@).take(0) =~= Seq::<(int, Seq<char>)>::empty());
    }
    while i < result.len()
        invariant
            i <= result@.len(),
            out@ == spec_format_matches(match_views(result@).take(i as int)),
        decreases result@.len() - i,
    {
        let m = &result[i];
        let num = usize_to_decimal(m.0);
        out.append(num.as_str());
        out.append(" ");
        out.append(m.1.as_str());
        out.append("\n");
        proof {
            let mv = match_views(result@);
            assert(mv[i as int] == (m.0 as int, m.1@));
            assert(mv.take(i + 1).drop_last() =~= mv.take(i as int));
            assert(mv.take(i + 1).last() == mv[i as int]);
            assert(out@ =~= spec_format_matches(mv.take(i + 1)));
        }
        i += 1;
    }
    proof {
        assert(match_views(result@).take(result@.len() as int) =~= match_views(result@));
    }
    out
}

/// The displayed report for one match.
pub open spec fn spec_report_line(m: (int, Seq<char>)) -> Seq<char> {
    "[line "@ + spec_usize_decimal(m.0) + "] "@ + m.1 + "\n"@
}

/// The displayed report lines for a match set, in order.
pub open spec fn spec_report_lines(ms: Seq<(int, Seq<char>)>) -> Seq<char>
    decreases ms.len(),
{
    if ms.len() == 0 {
        Seq::empty()
    } else {
        spec_report_lines(ms.drop_last()) + spec_report_line(ms.last())
    }
}

/// The full displayed report: a not-found message naming the pattern when
/// there is no match, otherwise a header naming the pattern followed by one
/// line per match.
pub open spec fn spec_report(pattern: Seq<char>, ms: Seq<(int, Seq<char>)>) -> Seq<char> {
    if ms.len() == 0 {
        "Provided file doesn't contain the string \""@ + pattern + "\"\n"@
    } else {
        "\""@ + pattern + "\" was found in the next lines:\n\n"@ + spec_report_lines(ms)
    }
}

/// Render the human-readable report for a search outcome.
pub fn format_report(search_str: &str, result: &Vec<(usize, String)>) -> (r: String)
    ensures
        r@ == spec_report(search_str@, match_views(result@)),
{
    if result.len() == 0 {
        let r = String::from_str("Provided file doesn't contain the string \"").concat(
            search_str,
        ).concat("\"\n");
        proof {
            assert(match_views(result@).len() == 0);
        }
        return r;
    }
    let mut out = String::from_str("\"").concat(search_str).concat(
        "\" was found in the next lines:\n\n",
    );
    let ghost header = out@;
    let mut i: usize = 0;
    proof {
        assert(match_views(result@).take(0) =~= Seq::<(int, Seq<char>)>::empty());
    }
    while i < result.len()
        invariant
            i <= result@.len(),
            out@ == header + spec_report_lines(match_views(result@).take(i as int)),
        decreases result@.len() - i,
    {
        let m = &result[i];
        out.append("[line ");
        let num = usize_to_decimal(m.0);
        out.append(num.as_str());
        out.append("] ");
        out.append(m.1.as_str());
        out.append("\n");
        proof {
            let mv = match_views(result@);
            assert(mv[i as int] == (m.0 as int, m.1@));
            assert(mv.take(i + 1).drop_last() =~= mv.take(i as int));
            assert(mv.take(i + 1).last() == mv[i as int]);
            assert(out@ =~= header + spec_report_lines(mv.take(i + 1)));
        }
        i += 1;
    }
    proof {
        assert(match_views(result@).take(result@.len() as int) =~= match_views(result@));
        assert(match_views(result@).len() == result@.len());
    }
    out
}

/// Read one persisted line back: its leading digits give the line number,
/// one space separates it from the line text. Lines without that shape, and
/// numbers too large to represent, are rejected.
pub open spec fn spec_parse_line(l: Seq<char>) -> Option<(int, Seq<char>)> {
    let d = digits_end(l);
    if d == 0 {
        Option::None
    } else if d >= l.len() {
        Option::None
    } else if l[d] != ' ' {
        Option::None
    } else if spec_parse_decimal(l.subrange(0, d)) > usize::MAX as int {
        Option::None
    } else {
        Option::Some((spec_parse_decimal(l.subrange(0, d)), l.subrange(d + 1, l.len() as int)))
    }
}

/// Read a persisted match set back, line by line; any malformed line rejects
/// the whole text.
pub open spec fn spec_parse_matches(lines: Seq<Seq<char>>) -> Option<Seq<(int, Seq<char>)>>
    decreases lines.len(),
{
    if lines.len() == 0 {
        Option::Some(Seq::empty())
    } else {
        match spec_parse_matches(lines.drop_last()) {
            Option::Some(init) => match spec_parse_line(lines.last()) {
                Option::Some(m) => Option::Some(init.push(m)),
                Option::None => Option::None,
            },
            Option::None => Option::None,
        }
    }
}

/// A rejected prefix rejects the whole line list.
pub proof fn lemma_parse_matches_prefix_none(lines: Seq<Seq<char>>, k: int)
    requires
        0 <= k <= lines.len(),
        spec_parse_matches(lines.take(k)) is None,
    ensures
        spec_parse_matches(lines) is None,
    decreases lines.len(),
{
    if k == lines.len() {
        assert(lines.take(k) =~= lines);
    } else {
        assert(lines.drop_last().take(k) =~= lines.take(k));
        lemma_parse_matches_prefix_none(lines.drop_last(), k);
    }
}

/// Read one persisted line back, exactly as `spec_parse_line` describes.
fn parse_line(l: &String) -> (r: Option<(usize, String)>)
    ensures
        (match r {
            Option::Some(m) => spec_parse_line(l@) == Option::Some((m.0 as int, m.1@)),
            Option::None => spec_parse_line(l@) is None,
        }),
{
    let s = l.as_str();
    let n = s.unicode_len();
    let mut d: usize = 0;
    while d < n && char_is_digit(s.get_char(d))
        invariant
            s@ == l@,
            n == l@.len(),
            d <= n,
            forall|j: int| 0 <= j < d ==> is_digit_char(#[trigger] l@[j]),
        decreases n - d,
    {
        d += 1;
    }
    proof {
        lemma_digits_end_unique(l@, d as int);
    }
    if d == 0 {
        return Option::None;
    }
    if d == n {
        return Option::None;
    }
    if s.get_char(d) != ' ' {
        return Option::None;
    }
    let mut i: usize = 0;
    let mut val: usize = 0;
    let mut over: bool = false;
    proof {
        assert(l@.subrange(0, 0) =~= Seq::<char>::empty());
    }
    while i < d
        invariant
            s@ == l@,
            n == l@.len(),
            i <= d <= n,
            forall|j: int| 0 <= j < d ==> is_digit_char(#[trigger] l@[j]),
            !over ==> val == spec_parse_decimal(l@.subrange(0, i as int)),
            over ==> spec_parse_decimal(l@.subrange(0, i as int)) > usize::MAX as int,
        decreases d - i,
    {
        let ghost prefix = l@.subrange(0, i as int);
        let ghost prefix1 = l@.subrange(0, i + 1);
        proof {
            assert(prefix1.drop_last() =~= prefix);
            assert(prefix1.last() == l@[i as int]);
        }
        let c = s.get_char(i);
        match char_digit_value(c) {
            Option::Some(dv) => {
                if over {
                    proof {
                        assert(spec_parse_decimal(prefix1) == spec_parse_decimal(prefix) * 10
                            + dv);
                        assert(spec_parse_decimal(prefix) * 10 >= spec_parse_decimal(prefix));
                    }
                } else {
                    if val <= (usize::MAX - dv) / 10 {
                        proof {
                            assert(val * 10 + dv <= usize::MAX) by {
                                assert(val * 10 <= ((usize::MAX - dv) / 10) * 10);
                                assert(((usize::MAX - dv) / 10) * 10 + (usize::MAX - dv) % 10
                                    == usize::MAX - dv);
                            }
                        }
                        val = val * 10 + dv;
                    } else {
                        proof {
                            assert(val * 10 + dv > usize::MAX) by {
                                assert(val >= (usize::MAX - dv) / 10 + 1);
                                assert(val * 10 >= ((usize::MAX - dv) / 10) * 10 + 10);
                                assert(((usize::MAX - dv) / 10) * 10 + (usize::MAX - dv) % 10
                                    == usize::MAX - dv);
                            }
                        }
                        over = true;
                    }
                }
            },
            Option::None => {
                proof {
                    assert(is_digit_char(l@[i as int]));
                    assert(false);
                }
            },
        }
        i += 1;
    }
    if over {
        return Option::None;
    }
    let rest = String::from_str(s.substring_char(d + 1, n));
    proof {
        assert(rest@ == l@.subrange(d + 1, n as int));
    }
    Option::Some((val, rest))
}

/// Read a persisted match set back from text, exactly as
/// `spec_parse_matches` over the text's lines describes.
pub fn parse_matches(text: &str) -> (r: Option<Vec<(usize, String)>>)
    ensures
        (match r {
            Option::Some(ms) => spec_parse_matches(spec_lines(text@)) == Option::Some(
                match_views(ms@),
            ),
            Option::None => spec_parse_matches(spec_lines(text@)) is None,
        }),
{
    let lines = split_lines(text);
    let ghost lviews = views_of(lines@);
    let mut result: Vec<(usize, String)> = Vec::new();
    let mut i: usize = 0;
    proof {
        assert(lviews.take(0) =~= Seq::<Seq<char>>::empty());
        assert(match_views(result@) =~= Seq::<(int, Seq<char>)>::empty());
    }
    while i < lines.len()
        invariant
            lviews == views_of(lines@),
            lviews == spec_lines(text@),
            i <= lines@.len(),
            spec_parse_matches(lviews.take(i as int)) == Option::Some(match_views(result@)),
        decreases lines@.len() - i,
    {
        let line = &lines[i];
        proof {
            assert(lviews[i as int] == line@);
            assert(lviews.take(i + 1).drop_last() =~= lviews.take(i as int));
            assert(lviews.take(i + 1).last() == lviews[i as int]);
        }
        match parse_line(line) {
            Option::Some(m) => {
                let ghost old_result = result@;
                result.push(m);
                proof {
                    assert(match_views(result@) =~= match_views(old_result).push(
                        (m.0 as int, m.1@),
                    ));
                }
            },
            Option::None => {
                proof {
                    lemma_parse_matches_prefix_none(lviews, i + 1);
                }
                return Option::None;
            },
        }
        i += 1;
    }
    proof {
        assert(lviews.take(lines@.len() as int) =~= lviews);
    }
    Option::Some(result)
}

/// The persisted form always ends at a line boundary.
pub proof fn lemma_format_nl_terminated(ms: Seq<(int, Seq<char>)>)
    ensures
        nl_terminated(spec_format_matches(ms)),
    decreases ms.len(),
{
    reveal_strlit("\n");
    if ms.len() == 0 {
    } else {
        let fm = spec_format_matches(ms);
        assert(fm == spec_format_matches(ms.drop_last()) + spec_match_line(ms.last()));
        assert("\n"@.len() == 1 && "\n"@[0] == '\n');
        assert(spec_match_line(ms.last()).last() == '\n');
        assert(fm.last() == '\n');
    }
}

/// Persisting a match set and reading the text back reproduces the same
/// `(line number, line text)` pairs in the same order, for matches whose
/// line numbers are representable and whose line text holds no line break
/// and does not end in a carriage return.
#[verifier::rlimit(50)]
pub proof fn lemma_matches_round_trip(ms: Seq<(int, Seq<char>)>)
    requires
        forall|k: int| 0 <= k < ms.len() ==> 1 <= (#[trigger] ms[k]).0 <= usize::MAX as int,
        forall|k: int| 0 <= k < ms.len() ==> !(#[trigger] ms[k]).1.contains('\n'),
        forall|k: int|
            0 <= k < ms.len() ==> ((#[trigger] ms[k]).1.len() == 0 || ms[k].1.last() != '\r'),
    ensures
        spec_parse_matches(spec_lines(spec_format_matches(ms))) == Option::Some(ms),
    decreases ms.len(),
{
    reveal_strlit(" ");
    reveal_strlit("\n");
    if ms.len() == 0 {
        assert(spec_lines(spec_format_matches(ms)) =~= Seq::<Seq<char>>::empty());
        assert(ms =~= Seq::<(int, Seq<char>)>::empty());
    } else {
        let init = ms.drop_last();
        let m = ms.last();
        assert forall|k: int| 0 <= k < init.len() implies 1 <= (#[trigger] init[k]).0
            <= usize::MAX as int && !init[k].1.contains('\n') && (init[k].1.len() == 0
            || init[k].1.last() != '\r') by {
            assert(init[k] == ms[k]);
        }
        lemma_matches_round_trip(init);
        lemma_format_nl_terminated(init);
        assert(m.0 >= 1 && !m.1.contains('\n') && (m.1.len() == 0 || m.1.last() != '\r')) by {
            assert(ms[ms.len() - 1] == m);
        }
        lemma_decimal_props(m.0);
        let dec = spec_decimal(m.0);
        assert(spec_usize_decimal(m.0) == dec);
        assert(" "@.len() == 1 && " "@[0] == ' ');
        assert("\n"@.len() == 1 && "\n"@[0] == '\n');
        let content = dec + " "@ + m.1;
        assert(!content.contains('\n')) by {
            if content.contains('\n') {
                let j = choose|j: int| 0 <= j < content.len() && content[j] == '\n';
                if j < dec.len() {
                    assert(is_digit_char(dec[j]));
                } else if j == dec.len() {
                    assert(content[j] == ' ');
                } else {
                    assert(content[j] == m.1[j - dec.len() - 1]);
                    assert(m.1.contains('\n'));
                }
            }
        }
        assert(content.len() == dec.len() + 1 + m.1.len());
        if m.1.len() == 0 {
            assert(content.last() == ' ');
        } else {
            assert(content.last() == m.1.last());
        }
        let fm_init = spec_format_matches(init);
        lemma_lines_append(fm_init, content);
        assert(spec_format_matches(ms) == fm_init + spec_match_line(m));
        assert(spec_format_matches(ms) =~= fm_init + content + seq!['\n']);
        let ls = spec_lines(spec_format_matches(ms));
        assert(ls == spec_lines(fm_init) + seq![content]);
        assert(ls.drop_last() =~= spec_lines(fm_init));
        assert(ls.last() == content);
        assert forall|j: int| 0 <= j < dec.len() implies is_digit_char(#[trigger] content[j]) by {
            assert(content[j] == dec[j]);
        }
        assert(content[dec.len() as int] == ' ');
        assert(!is_digit_char(' '));
        lemma_digits_end_unique(content, dec.len() as int);
        assert(content.subrange(0, dec.len() as int) =~= dec);
        assert(content.subrange(dec.len() as int + 1, content.len() as int) =~= m.1);
        assert(spec_parse_line(content) == Option::Some((m.0, m.1)));
        assert(init.push(m) =~= ms);
        assert(spec_parse_matches(ls) == Option::Some(ms));
    }
}

/// Persisting the matches of a search and reading the text back reproduces
/// them, whenever the text has few enough lines to number them and no
/// matching line ends in a carriage return (a final line may: nothing then
/// separates its carriage return from the one the persisted form adds).
pub proof fn lemma_search_round_trip(pattern: Seq<char>, text: Seq<char>, match_case: bool)
    requires
        spec_lines(text).len() <= usize::MAX,
        forall|i: int|
            0 <= i < spec_lines(text).len() ==> ((#[trigger] spec_lines(text)[i]).len() == 0
                || spec_lines(text)[i].last() != '\r'),
    ensures
        spec_parse_matches(
            spec_lines(spec_format_matches(spec_search(pattern, text, match_case))),
        ) == Option::Some(spec_search(pattern, text, match_case)),
{
    let lines = spec_lines(text);
    let ms = spec_search(pattern, text, match_case);
    lemma_search_sound(pattern, lines, match_case);
    lemma_lines_have_no_newline(text);
    assert forall|k: int| 0 <= k < ms.len() implies 1 <= (#[trigger] ms[k]).0
        <= usize::MAX as int && !ms[k].1.contains('\n') && (ms[k].1.len() == 0 || ms[k].1.last()
        != '\r') by {
        assert(ms[k].1 == lines[ms[k].0 - 1]);
    }
    lemma_matches_round_trip(ms);
}

/// The outcome of a full search over already-loaded text: the displayed
/// report, and the persisted form when an output file is configured.
pub struct SearchOutput {
    pub report: String,
    pub file_output: Option<String>,
}

/// Run a search request over raw file text: strip any leading byte-order
/// marks, scan for the configured pattern under the configured case policy,
/// and render the report and, when an output file is configured, the
/// persisted form of the matches.
pub fn run_search(config: &Config, raw_text: &str) -> (out: SearchOutput)
    ensures
        ({
            let text = spec_strip_bom(raw_text@);
            let ms = spec_search(config.search_str@, text, config.match_case);
            &&& out.report@ == spec_report(config.search_str@, ms)
            &&& (match out.file_output {
                Option::Some(s) => config.output_file is Some && s@ == spec_format_matches(ms),
                Option::None => config.output_file is None,
            })
        }),
{
    let text = strip_bom(raw_text);
    let results = search(config.search_str.as_str(), text.as_str(), config.match_case);
    let report = format_report(config.search_str.as_str(), &results);
    let file_output = match &config.output_file {
        Option::Some(_) => Option::Some(format_matches(&results)),
        Option::None => Option::None,
    };
    SearchOutput { report, file_output }
}

} // verus!
