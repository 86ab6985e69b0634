//! The search engine: scans text line by line for a pattern, case-sensitively
//! or case-insensitively, and returns the matching lines with their 1-based
//! line numbers in ascending order.

use vstd::prelude::*;
use crate::text::{
    contains_seq, lemma_contains_empty, spec_lines, split_lines, str_contains, views_of,
};

verus! {

/// What `str::to_lowercase` returns for a string with these characters.
pub uninterp spec fn lower_of(s: Seq<char>) -> Seq<char>;

/// Relies on `str::to_lowercase` from std: the result depends on the
/// characters of `s` alone, and an empty string stays empty.
#[verifier::external_body]
fn to_lowercase_str(s: &str) -> (r: String)
    ensures
        r@ == lower_of(s@),
        s@.len() == 0 ==> r@.len() == 0,
{
    s.to_lowercase()
}

/// The form in which a string takes part in the comparison: itself when
/// matching case, its lowercased form otherwise.
pub open spec fn fold_case(s: Seq<char>, match_case: bool) -> Seq<char> {
    if match_case {
        s
    } else {
        lower_of(s)
    }
}

/// A line is reported when its comparison form contains the comparison form
/// of the pattern as a contiguous substring.
pub open spec fn line_matches(line: Seq<char>, pattern: Seq<char>, match_case: bool) -> bool {
    contains_seq(fold_case(line, match_case), fold_case(pattern, match_case))
}

/// The mathematical view of a list of matches: 1-based line numbers paired
/// with the characters of the line.
pub open spec fn match_views(ms: Seq<(usize, String)>) -> Seq<(int, Seq<char>)> {
    ms.map_values(|m: (usize, String)| (m.0 as int, m.1@))
}

/// The matches among `lines`: one entry `(i + 1, lines[i])` for every index
/// `i` whose line matches, in ascending order of line number.
pub open spec fn spec_search_lines(
    pattern: Seq<char>,
    lines: Seq<Seq<char>>,
    match_case: bool,
) -> Seq<(int, Seq<char>)>
    decreases lines.len(),
{
    if lines.len() == 0 {
        Seq::empty()
    } else {
        let init = spec_search_lines(pattern, lines.drop_last(), match_case);
        if line_matches(lines.last(), pattern, match_case) {
            init.push((lines.len() as int, lines.last()))
        } else {
            init
        }
    }
}

/// The matches of `pattern` over the lines of `text`.
pub open spec fn spec_search(pattern: Seq<char>, text: Seq<char>, match_case: bool) -> Seq<
    (int, Seq<char>),
> {
    spec_search_lines(pattern, spec_lines(text), match_case)
}

/// Every reported match carries a valid 1-based line number, the unmodified
/// text of that very line, and a line that satisfies the search predicate.
pub proof fn lemma_search_sound(pattern: Seq<char>, lines: Seq<Seq<char>>, match_case: bool)
    ensures
        forall|k: int|
            0 <= k < spec_search_lines(pattern, lines, match_case).len() ==> {
                let m = #[trigger] spec_search_lines(pattern, lines, match_case)[k];
                &&& 1 <= m.0 <= lines.len()
                &&& m.1 == lines[m.0 - 1]
                &&& line_matches(m.1, pattern, match_case)
            },
    decreases lines.len(),
{
    if lines.len() == 0 {
    } else {
        lemma_search_sound(pattern, lines.drop_last(), match_case);
        let init = spec_search_lines(pattern, lines.drop_last(), match_case);
        assert forall|k: int|
            0 <= k < spec_search_lines(pattern, lines, match_case).len() implies {
            let m = #[trigger] spec_search_lines(pattern, lines, match_case)[k];
            &&& 1 <= m.0 <= lines.len()
            &&& m.1 == lines[m.0 - 1]
            &&& line_matches(m.1, pattern, match_case)
        } by {
            if k < init.len() {
                let m = init[k];
                assert(lines.drop_last()[m.0 - 1] == lines[m.0 - 1]);
            }
        }
    }
}

/// Every line that satisfies the search predicate is reported.
pub proof fn lemma_search_complete(
    pattern: Seq<char>,
    lines: Seq<Seq<char>>,
    match_case: bool,
    i: int,
)
    requires
        0 <= i < lines.len(),
        line_matches(lines[i], pattern, match_case),
    ensures
        spec_search_lines(pattern, lines, match_case).contains((i + 1, lines[i])),
    decreases lines.len(),
{
    let result = spec_search_lines(pattern, lines, match_case);
    let init = spec_search_lines(pattern, lines.drop_last(), match_case);
    if i == lines.len() - 1 {
        assert(result[result.len() - 1] == (i + 1, lines[i]));
    } else {
        assert(lines.drop_last()[i] == lines[i]);
        lemma_search_complete(pattern, lines.drop_last(), match_case, i);
        let k = choose|k: int| 0 <= k < init.len() && init[k] == (i + 1, lines[i]);
        assert(result[k] == (i + 1, lines[i]));
    }
}

/// A line stands in the result exactly when it satisfies the search
/// predicate: reported lines match, and no other line does.
pub proof fn lemma_search_exact(
    pattern: Seq<char>,
    lines: Seq<Seq<char>>,
    match_case: bool,
    i: int,
)
    requires
        0 <= i < lines.len(),
    ensures
        spec_search_lines(pattern, lines, match_case).contains((i + 1, lines[i]))
            <==> line_matches(lines[i], pattern, match_case),
{
    lemma_search_sound(pattern, lines, match_case);
    if line_matches(lines[i], pattern, match_case) {
        lemma_search_complete(pattern, lines, match_case, i);
    }
}

/// Case-insensitive search reports exactly the lines whose lowercased text
/// contains the lowercased pattern, each under its own line number.
pub proof fn lemma_case_insensitive_characterization(pattern: Seq<char>, text: Seq<char>, i: int)
    requires
        0 <= i < spec_lines(text).len(),
    ensures
        spec_search(pattern, text, false).contains((i + 1, spec_lines(text)[i])) <==> contains_seq(
            lower_of(spec_lines(text)[i]),
            lower_of(pattern),
        ),
{
    lemma_search_exact(pattern, spec_lines(text), false, i);
}

/// Case-sensitive search reports exactly the lines that contain the pattern
/// verbatim, each under its own line number.
pub proof fn lemma_case_sensitive_characterization(pattern: Seq<char>, text: Seq<char>, i: int)
    requires
        0 <= i < spec_lines(text).len(),
    ensures
        spec_search(pattern, text, true).contains((i + 1, spec_lines(text)[i])) <==> contains_seq(
            spec_lines(text)[i],
            pattern,
        ),
{
    lemma_search_exact(pattern, spec_lines(text), true, i);
}

/// Line numbers in a result are strictly ascending.
pub proof fn lemma_search_ascending(pattern: Seq<char>, lines: Seq<Seq<char>>, match_case: bool)
    ensures
        forall|k1: int, k2: int|
            0 <= k1 < k2 < spec_search_lines(pattern, lines, match_case).len()
                ==> #[trigger] spec_search_lines(pattern, lines, match_case)[k1].0
                < #[trigger] spec_search_lines(pattern, lines, match_case)[k2].0,
    decreases lines.len(),
{
    if lines.len() == 0 {
    } else {
        lemma_search_ascending(pattern, lines.drop_last(), match_case);
        lemma_search_sound(pattern, lines.drop_last(), match_case);
        let result = spec_search_lines(pattern, lines, match_case);
        let init = spec_search_lines(pattern, lines.drop_last(), match_case);
        assert forall|k1: int, k2: int| 0 <= k1 < k2 < result.len() implies #[trigger] result[k1].0
            < #[trigger] result[k2].0 by {
            if k2 == init.len() {
                assert(result[k1] == init[k1]);
                assert(init[k1].0 <= lines.drop_last().len());
            } else {
                assert(result[k1] == init[k1]);
                assert(result[k2] == init[k2]);
            }
        }
    }
}

/// A pattern whose comparison form is empty matches every line: the result
/// lists every line of the text, in order, under its own number.
pub proof fn lemma_empty_pattern_matches_all(
    pattern: Seq<char>,
    lines: Seq<Seq<char>>,
    match_case: bool,
)
    requires
        fold_case(pattern, match_case).len() == 0,
    ensures
        spec_search_lines(pattern, lines, match_case).len() == lines.len(),
        forall|i: int|
            0 <= i < lines.len() ==> #[trigger] spec_search_lines(pattern, lines, match_case)[i]
                == (i + 1, lines[i]),
    decreases lines.len(),
{
    if lines.len() == 0 {
    } else {
        lemma_empty_pattern_matches_all(pattern, lines.drop_last(), match_case);
        lemma_contains_empty(
            fold_case(lines.last(), match_case),
            fold_case(pattern, match_case),
        );
        assert forall|i: int|
            0 <= i < lines.len() implies #[trigger] spec_search_lines(pattern, lines, match_case)[i]
            == (i + 1, lines[i]) by {
            if i < lines.len() - 1 {
                assert(lines.drop_last()[i] == lines[i]);
            }
        }
    }
}

/// Scan `text` line by line for `search_str` and return each matching line
/// with its 1-based line number, in ascending order. Case-insensitive unless
/// `match_case` is set; the returned line text keeps its original casing.
pub fn search(search_str: &str, text: &str, match_case: bool) -> (result: Vec<(usize, String)>)
    ensures
        match_views(result@) == spec_search(search_str@, text@, match_case),
        search_str@.len() == 0 ==> result@.len() == spec_lines(text@).len() && (forall|i: int|
            0 <= i < result@.len() ==> match_views(result@)[i] == (i + 1, spec_lines(text@)[i])),
{
    let lines = split_lines(text);
    let pattern_cmp = if match_case {
        String::from_str(search_str)
    } else {
        to_lowercase_str(search_str)
    };
    let mut result: Vec<(usize, String)> = Vec::new();
    let mut idx: usize = 0;
    proof {
        assert(views_of(lines@).take(0) =~= Seq::<Seq<char>>::empty());
        assert(match_views(result@) =~= Seq::<(int, Seq<char>)>::empty());
    }
    while idx < lines.len()
        invariant
            views_of(lines@) == spec_lines(text@),
            pattern_cmp@ == fold_case(search_str@, match_case),
            search_str@.len() == 0 ==> pattern_cmp@.len() == 0,
            idx <= lines@.len(),
            match_views(result@) == spec_search_lines(
                search_str@,
                views_of(lines@).take(idx as int),
                match_case,
            ),
        decreases lines@.len() - idx,
    {
        let ghost lviews = views_of(lines@);
        let line = &lines[idx];
        let line_cmp = if match_case {
            line.clone()
        } else {
            to_lowercase_str(line.as_str())
        };
        proof {
            assert(lviews[idx as int] == line@);
        }
        let ghost old_result = result@;
        if str_contains(line_cmp.as_str(), pattern_cmp.as_str()) {
            result.push((idx + 1, line.clone()));
            proof {
                assert(match_views(result@) =~= match_views(old_result).push(
                    (idx + 1, line@),
                ));
            }
        }
        proof {
            let taken = lviews.take(idx + 1);
            assert(taken.drop_last() =~= lviews.take(idx as int));
            assert(taken.last() == lviews[idx as int]);
        }
        idx += 1;
    }
    proof {
        assert(views_of(lines@).take(lines@.len() as int) =~= views_of(lines@));
        if search_str@.len() == 0 {
            lemma_empty_pattern_matches_all(search_str@, spec_lines(text@), match_case);
        }
    }
    result
}

} // verus!
