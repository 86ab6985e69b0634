//! Character-sequence utilities: substring containment, line splitting and
//! byte-order-mark stripping, each with an exact specification.

use vstd::prelude::*;

verus! {

/// Index of the first occurrence of `c` in `s`, or `s.len()` if `c` does not occur.
pub open spec fn find_char(s: Seq<char>, c: char) -> int
    decreases s.len(),
{
    if s.len() == 0 {
        0
    } else if s[0] == c {
        0
    } else {
        1 + find_char(s.drop_first(), c)
    }
}

pub proof fn lemma_find_char(s: Seq<char>, c: char)
    ensures
        0 <= find_char(s, c) <= s.len(),
        forall|j: int| 0 <= j < find_char(s, c) ==> s[j] != c,
        find_char(s, c) < s.len() ==> s[find_char(s, c)] == c,
    decreases s.len(),
{
    if s.len() == 0 {
    } else if s[0] == c {
    } else {
        lemma_find_char(s.drop_first(), c);
        assert forall|j: int| 0 <= j < find_char(s, c) implies s[j] != c by {
            if j >= 1 {
                assert(s.drop_first()[j - 1] == s[j]);
            }
        }
        if find_char(s, c) < s.len() {
            assert(s.drop_first()[find_char(s, c) - 1] == s[find_char(s, c)]);
        }
    }
}

/// `find_char` is pinned down by its characteristic properties.
pub proof fn lemma_find_char_unique(s: Seq<char>, c: char, k: int)
    requires
        0 <= k <= s.len(),
        forall|j: int| 0 <= j < k ==> s[j] != c,
        k < s.len() ==> s[k] == c,
    ensures
        find_char(s, c) == k,
    decreases s.len(),
{
    if s.len() == 0 {
    } else if s[0] == c {
        assert(k == 0);
    } else {
        assert(s[0] != c);
        assert(k >= 1);
        assert forall|j: int| 0 <= j < k - 1 implies s.drop_first()[j] != c by {
            assert(s.drop_first()[j] == s[j + 1]);
        }
        if k - 1 < s.drop_first().len() {
            assert(s.drop_first()[k - 1] == s[k]);
        }
        lemma_find_char_unique(s.drop_first(), c, k - 1);
    }
}

/// `needle` occurs in `hay` starting at position `i`.
pub open spec fn occurs_at(hay: Seq<char>, needle: Seq<char>, i: int) -> bool {
    &&& 0 <= i
    &&& i + needle.len() <= hay.len()
    &&& hay.subrange(i, i + needle.len() as int) == needle
}

/// `needle` occurs somewhere in `hay` as a contiguous subsequence.
pub open spec fn contains_seq(hay: Seq<char>, needle: Seq<char>) -> bool {
    exists|i: int| occurs_at(hay, needle, i)
}

/// An empty needle occurs in every haystack.
pub proof fn lemma_contains_empty(hay: Seq<char>, needle: Seq<char>)
    requires
        needle.len() == 0,
    ensures
        contains_seq(hay, needle),
{
    assert(hay.subrange(0, 0) =~= needle);
    assert(occurs_at(hay, needle, 0));
}

/// Whether `needle` occurs in `hay` starting exactly at position `i`.
fn match_at(hay: &str, needle: &str, i: usize) -> (r: bool)
    requires
        i + needle@.len() <= hay@.len(),
        hay@.len() <= usize::MAX,
    ensures
        r == occurs_at(hay@, needle@, i as int),
{
    let m = needle.unicode_len();
    let mut j: usize = 0;
    while j < m
        invariant
            m == needle@.len(),
            i + m <= hay@.len(),
            hay@.len() <= usize::MAX,
            j <= m,
            forall|k: int| 0 <= k < j ==> hay@[i + k] == needle@[k],
        decreases m - j,
    {
        if hay.get_char(i + j) != needle.get_char(j) {
            assert(!occurs_at(hay@, needle@, i as int)) by {
                if occurs_at(hay@, needle@, i as int) {
                    assert(hay@.subrange(i as int, i + m)[j as int] == hay@[i + j]);
                }
            }
            return false;
        }
        j += 1;
    }
    assert(hay@.subrange(i as int, i + m) =~= needle@);
    true
}

/// Substring containment test, exact against `contains_seq`.
pub fn str_contains(hay: &str, needle: &str) -> (r: bool)
    ensures
        r == contains_seq(hay@, needle@),
{
    let n = hay.unicode_len();
    let m = needle.unicode_len();
    if m > n {
        assert forall|i: int| !occurs_at(hay@, needle@, i) by {}
        return false;
    }
    if m == 0 {
        proof {
            lemma_contains_empty(hay@, needle@);
        }
        return true;
    }
    let mut i: usize = 0;
    while i <= n - m
        invariant
            n == hay@.len(),
            m == needle@.len(),
            1 <= m <= n,
            i <= n - m + 1,
            forall|k: int| 0 <= k < i ==> !occurs_at(hay@, needle@, k),
        decreases n - m + 1 - i,
    {
        if match_at(hay, needle, i) {
            return true;
        }
        i += 1;
    }
    assert forall|k: int| !occurs_at(hay@, needle@, k) by {
        if k > n - m {
            assert(k + needle@.len() > hay@.len());
        }
    }
    false
}

/// The views of a sequence of owned strings.
pub open spec fn views_of(ss: Seq<String>) -> Seq<Seq<char>> {
    ss.map_values(|s: String| s@)
}

/// Drop a single carriage return from the end of a line, if one is there.
pub open spec fn strip_cr(l: Seq<char>) -> Seq<char> {
    if l.len() > 0 && l[l.len() - 1] == '\r' {
        l.drop_last()
    } else {
        l
    }
}

/// The lines of `s`: separated by `'\n'`, a carriage return directly before a
/// separator is dropped, and a trailing separator yields no final empty line.
pub open spec fn spec_lines(s: Seq<char>) -> Seq<Seq<char>>
    decreases s.len(),
{
    if s.len() == 0 {
        Seq::empty()
    } else {
        let i = find_char(s, '\n');
        if 0 <= i && i < s.len() {
            seq![strip_cr(s.subrange(0, i))] + spec_lines(s.subrange(i + 1, s.len() as int))
        } else {
            seq![s]
        }
    }
}

/// No line produced by `spec_lines` contains a separator.
pub proof fn lemma_lines_have_no_newline(s: Seq<char>)
    ensures
        forall|k: int|
            0 <= k < spec_lines(s).len() ==> !(#[trigger] spec_lines(s)[k]).contains('\n'),
    decreases s.len(),
{
    if s.len() == 0 {
    } else {
        let i = find_char(s, '\n');
        lemma_find_char(s, '\n');
        if 0 <= i && i < s.len() {
            let head = strip_cr(s.subrange(0, i));
            assert(!head.contains('\n')) by {
                assert forall|j: int| 0 <= j < head.len() implies head[j] != '\n' by {
                    assert(head[j] == s[j]);
                }
            }
            lemma_lines_have_no_newline(s.subrange(i + 1, s.len() as int));
            assert forall|k: int|
                0 <= k < spec_lines(s).len() implies !(#[trigger] spec_lines(s)[k]).contains(
                '\n',
            ) by {
                if k >= 1 {
                    assert(spec_lines(s)[k] == spec_lines(s.subrange(i + 1, s.len() as int))[k
                        - 1]);
                }
            }
        } else {
            assert(!s.contains('\n')) by {
                assert forall|j: int| 0 <= j < s.len() implies s[j] != '\n' by {}
            }
        }
    }
}

/// Split `text` into its lines, exactly as `spec_lines` describes.
pub fn split_lines(text: &str) -> (lines: Vec<String>)
    ensures
        views_of(lines@) == spec_lines(text@),
{
    let n = text.unicode_len();
    let mut lines: Vec<String> = Vec::new();
    let mut pos: usize = 0;
    proof {
        assert(text@.subrange(0, n as int) =~= text@);
    }
    while pos < n
        invariant
            n == text@.len(),
            pos <= n,
            views_of(lines@) + spec_lines(text@.subrange(pos as int, n as int)) == spec_lines(
                text@,
            ),
        decreases n - pos,
    {
        let ghost suffix = text@.subrange(pos as int, n as int);
        let mut j: usize = pos;
        while j < n && text.get_char(j) != '\n'
            invariant
                n == text@.len(),
                pos <= j <= n,
                forall|k: int| pos <= k < j ==> text@[k] != '\n',
            decreases n - j,
        {
            j += 1;
        }
        proof {
            assert forall|p: int| 0 <= p < j - pos implies suffix[p] != '\n' by {
                assert(suffix[p] == text@[pos + p]);
            }
            if j < n {
                assert(suffix[j - pos] == text@[j as int]);
            }
            lemma_find_char_unique(suffix, '\n', j - pos);
        }
        if j < n {
            let content_end = if j > pos && text.get_char(j - 1) == '\r' {
                j - 1
            } else {
                j
            };
            let line = String::from_str(text.substring_char(pos, content_end));
            proof {
                let head = suffix.subrange(0, j - pos);
                assert(head =~= text@.subrange(pos as int, j as int));
                if j > pos && text@[j - 1] == '\r' {
                    assert(head[head.len() - 1] == text@[j - 1]);
                    assert(strip_cr(head) =~= text@.subrange(pos as int, content_end as int));
                } else {
                    if head.len() > 0 {
                        assert(head[head.len() - 1] == text@[j - 1]);
                    }
                    assert(strip_cr(head) =~= text@.subrange(pos as int, content_end as int));
                }
                assert(suffix.subrange(j - pos + 1, suffix.len() as int) =~= text@.subrange(
                    j + 1,
                    n as int,
                ));
                assert(spec_lines(suffix) == seq![line@] + spec_lines(
                    text@.subrange(j + 1, n as int),
                ));
            }
            let ghost old_lines = lines@;
            lines.push(line);
            proof {
                assert(views_of(lines@) =~= views_of(old_lines).push(line@));
                assert(views_of(lines@) + spec_lines(text@.subrange(j + 1, n as int)) =~~= views_of(
                    old_lines,
                ) + spec_lines(suffix));
            }
            pos = j + 1;
        } else {
            let line = String::from_str(text.substring_char(pos, n));
            proof {
                assert(line@ == suffix);
                assert(find_char(suffix, '\n') == suffix.len());
                assert(spec_lines(suffix) == seq![suffix]);
            }
            let ghost old_lines = lines@;
            lines.push(line);
            proof {
                assert(views_of(lines@) =~= views_of(old_lines).push(line@));
                assert(views_of(lines@) + spec_lines(text@.subrange(n as int, n as int)) =~~=
                    views_of(old_lines) + spec_lines(suffix));
            }
            pos = n;
        }
    }
    proof {
        assert(text@.subrange(n as int, n as int) =~= Seq::<char>::empty());
        assert(views_of(lines@) =~~= views_of(lines@) + spec_lines(
            text@.subrange(n as int, n as int),
        ));
    }
    lines
}

/// A text that ends at a line boundary: empty, or closed by a separator.
pub open spec fn nl_terminated(s: Seq<char>) -> bool {
    s.len() == 0 || s.last() == '\n'
}

/// Appending one separator-terminated line to a text that ends at a line
/// boundary appends exactly that line to the line list.
pub proof fn lemma_lines_append(a: Seq<char>, content: Seq<char>)
    requires
        nl_terminated(a),
        !content.contains('\n'),
        content.len() == 0 || content.last() != '\r',
    ensures
        spec_lines(a + content + seq!['\n']) == spec_lines(a) + seq![content],
    decreases a.len(),
{
    let w = a + content + seq!['\n'];
    assert forall|j: int| 0 <= j < content.len() implies content[j] != '\n' by {
        if content[j] == '\n' {
            assert(content.contains('\n'));
        }
    }
    if a.len() == 0 {
        assert forall|j: int| 0 <= j < content.len() implies w[j] != '\n' by {
            assert(w[j] == content[j]);
        }
        assert(w[content.len() as int] == '\n');
        lemma_find_char_unique(w, '\n', content.len() as int);
        assert(w.subrange(0, content.len() as int) =~= content);
        assert(strip_cr(content) == content);
        assert(w.subrange(content.len() as int + 1, w.len() as int) =~= Seq::<char>::empty());
        assert(find_char(w, '\n') == content.len() && w.len() == content.len() + 1);
        assert(spec_lines(w) == seq![strip_cr(w.subrange(0, content.len() as int))] + spec_lines(
            w.subrange(content.len() as int + 1, w.len() as int),
        ));
        assert(spec_lines(Seq::<char>::empty()) =~= Seq::<Seq<char>>::empty());
        assert(spec_lines(w) =~~= spec_lines(a) + seq![content]);
    } else {
        assert(a.last() == '\n');
        lemma_find_char(a, '\n');
        let i = find_char(a, '\n');
        assert(i < a.len()) by {
            if i == a.len() {
                assert(a[a.len() - 1] != '\n');
            }
        }
        assert forall|j: int| 0 <= j < i implies w[j] != '\n' by {
            assert(w[j] == a[j]);
        }
        assert(w[i] == a[i]);
        lemma_find_char_unique(w, '\n', i);
        let a2 = a.subrange(i + 1, a.len() as int);
        assert(w.subrange(0, i) =~= a.subrange(0, i));
        assert(w.subrange(i + 1, w.len() as int) =~= a2 + content + seq!['\n']);
        if a2.len() > 0 {
            assert(a2.last() == a.last());
        }
        lemma_lines_append(a2, content);
        assert(spec_lines(w) == seq![strip_cr(w.subrange(0, i))] + spec_lines(
            a2 + content + seq!['\n'],
        ));
        assert(spec_lines(a) == seq![strip_cr(a.subrange(0, i))] + spec_lines(a2));
        assert(spec_lines(w) =~~= spec_lines(a) + seq![content]);
    }
}

/// `s` with every leading byte-order mark removed.
pub open spec fn spec_strip_bom(s: Seq<char>) -> Seq<char>
    decreases s.len(),
{
    if s.len() > 0 && s[0] == '\u{feff}' {
        spec_strip_bom(s.drop_first())
    } else {
        s
    }
}

/// Remove any leading byte-order marks from `text`.
pub fn strip_bom(text: &str) -> (r: String)
    ensures
        r@ == spec_strip_bom(text@),
{
    let n = text.unicode_len();
    let mut i: usize = 0;
    proof {
        assert(text@.subrange(0, n as int) =~= text@);
    }
    while i < n && text.get_char(i) == '\u{feff}'
        invariant
            n == text@.len(),
            i <= n,
            spec_strip_bom(text@) == spec_strip_bom(text@.subrange(i as int, n as int)),
        decreases n - i,
    {
        proof {
            let suffix = text@.subrange(i as int, n as int);
            assert(suffix[0] == text@[i as int]);
            assert(suffix.drop_first() =~= text@.subrange(i + 1, n as int));
        }
        i += 1;
    }
    let r = String::from_str(text.substring_char(i, n));
    proof {
        let suffix = text@.subrange(i as int, n as int);
        if suffix.len() > 0 {
            assert(suffix[0] == text@[i as int]);
        }
        assert(spec_strip_bom(suffix) == suffix);
    }
    r
}

/// Prefix test: does `s` begin with `prefix`?
pub fn str_starts_with(s: &str, prefix: &str) -> (r: bool)
    ensures
        r == occurs_at(s@, prefix@, 0),
{
    let n = s.unicode_len();
    let m = prefix.unicode_len();
    if m > n {
        return false;
    }
    match_at(s, prefix, 0)
}

} // verus!
