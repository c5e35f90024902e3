//! Pure text metrics: structural counts, keyword extraction and line search.
//!
//! Every function is specified against a mathematical model of the text, a
//! `Seq<char>` of Unicode scalar values.  Lines, words and stanzas are
//! defined by recursive spec functions over that sequence.

use vstd::prelude::*;

verus! {

/// Structural statistics of a text, recomputed wholesale from the source.
#[derive(Clone, Copy, Debug, PartialEq, Eq, Structural)]
pub struct StructuralAnalysisResults {
    pub lines: usize,
    pub words: usize,
    pub characters: usize,
    pub stanzas: usize,
}

/// The characters with the Unicode `White_Space` property; word splitting
/// separates tokens at exactly these characters.
pub open spec fn is_space(c: char) -> bool {
    let u = c as u32;
    ||| u == 0x20
    ||| (0x9 <= u && u <= 0xD)
    ||| u == 0x85
    ||| u == 0xA0
    ||| u == 0x1680
    ||| (0x2000 <= u && u <= 0x200A)
    ||| u == 0x2028
    ||| u == 0x2029
    ||| u == 0x202F
    ||| u == 0x205F
    ||| u == 0x3000
}

fn is_space_char(c: char) -> (r: bool)
    ensures
        r == is_space(c),
{
    let u = c as u32;
    u == 0x20 || (0x9 <= u && u <= 0xD) || u == 0x85 || u == 0xA0 || u == 0x1680 || (0x2000 <= u
        && u <= 0x200A) || u == 0x2028 || u == 0x2029 || u == 0x202F || u == 0x205F || u == 0x3000
}

/// The view of each string in a sequence of strings.
pub open spec fn string_views(v: Seq<String>) -> Seq<Seq<char>> {
    v.map(|i: int, s: String| s@)
}

proof fn lemma_string_views_push(v: Seq<String>, x: String)
    ensures
        string_views(v.push(x)) =~= string_views(v).push(x@),
{
}

/// Splits `s` into segments at `'\n'`, accumulating the current segment in
/// `cur`; at the end of the text the pending segment is kept only if it is
/// non-empty, so a trailing newline does not add an empty segment.
pub open spec fn lines_acc(s: Seq<char>, cur: Seq<char>) -> Seq<Seq<char>>
    decreases s.len(),
{
    if s.len() == 0 {
        if cur.len() == 0 {
            Seq::empty()
        } else {
            seq![cur]
        }
    } else if s[0] == '\n' {
        seq![cur] + lines_acc(s.drop_first(), Seq::empty())
    } else {
        lines_acc(s.drop_first(), cur.push(s[0]))
    }
}

/// The newline-delimited segments of a text.  An empty text has no lines,
/// and a trailing newline does not create an extra empty line.
pub open spec fn lines_of(s: Seq<char>) -> Seq<Seq<char>> {
    lines_acc(s, Seq::empty())
}

/// Splits a text into its lines.
pub fn split_lines(s: &str) -> (r: Vec<String>)
    ensures
        string_views(r@) == lines_of(s@),
{
    let n = s.unicode_len();
    let mut out: Vec<String> = Vec::new();
    let mut start: usize = 0;
    let mut i: usize = 0;
    proof {
        assert(s@.skip(0) =~= s@);
        assert(s@.subrange(0, 0) =~= Seq::<char>::empty());
        assert(string_views(out@) =~= Seq::<Seq<char>>::empty());
    }
    while i < n
        invariant
            n == s@.len(),
            start <= i <= n,
            lines_of(s@) == string_views(out@) + lines_acc(
                s@.skip(i as int),
                s@.subrange(start as int, i as int),
            ),
        decreases n - i,
    {
        let ghost rest = s@.skip(i as int);
        let ghost cur = s@.subrange(start as int, i as int);
        proof {
            assert(rest.len() > 0);
            assert(rest[0] == s@[i as int]);
            assert(rest.drop_first() =~= s@.skip(i as int + 1));
        }
        let c = s.get_char(i);
        if c == '\n' {
            let line = s.substring_char(start, i).to_owned();
            proof {
                lemma_string_views_push(out@, line);
                assert(lines_acc(rest, cur) == seq![cur] + lines_acc(
                    rest.drop_first(),
                    Seq::empty(),
                ));
                assert(string_views(out@).push(line@) =~= string_views(out@) + seq![cur]);
                assert(string_views(out@.push(line)) + lines_acc(
                    s@.skip(i as int + 1),
                    Seq::<char>::empty(),
                ) =~= string_views(out@) + lines_acc(rest, cur));
                assert(s@.subrange(i as int + 1, i as int + 1) =~= Seq::<char>::empty());
            }
            out.push(line);
            start = i + 1;
        } else {
            proof {
                assert(lines_acc(rest, cur) == lines_acc(rest.drop_first(), cur.push(rest[0])));
                assert(cur.push(s@[i as int]) =~= s@.subrange(start as int, i as int + 1));
            }
        }
        i = i + 1;
    }
    proof {
        assert(s@.skip(n as int) =~= Seq::<char>::empty());
    }
    if start < n {
        let line = s.substring_char(start, n).to_owned();
        proof {
            lemma_string_views_push(out@, line);
            let cur = s@.subrange(start as int, n as int);
            assert(lines_acc(Seq::<char>::empty(), cur) =~= seq![cur]);
            assert(string_views(out@.push(line)) =~= string_views(out@) + seq![cur]);
        }
        out.push(line);
    } else {
        proof {
            let cur = s@.subrange(start as int, n as int);
            assert(cur.len() == 0);
            assert(lines_acc(Seq::<char>::empty(), cur) =~= Seq::<Seq<char>>::empty());
            assert(string_views(out@) =~= string_views(out@) + Seq::<Seq<char>>::empty());
        }
    }
    out
}

/// `needle` occurs in `hay` starting at position `i`.
pub open spec fn contains_at(hay: Seq<char>, needle: Seq<char>, i: int) -> bool {
    0 <= i && i + needle.len() <= hay.len() && hay.subrange(i, i + needle.len()) == needle
}

/// `hay` contains `needle` as a contiguous substring.  The empty needle is
/// contained in every text.
pub open spec fn contains_seq(hay: Seq<char>, needle: Seq<char>) -> bool {
    exists|i: int| contains_at(hay, needle, i)
}

/// Whether `needle` occurs at position `i` of `hay`, by direct comparison.
fn matches_at(hay: &Vec<char>, needle: &Vec<char>, i: usize) -> (r: bool)
    requires
        i + needle@.len() <= hay@.len(),
    ensures
        r == contains_at(hay@, needle@, i as int),
{
    let hlen = hay.len();
    let m = needle.len();
    let mut j: usize = 0;
    while j < m
        invariant
            hlen == hay@.len(),
            m == needle@.len(),
            i + m <= hlen,
            j <= m,
            forall|k: int| 0 <= k < j ==> hay@[i + k] == needle@[k],
        decreases m - j,
    {
        if hay[i + j] != needle[j] {
            proof {
                assert(hay@.subrange(i as int, i + m) != needle@) by {
                    assert(hay@.subrange(i as int, i + m)[j as int] == hay@[i + j]);
                }
            }
            return false;
        }
        j = j + 1;
    }
    proof {
        assert(hay@.subrange(i as int, i + m) =~= needle@);
    }
    true
}

/// Whether `hay` contains `needle` as a contiguous substring.
pub fn contains_substr(hay: &str, needle: &str) -> (r: bool)
    ensures
        r == contains_seq(hay@, needle@),
{
    let h = char_vec(hay);
    let n = char_vec(needle);
    let hl = h.len();
    let nl = n.len();
    if nl > hl {
        proof {
            assert(forall|i: int| !contains_at(hay@, needle@, i));
        }
        return false;
    }
    if nl == 0 {
        proof {
            assert(hay@.subrange(0, 0) =~= needle@);
            assert(contains_at(hay@, needle@, 0));
        }
        return true;
    }
    let stop = hl - nl + 1;
    let mut i: usize = 0;
    while i < stop
        invariant
            h@ == hay@,
            n@ == needle@,
            hl == hay@.len(),
            nl == needle@.len(),
            1 <= nl <= hl,
            stop == hl - nl + 1,
            i <= stop,
            forall|k: int| 0 <= k < i ==> !contains_at(hay@, needle@, k),
        decreases stop - i,
    {
        if matches_at(&h, &n, i) {
            return true;
        }
        i = i + 1;
    }
    proof {
        assert(forall|k: int| contains_at(hay@, needle@, k) ==> 0 <= k <= hl - nl);
    }
    false
}

/// Splits `s` into maximal runs of non-whitespace characters, accumulating
/// the current run in `cur`; empty runs are never emitted.
pub open spec fn tokens_acc(s: Seq<char>, cur: Seq<char>) -> Seq<Seq<char>>
    decreases s.len(),
{
    if s.len() == 0 {
        if cur.len() == 0 {
            Seq::empty()
        } else {
            seq![cur]
        }
    } else if is_space(s[0]) {
        if cur.len() == 0 {
            tokens_acc(s.drop_first(), Seq::empty())
        } else {
            seq![cur] + tokens_acc(s.drop_first(), Seq::empty())
        }
    } else {
        tokens_acc(s.drop_first(), cur.push(s[0]))
    }
}

/// The maximal whitespace-delimited non-empty tokens of a text, in order.
pub open spec fn tokens_of(s: Seq<char>) -> Seq<Seq<char>> {
    tokens_acc(s, Seq::empty())
}

/// Splits a text into its whitespace-delimited words.
pub fn split_words(s: &str) -> (r: Vec<String>)
    ensures
        string_views(r@) == tokens_of(s@),
{
    let n = s.unicode_len();
    let mut out: Vec<String> = Vec::new();
    let mut start: usize = 0;
    let mut i: usize = 0;
    proof {
        assert(s@.skip(0) =~= s@);
        assert(s@.subrange(0, 0) =~= Seq::<char>::empty());
        assert(string_views(out@) =~= Seq::<Seq<char>>::empty());
    }
    while i < n
        invariant
            n == s@.len(),
            start <= i <= n,
            tokens_of(s@) == string_views(out@) + tokens_acc(
                s@.skip(i as int),
                s@.subrange(start as int, i as int),
            ),
        decreases n - i,
    {
        let ghost rest = s@.skip(i as int);
        let ghost cur = s@.subrange(start as int, i as int);
        proof {
            assert(rest.len() > 0);
            assert(rest[0] == s@[i as int]);
            assert(rest.drop_first() =~= s@.skip(i as int + 1));
        }
        let c = s.get_char(i);
        if is_space_char(c) {
            if start < i {
                let word = s.substring_char(start, i).to_owned();
                proof {
                    lemma_string_views_push(out@, word);
                    assert(cur.len() > 0);
                    assert(tokens_acc(rest, cur) == seq![cur] + tokens_acc(
                        rest.drop_first(),
                        Seq::empty(),
                    ));
                    assert(string_views(out@.push(word)) =~= string_views(out@) + seq![cur]);
                    assert(string_views(out@.push(word)) + tokens_acc(
                        s@.skip(i as int + 1),
                        Seq::<char>::empty(),
                    ) =~= string_views(out@) + tokens_acc(rest, cur));
                    assert(s@.subrange(i as int + 1, i as int + 1) =~= Seq::<char>::empty());
                }
                out.push(word);
            } else {
                proof {
                    assert(cur.len() == 0);
                    assert(tokens_acc(rest, cur) == tokens_acc(rest.drop_first(), Seq::empty()));
                    assert(s@.subrange(i as int + 1, i as int + 1) =~= Seq::<char>::empty());
                    assert(cur =~= Seq::<char>::empty());
                }
            }
            start = i + 1;
        } else {
            proof {
                assert(tokens_acc(rest, cur) == tokens_acc(rest.drop_first(), cur.push(rest[0])));
                assert(cur.push(s@[i as int]) =~= s@.subrange(start as int, i as int + 1));
            }
        }
        i = i + 1;
    }
    proof {
        assert(s@.skip(n as int) =~= Seq::<char>::empty());
    }
    if start < n {
        let word = s.substring_char(start, n).to_owned();
        proof {
            lemma_string_views_push(out@, word);
            let cur = s@.subrange(start as int, n as int);
            assert(tokens_acc(Seq::<char>::empty(), cur) =~= seq![cur]);
            assert(string_views(out@.push(word)) =~= string_views(out@) + seq![cur]);
        }
        out.push(word);
    } else {
        proof {
            let cur = s@.subrange(start as int, n as int);
            assert(cur.len() == 0);
            assert(tokens_acc(Seq::<char>::empty(), cur) =~= Seq::<Seq<char>>::empty());
            assert(string_views(out@) =~= string_views(out@) + Seq::<Seq<char>>::empty());
        }
    }
    out
}

/// The number of non-overlapping blank-line separators (two consecutive
/// newlines), scanning from the left.
pub open spec fn stanza_breaks(s: Seq<char>) -> nat
    decreases s.len(),
{
    if s.len() < 2 {
        0
    } else if s[0] == '\n' && s[1] == '\n' {
        1 + stanza_breaks(s.skip(2))
    } else {
        stanza_breaks(s.drop_first())
    }
}

/// The number of stanzas of a text: one more than the number of
/// blank-line separators, so a text without a blank line has one stanza.
pub open spec fn stanza_count(s: Seq<char>) -> nat {
    1 + stanza_breaks(s)
}

/// Counts the stanzas of a text.
fn count_stanzas(s: &str) -> (r: usize)
    ensures
        r as nat == stanza_count(s@),
{
    let cs = char_vec(s);
    let n = cs.len();
    let mut breaks: usize = 0;
    let mut i: usize = 0;
    proof {
        assert(s@.skip(0) =~= s@);
    }
    while i < n
        invariant
            cs@ == s@,
            n == s@.len(),
            i <= n,
            2 * breaks <= i,
            stanza_breaks(s@) == breaks + stanza_breaks(s@.skip(i as int)),
        decreases n - i,
    {
        let ghost rest = s@.skip(i as int);
        proof {
            assert(rest[0] == s@[i as int]);
            assert(rest.drop_first() =~= s@.skip(i as int + 1));
        }
        if cs[i] == '\n' && i + 1 < n && cs[i + 1] == '\n' {
            proof {
                assert(rest[1] == s@[i as int + 1]);
                assert(rest.skip(2) =~= s@.skip(i as int + 2));
                assert(stanza_breaks(rest) == 1 + stanza_breaks(rest.skip(2)));
            }
            breaks = breaks + 1;
            i = i + 2;
        } else {
            proof {
                if rest.len() >= 2 {
                    assert(rest[1] == s@[i as int + 1]);
                    assert(stanza_breaks(rest) == stanza_breaks(rest.drop_first()));
                } else {
                    assert(stanza_breaks(rest) == 0);
                    assert(s@.skip(i as int + 1).len() < 2);
                }
            }
            i = i + 1;
        }
    }
    proof {
        assert(stanza_breaks(s@.skip(n as int)) == 0);
    }
    breaks + 1
}

/// Computes the four structural counts of a text in one pass each: the
/// newline-delimited line count, the whitespace-delimited word count, the
/// count of Unicode scalar values, and the stanza count.
pub fn analyze_structure(contents: &str) -> (r: StructuralAnalysisResults)
    ensures
        r.lines as nat == lines_of(contents@).len(),
        r.words as nat == tokens_of(contents@).len(),
        r.characters as nat == contents@.len(),
        r.stanzas as nat == stanza_count(contents@),
{
    let lines = split_lines(contents);
    let words = split_words(contents);
    StructuralAnalysisResults {
        lines: lines.len(),
        words: words.len(),
        characters: contents.unicode_len(),
        stanzas: count_stanzas(contents),
    }
}

/// The Unicode lowercase form of a character sequence.  The form itself is
/// defined by the Unicode tables, not restated here; contracts relate
/// results through this name.
pub uninterp spec fn lower_of(s: Seq<char>) -> Seq<char>;

/// Relies on `str::to_lowercase`: returns the Unicode lowercase form of the
/// input, a function of the input characters alone.
#[verifier::external_body]
fn to_lowercase_str(s: &str) -> (r: String)
    ensures
        r@ == lower_of(s@),
{
    s.to_lowercase()
}

/// Whether a character counts as alphanumeric (a letter or digit in the
/// Unicode sense).  Defined by the Unicode tables, not restated here.
pub uninterp spec fn is_alnum(c: char) -> bool;

/// Relies on `char::is_alphanumeric`: whether a character is a Unicode
/// letter or digit, a function of the character alone.
#[verifier::external_body]
fn is_alnum_char(c: char) -> (r: bool)
    ensures
        r == is_alnum(c),
{
    c.is_alphanumeric()
}

/// Relies on `String::push`: appends one character at the end.
#[verifier::external_body]
pub(crate) fn push_char(s: &mut String, c: char)
    ensures
        final(s)@ == old(s)@.push(c),
{
    s.push(c);
}

/// The subsequence of alphanumeric characters of `s`, in order.
pub open spec fn keep_alnum(s: Seq<char>) -> Seq<char>
    decreases s.len(),
{
    if s.len() == 0 {
        Seq::empty()
    } else {
        keep_alnum(s.drop_last()) + if is_alnum(s.last()) {
            seq![s.last()]
        } else {
            Seq::empty()
        }
    }
}

/// A token as it is counted: lowercased, then stripped of every character
/// that is not alphanumeric.
pub open spec fn cleaned(w: Seq<char>) -> Seq<char> {
    keep_alnum(lower_of(w))
}

/// Lowercases a token and strips its non-alphanumeric characters.
fn clean_token(w: &str) -> (r: String)
    ensures
        r@ == cleaned(w@),
{
    let lw = to_lowercase_str(w);
    let cs = char_vec(lw.as_str());
    let n = cs.len();
    let mut out = String::new();
    let mut i: usize = 0;
    proof {
        assert(cs@.take(0) =~= Seq::<char>::empty());
    }
    while i < n
        invariant
            cs@ == lower_of(w@),
            n == cs@.len(),
            i <= n,
            out@ == keep_alnum(cs@.take(i as int)),
        decreases n - i,
    {
        proof {
            assert(cs@.take(i as int + 1).drop_last() =~= cs@.take(i as int));
            assert(cs@.take(i as int + 1).last() == cs@[i as int]);
        }
        let c = cs[i];
        if is_alnum_char(c) {
            push_char(&mut out, c);
            proof {
                assert(out@ =~= keep_alnum(cs@.take(i as int)) + seq![cs@[i as int]]);
            }
        } else {
            proof {
                assert(out@ =~= keep_alnum(cs@.take(i as int)) + Seq::<char>::empty());
            }
        }
        i = i + 1;
    }
    proof {
        assert(cs@.take(n as int) =~= cs@);
    }
    out
}

/// The cleaned forms of the given tokens, in order, with tokens that clean
/// to nothing discarded.
pub open spec fn cleaned_words_of(ts: Seq<Seq<char>>) -> Seq<Seq<char>>
    decreases ts.len(),
{
    if ts.len() == 0 {
        Seq::empty()
    } else {
        cleaned_words_of(ts.drop_last()) + if cleaned(ts.last()).len() > 0 {
            seq![cleaned(ts.last())]
        } else {
            Seq::empty()
        }
    }
}

/// The cleaned, non-empty words of a text, in order of occurrence.
pub open spec fn cleaned_words(s: Seq<char>) -> Seq<Seq<char>> {
    cleaned_words_of(tokens_of(s))
}

/// Splits a text into words and cleans each, dropping words that clean to
/// nothing.
fn clean_words(s: &str) -> (r: Vec<String>)
    ensures
        string_views(r@) == cleaned_words(s@),
{
    let words = split_words(s);
    let ghost ts = tokens_of(s@);
    let n = words.len();
    let mut out: Vec<String> = Vec::new();
    let mut i: usize = 0;
    proof {
        assert(ts.take(0) =~= Seq::<Seq<char>>::empty());
    }
    while i < n
        invariant
            n == words@.len(),
            string_views(words@) == ts,
            ts == tokens_of(s@),
            i <= n,
            string_views(out@) == cleaned_words_of(ts.take(i as int)),
        decreases n - i,
    {
        proof {
            assert(ts.take(i as int + 1).drop_last() =~= ts.take(i as int));
            assert(words@[i as int]@ == ts[i as int]);
        }
        let cw = clean_token(words[i].as_str());
        if !cw.as_str().is_empty() {
            proof {
                lemma_string_views_push(out@, cw);
                assert(string_views(out@).push(cw@) =~= string_views(out@) + seq![cw@]);
            }
            out.push(cw);
        } else {
            proof {
                assert(string_views(out@) =~= string_views(out@)
                    + Seq::<Seq<char>>::empty());
            }
        }
        i = i + 1;
    }
    proof {
        assert(ts.take(n as int) =~= ts);
    }
    out
}

/// The view of each keyword entry in a sequence of entries.
pub open spec fn entry_views(v: Seq<(String, usize)>) -> Seq<(Seq<char>, nat)> {
    v.map(|i: int, e: (String, usize)| (e.0@, e.1 as nat))
}

/// How many members of `ws` equal `w`.
pub open spec fn count_in(ws: Seq<Seq<char>>, w: Seq<char>) -> nat
    decreases ws.len(),
{
    if ws.len() == 0 {
        0
    } else {
        count_in(ws.drop_last(), w) + if ws.last() == w {
            1nat
        } else {
            0nat
        }
    }
}

/// The distinct members of `ws`, each at its first occurrence, in order.
pub open spec fn firsts(ws: Seq<Seq<char>>) -> Seq<Seq<char>>
    decreases ws.len(),
{
    if ws.len() == 0 {
        Seq::empty()
    } else {
        let f = firsts(ws.drop_last());
        if f.contains(ws.last()) {
            f
        } else {
            f.push(ws.last())
        }
    }
}

/// The frequency table of `ws`: each distinct member, in first-occurrence
/// order, paired with how often it occurs.
pub open spec fn counts_of(ws: Seq<Seq<char>>) -> Seq<(Seq<char>, nat)> {
    firsts(ws).map(|i: int, w: Seq<char>| (w, count_in(ws, w)))
}

proof fn lemma_count_in_le(ws: Seq<Seq<char>>, w: Seq<char>)
    ensures
        count_in(ws, w) <= ws.len(),
    decreases ws.len(),
{
    if ws.len() > 0 {
        lemma_count_in_le(ws.drop_last(), w);
    }
}

proof fn lemma_firsts_distinct(ws: Seq<Seq<char>>)
    ensures
        forall|a: int, b: int|
            0 <= a < b < firsts(ws).len() ==> firsts(ws)[a] != firsts(ws)[b],
    decreases ws.len(),
{
    if ws.len() > 0 {
        lemma_firsts_distinct(ws.drop_last());
        let f = firsts(ws.drop_last());
        if !f.contains(ws.last()) {
            assert forall|a: int, b: int|
                0 <= a < b < firsts(ws).len() implies firsts(ws)[a] != firsts(ws)[b] by {
                if b == f.len() {
                    assert(f[a] == firsts(ws)[a]);
                }
            }
        }
    }
}

/// Counts how often each distinct word occurs, keeping first-occurrence
/// order.
fn count_words(cws: &Vec<String>) -> (r: Vec<(String, usize)>)
    ensures
        entry_views(r@) == counts_of(string_views(cws@)),
{
    let ghost ws = string_views(cws@);
    let n = cws.len();
    let mut counts: Vec<(String, usize)> = Vec::new();
    let mut i: usize = 0;
    proof {
        assert(ws.take(0) =~= Seq::<Seq<char>>::empty());
        assert(entry_views(counts@) =~= counts_of(ws.take(0)));
    }
    while i < n
        invariant
            n == cws@.len(),
            string_views(cws@) == ws,
            i <= n,
            entry_views(counts@) == counts_of(ws.take(i as int)),
        decreases n - i,
    {
        let ghost pre = ws.take(i as int);
        let ghost post = ws.take(i as int + 1);
        proof {
            assert(post.drop_last() =~= pre);
            assert(cws@[i as int]@ == ws[i as int]);
            assert(post.last() == ws[i as int]);
            lemma_firsts_distinct(pre);
        }
        let w = &cws[i];
        let m = counts.len();
        let mut j: usize = 0;
        let mut found = false;
        while j < m
            invariant_except_break
                m == counts@.len(),
                j <= m,
                !found,
                forall|k: int| 0 <= k < j ==> counts@[k].0@ != w@,
            ensures
                m == counts@.len(),
                found ==> j < m && counts@[j as int].0@ == w@,
                !found ==> forall|k: int| 0 <= k < m ==> counts@[k].0@ != w@,
            decreases m - j,
        {
            if counts[j].0.eq(w) {
                found = true;
                break ;
            }
            j = j + 1;
        }
        proof {
            assert(forall|k: int|
                0 <= k < counts@.len() ==> entry_views(counts@)[k].0 == counts@[k].0@);
        }
        if found {
            proof {
                assert(counts@[j as int].0@ == w@);
                assert(entry_views(counts@).len() == counts@.len());
                assert(counts_of(pre).len() == firsts(pre).len());
                assert(entry_views(counts@)[j as int] == counts_of(pre)[j as int]);
                assert(counts_of(pre)[j as int] == (
                    firsts(pre)[j as int],
                    count_in(pre, firsts(pre)[j as int]),
                ));
                assert(entry_views(counts@)[j as int].0 == counts@[j as int].0@);
                assert(firsts(pre)[j as int] == w@);
                assert(firsts(pre).contains(ws[i as int]));
                assert(firsts(post) == firsts(pre));
                assert(counts@[j as int].1 as nat == count_in(pre, w@));
                lemma_count_in_le(pre, w@);
            }
            let prev = counts[j].1;
            let key = counts[j].0.clone();
            let ghost before = counts@;
            counts[j] = (key, prev + 1);
            proof {
                assert(counts@.len() == before.len());
                assert(counts_of(post).len() == firsts(post).len());
                assert(firsts(pre).len() == counts@.len());
                assert forall|k: int|
                    0 <= k < counts@.len() implies entry_views(counts@)[k] == counts_of(post)[k] by {
                    assert(counts_of(post)[k] == (firsts(post)[k], count_in(post, firsts(post)[k])));
                    assert(post.drop_last() == pre && post.last() == ws[i as int]);
                    assert(count_in(post, firsts(post)[k]) == count_in(pre, firsts(post)[k]) + if firsts(post)[k] == ws[i as int] {
                        1nat
                    } else {
                        0nat
                    });
                    assert(counts_of(pre)[k] == (firsts(pre)[k], count_in(pre, firsts(pre)[k])));
                    assert(entry_views(before)[k] == counts_of(pre)[k]);
                    if k != j {
                        assert(firsts(post)[k] != firsts(post)[j as int]);
                        assert(counts@[k] == before[k]);
                        assert(entry_views(counts@)[k] == entry_views(before)[k]);
                    } else {
                        assert(counts@[k].0@ == w@ && counts@[k].1 == prev + 1);
                        assert(entry_views(counts@)[k] == (w@, (prev + 1) as nat));
                    }
                }
                assert(entry_views(counts@) =~= counts_of(post));
            }
        } else {
            proof {
                assert(entry_views(counts@).len() == counts@.len());
                assert(counts_of(pre).len() == firsts(pre).len());
                assert(firsts(pre).len() == counts@.len());
                assert forall|k: int| 0 <= k < firsts(pre).len() implies firsts(pre)[k] != w@ by {
                    assert(counts_of(pre)[k] == (firsts(pre)[k], count_in(pre, firsts(pre)[k])));
                    assert(entry_views(counts@)[k] == counts_of(pre)[k]);
                    assert(entry_views(counts@)[k].0 == counts@[k].0@);
                    assert(counts@[k].0@ != w@);
                }
                assert(!firsts(pre).contains(ws[i as int]));
                assert(firsts(post) == firsts(pre).push(ws[i as int]));
                assert(count_in(pre, w@) == 0) by {
                    lemma_count_zero_outside_firsts(pre, w@);
                }
            }
            let ghost before = counts@;
            counts.push((w.clone(), 1));
            proof {
                assert(counts@.len() == before.len() + 1);
                assert(counts_of(post).len() == firsts(post).len());
                assert(firsts(post).len() == firsts(pre).len() + 1);
                assert(firsts(pre).len() == before.len());
                assert forall|k: int|
                    0 <= k < counts@.len() implies entry_views(counts@)[k] == counts_of(post)[k] by {
                    assert(counts_of(post)[k] == (firsts(post)[k], count_in(post, firsts(post)[k])));
                    assert(post.drop_last() == pre && post.last() == ws[i as int]);
                    assert(count_in(post, firsts(post)[k]) == count_in(pre, firsts(post)[k]) + if firsts(post)[k] == ws[i as int] {
                        1nat
                    } else {
                        0nat
                    });
                    if k < counts@.len() - 1 {
                        assert(firsts(post)[k] == firsts(pre)[k]);
                        assert(firsts(pre)[k] != w@);
                        assert(counts@[k] == before[k]);
                        assert(entry_views(counts@)[k] == entry_views(before)[k]);
                        assert(counts_of(pre)[k] == (firsts(pre)[k], count_in(pre, firsts(pre)[k])));
                        assert(entry_views(before)[k] == counts_of(pre)[k]);
                    } else {
                        assert(firsts(post)[k] == ws[i as int]);
                        assert(counts@[k].0@ == w@ && counts@[k].1 == 1);
                        assert(entry_views(counts@)[k] == (w@, 1nat));
                    }
                }
                assert(entry_views(counts@) =~= counts_of(post));
            }
        }
        i = i + 1;
    }
    proof {
        assert(ws.take(n as int) =~= ws);
    }
    counts
}

proof fn lemma_count_zero_outside_firsts(ws: Seq<Seq<char>>, w: Seq<char>)
    requires
        !firsts(ws).contains(w),
    ensures
        count_in(ws, w) == 0,
    decreases ws.len(),
{
    if ws.len() > 0 {
        let f = firsts(ws.drop_last());
        if f.contains(ws.last()) {
            assert(ws.last() != w);
        } else {
            assert(firsts(ws) == f.push(ws.last()));
            assert(firsts(ws)[firsts(ws).len() - 1] == ws.last());
            assert(firsts(ws).contains(ws.last()));
            assert(ws.last() != w);
        }
        assert forall|k: int| 0 <= k < f.len() implies f[k] != w by {
            if f.contains(ws.last()) {
                assert(firsts(ws)[k] == f[k]);
                assert(firsts(ws).contains(f[k]));
            } else {
                assert(firsts(ws)[k] == f[k]);
                assert(firsts(ws).contains(f[k]));
            }
        }
        assert(!f.contains(w));
        lemma_count_zero_outside_firsts(ws.drop_last(), w);
    }
}

/// The entries are ordered by weakly decreasing frequency.
pub open spec fn sorted_desc(s: Seq<(Seq<char>, nat)>) -> bool {
    forall|a: int, b: int| 0 <= a <= b < s.len() ==> s[a].1 >= s[b].1
}

/// Inserts `e` behind every entry whose frequency is at least `e`'s, so
/// that entries of equal frequency keep their relative order.
pub open spec fn insert_desc(s: Seq<(Seq<char>, nat)>, e: (Seq<char>, nat)) -> Seq<
    (Seq<char>, nat),
>
    decreases s.len(),
{
    if s.len() == 0 {
        seq![e]
    } else if s[0].1 >= e.1 {
        seq![s[0]] + insert_desc(s.drop_first(), e)
    } else {
        seq![e] + s
    }
}

/// Stable insertion sort by frequency, descending: entries with equal
/// frequency keep their first-occurrence order.
pub open spec fn sort_desc(s: Seq<(Seq<char>, nat)>) -> Seq<(Seq<char>, nat)>
    decreases s.len(),
{
    if s.len() == 0 {
        Seq::empty()
    } else {
        insert_desc(sort_desc(s.drop_last()), s.last())
    }
}

proof fn lemma_insert_desc_split(s: Seq<(Seq<char>, nat)>, e: (Seq<char>, nat), p: int)
    requires
        0 <= p <= s.len(),
        forall|k: int| 0 <= k < p ==> s[k].1 >= e.1,
        p < s.len() ==> s[p].1 < e.1,
    ensures
        insert_desc(s, e) == s.take(p) + seq![e] + s.skip(p),
    decreases p,
{
    if p == 0 {
        if s.len() == 0 {
            assert(insert_desc(s, e) =~= s.take(0) + seq![e] + s.skip(0));
        } else {
            assert(s[0].1 < e.1);
            assert(insert_desc(s, e) =~= s.take(0) + seq![e] + s.skip(0));
        }
    } else {
        assert(s[0].1 >= e.1);
        let d = s.drop_first();
        assert(forall|k: int| 0 <= k < p - 1 ==> d[k] == s[k + 1]);
        lemma_insert_desc_split(d, e, p - 1);
        assert(insert_desc(s, e) == seq![s[0]] + (d.take(p - 1) + seq![e] + d.skip(p - 1)));
        assert(insert_desc(s, e) =~= s.take(p) + seq![e] + s.skip(p));
    }
}

/// Sorts keyword entries by frequency, descending, keeping the relative
/// order of entries with equal frequency.
fn sort_entries(entries: Vec<(String, usize)>) -> (r: Vec<(String, usize)>)
    ensures
        entry_views(r@) == sort_desc(entry_views(entries@)),
{
    let ghost ev = entry_views(entries@);
    let n = entries.len();
    let mut out: Vec<(String, usize)> = Vec::new();
    let mut i: usize = 0;
    proof {
        assert(ev.take(0) =~= Seq::<(Seq<char>, nat)>::empty());
        assert(entry_views(out@) =~= sort_desc(ev.take(0)));
    }
    while i < n
        invariant
            n == entries@.len(),
            entry_views(entries@) == ev,
            i <= n,
            entry_views(out@) == sort_desc(ev.take(i as int)),
        decreases n - i,
    {
        let freq = entries[i].1;
        let m = out.len();
        let mut p: usize = 0;
        while p < m && out[p].1 >= freq
            invariant
                m == out@.len(),
                p <= m,
                forall|k: int| 0 <= k < p ==> out@[k].1 >= freq,
            decreases m - p,
        {
            p = p + 1;
        }
        let ghost so = entry_views(out@);
        let ghost e = ev[i as int];
        proof {
            assert(entries@[i as int].0@ == e.0 && entries@[i as int].1 as nat == e.1);
            assert(so.len() == out@.len());
            assert(forall|k: int|
                0 <= k < so.len() ==> so[k] == (out@[k].0@, out@[k].1 as nat));
            assert(forall|k: int| 0 <= k < p ==> so[k].1 >= e.1);
            assert(p < so.len() ==> so[p as int].1 < e.1);
            lemma_insert_desc_split(so, e, p as int);
            assert(ev.take(i as int + 1).drop_last() =~= ev.take(i as int));
            assert(ev.take(i as int + 1).last() == e);
            assert(sort_desc(ev.take(i as int + 1)) == insert_desc(so, e));
        }
        let key = entries[i].0.clone();
        let ghost before = out@;
        out.insert(p, (key, freq));
        proof {
            before.insert_ensures(p as int, (key, freq));
            assert(out@ == before.insert(p as int, (key, freq)));
            assert forall|k: int|
                0 <= k < out@.len() implies entry_views(out@)[k] == (so.take(p as int) + seq![e]
                + so.skip(p as int))[k] by {
                if k < p {
                    assert(out@[k] == before[k]);
                } else if k == p {
                    assert(out@[k] == (key, freq));
                } else {
                    assert(out@[k] == before[k - 1]);
                }
            }
            assert(entry_views(out@) =~= so.take(p as int) + seq![e] + so.skip(p as int));
        }
        i = i + 1;
    }
    proof {
        assert(ev.take(n as int) =~= ev);
    }
    out
}

/// The frequency table of the cleaned words of a text, in first-occurrence
/// order.
pub open spec fn keyword_counts(s: Seq<char>) -> Seq<(Seq<char>, nat)> {
    counts_of(cleaned_words(s))
}

/// The keyword list of a text: its frequency table sorted by weakly
/// decreasing frequency (ties in first-occurrence order), cut to the
/// `top_n` most frequent entries.
pub open spec fn keywords_of(s: Seq<char>, top_n: int) -> Seq<(Seq<char>, nat)> {
    let sorted = sort_desc(keyword_counts(s));
    if top_n <= sorted.len() {
        sorted.take(top_n)
    } else {
        sorted
    }
}

proof fn lemma_insert_desc_sorted(s: Seq<(Seq<char>, nat)>, e: (Seq<char>, nat))
    requires
        sorted_desc(s),
    ensures
        sorted_desc(insert_desc(s, e)),
    decreases s.len(),
{
    if s.len() == 0 {
    } else if s[0].1 >= e.1 {
        let d = s.drop_first();
        assert(forall|k: int| 0 <= k < d.len() ==> d[k] == s[k + 1]);
        lemma_insert_desc_sorted(d, e);
        let r = insert_desc(s, e);
        assert(r == seq![s[0]] + insert_desc(d, e));
        assert forall|a: int, b: int| 0 <= a <= b < r.len() implies r[a].1 >= r[b].1 by {
            if a == 0 && b > 0 {
                assert(r[b] == insert_desc(d, e)[b - 1]);
                lemma_insert_desc_members(d, e, b - 1);
            }
        }
    } else {
        let r = insert_desc(s, e);
        assert(r == seq![e] + s);
        assert forall|a: int, b: int| 0 <= a <= b < r.len() implies r[a].1 >= r[b].1 by {
            if a == 0 && b > 0 {
                assert(r[b] == s[b - 1]);
                assert(s[0].1 >= s[b - 1].1);
            }
        }
    }
}

proof fn lemma_insert_desc_members(s: Seq<(Seq<char>, nat)>, e: (Seq<char>, nat), k: int)
    requires
        0 <= k < insert_desc(s, e).len(),
    ensures
        insert_desc(s, e)[k] == e || exists|j: int| 0 <= j < s.len() && s[j] == insert_desc(s, e)[k],
    decreases s.len(),
{
    if s.len() == 0 {
    } else if s[0].1 >= e.1 {
        if k > 0 {
            lemma_insert_desc_members(s.drop_first(), e, k - 1);
            let r = insert_desc(s, e);
            assert(r[k] == insert_desc(s.drop_first(), e)[k - 1]);
            if r[k] != e {
                let j = choose|j: int|
                    0 <= j < s.drop_first().len() && s.drop_first()[j] == r[k];
                assert(s[j + 1] == r[k]);
            }
        }
    } else {
        if k > 0 {
            assert(insert_desc(s, e)[k] == s[k - 1]);
        }
    }
}

proof fn lemma_sort_desc_sorted(s: Seq<(Seq<char>, nat)>)
    ensures
        sorted_desc(sort_desc(s)),
    decreases s.len(),
{
    if s.len() > 0 {
        lemma_sort_desc_sorted(s.drop_last());
        lemma_insert_desc_sorted(sort_desc(s.drop_last()), s.last());
    }
}

/// Extracts the `top_n` most frequent keywords of a text.  Words are
/// counted case-insensitively with punctuation stripped; the result is
/// sorted by descending frequency, ties broken by first occurrence.
pub fn extract_keywords(contents: &str, top_n: usize) -> (r: Vec<(String, usize)>)
    ensures
        entry_views(r@) == keywords_of(contents@, top_n as int),
        sorted_desc(entry_views(r@)),
        r@.len() <= top_n,
{
    let cws = clean_words(contents);
    let counts = count_words(&cws);
    let mut sorted = sort_entries(counts);
    let ghost full = sort_desc(keyword_counts(contents@));
    proof {
        lemma_sort_desc_sorted(keyword_counts(contents@));
        assert(entry_views(sorted@) == full);
        assert(sorted@.len() == full.len());
    }
    if top_n < sorted.len() {
        let ghost before = sorted@;
        sorted.truncate(top_n);
        proof {
            assert(sorted@ =~= before.take(top_n as int));
            assert forall|k: int|
                0 <= k < sorted@.len() implies entry_views(sorted@)[k] == full.take(
                top_n as int,
            )[k] by {
                assert(sorted@[k] == before[k]);
                assert(entry_views(before)[k] == full[k]);
            }
            assert(entry_views(sorted@) =~= full.take(top_n as int));
            assert forall|a: int, b: int|
                0 <= a <= b < entry_views(sorted@).len() implies entry_views(sorted@)[a].1
                >= entry_views(sorted@)[b].1 by {
                assert(entry_views(sorted@)[a] == full[a]);
                assert(entry_views(sorted@)[b] == full[b]);
            }
        }
    }
    sorted
}

/// The members of `lines` that contain `q` as a substring, in order.
pub open spec fn filter_matching(lines: Seq<Seq<char>>, q: Seq<char>) -> Seq<Seq<char>>
    decreases lines.len(),
{
    if lines.len() == 0 {
        Seq::empty()
    } else {
        filter_matching(lines.drop_last(), q) + if contains_seq(lines.last(), q) {
            seq![lines.last()]
        } else {
            Seq::empty()
        }
    }
}

/// The lines of `t` that contain `q` as a substring, in original order.
pub open spec fn matching_lines(q: Seq<char>, t: Seq<char>) -> Seq<Seq<char>> {
    filter_matching(lines_of(t), q)
}

/// The members of `lines` whose lowercase form contains `q`, in order.
pub open spec fn filter_matching_ci(lines: Seq<Seq<char>>, q: Seq<char>) -> Seq<Seq<char>>
    decreases lines.len(),
{
    if lines.len() == 0 {
        Seq::empty()
    } else {
        filter_matching_ci(lines.drop_last(), q) + if contains_seq(lower_of(lines.last()), q) {
            seq![lines.last()]
        } else {
            Seq::empty()
        }
    }
}

/// The lines of `t` whose lowercase form contains the lowercase form of
/// `q`, in original order.
pub open spec fn ci_matching_lines(q: Seq<char>, t: Seq<char>) -> Seq<Seq<char>> {
    filter_matching_ci(lines_of(t), lower_of(q))
}

/// Returns every line of `contents` that contains `query` as a literal,
/// case-sensitive substring, in original order.  An empty query matches
/// every line.
pub fn search(query: &str, contents: &str) -> (r: Vec<String>)
    ensures
        string_views(r@) == matching_lines(query@, contents@),
{
    let lines = split_lines(contents);
    let ghost lv = lines_of(contents@);
    let n = lines.len();
    let mut out: Vec<String> = Vec::new();
    let mut i: usize = 0;
    proof {
        assert(lv.take(0) =~= Seq::<Seq<char>>::empty());
    }
    while i < n
        invariant
            n == lines@.len(),
            i <= n,
            string_views(lines@) == lv,
            lv == lines_of(contents@),
            string_views(out@) == filter_matching(lv.take(i as int), query@),
        decreases n - i,
    {
        proof {
            assert(lv.take(i as int + 1).drop_last() =~= lv.take(i as int));
            assert(lines@[i as int]@ == lv[i as int]);
        }
        let line = &lines[i];
        if contains_substr(line.as_str(), query) {
            proof {
                lemma_string_views_push(out@, *line);
                assert(string_views(out@).push(lv[i as int]) =~= string_views(out@) + seq![
                    lv[i as int],
                ]);
            }
            out.push(line.clone());
        } else {
            proof {
                assert(string_views(out@) =~= string_views(out@)
                    + Seq::<Seq<char>>::empty());
            }
        }
        i = i + 1;
    }
    proof {
        assert(lv.take(n as int) =~= lv);
    }
    out
}

/// Returns every line of `contents` whose lowercase form contains the
/// lowercase form of `query`, in original order.  The lines come back in
/// their original spelling.
pub fn search_case_insensitive(query: &str, contents: &str) -> (r: Vec<String>)
    ensures
        string_views(r@) == ci_matching_lines(query@, contents@),
{
    let query_lower = to_lowercase_str(query);
    let lines = split_lines(contents);
    let ghost lv = lines_of(contents@);
    let ghost lq = lower_of(query@);
    let n = lines.len();
    let mut out: Vec<String> = Vec::new();
    let mut i: usize = 0;
    proof {
        assert(lv.take(0) =~= Seq::<Seq<char>>::empty());
    }
    while i < n
        invariant
            n == lines@.len(),
            i <= n,
            string_views(lines@) == lv,
            lv == lines_of(contents@),
            query_lower@ == lq,
            lq == lower_of(query@),
            string_views(out@) == filter_matching_ci(lv.take(i as int), lq),
        decreases n - i,
    {
        proof {
            assert(lv.take(i as int + 1).drop_last() =~= lv.take(i as int));
            assert(lines@[i as int]@ == lv[i as int]);
        }
        let line = &lines[i];
        let line_lower = to_lowercase_str(line.as_str());
        if contains_substr(line_lower.as_str(), query_lower.as_str()) {
            proof {
                lemma_string_views_push(out@, *line);
                assert(string_views(out@).push(lv[i as int]) =~= string_views(out@) + seq![
                    lv[i as int],
                ]);
            }
            out.push(line.clone());
        } else {
            proof {
                assert(string_views(out@) =~= string_views(out@)
                    + Seq::<Seq<char>>::empty());
            }
        }
        i = i + 1;
    }
    proof {
        assert(lv.take(n as int) =~= lv);
    }
    out
}

/// Collects the characters of a string slice into a vector, so that loops
/// can address them by index.
fn char_vec(s: &str) -> (r: Vec<char>)
    ensures
        r@ == s@,
{
    let n = s.unicode_len();
    let mut r: Vec<char> = Vec::new();
    let mut i: usize = 0;
    while i < n
        invariant
            n == s@.len(),
            i <= n,
            r@ == s@.take(i as int),
        decreases n - i,
    {
        r.push(s.get_char(i));
        i = i + 1;
        proof {
            assert(r@ =~= s@.take(i as int));
        }
    }
    proof {
        assert(s@.take(n as int) =~= s@);
    }
    r
}

} // verus!
