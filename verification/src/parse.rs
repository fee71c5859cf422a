//! The textual boundary: parsing query-pattern text, filtering word
//! lists, and rendering patterns and signatures back to characters.
//!
//! Both inputs are newline-separated blocks of bytes.  Every line is
//! trimmed of surrounding ASCII whitespace.  For query patterns, blank
//! lines are skipped and each remaining line is parsed symbol by symbol
//! (case-insensitive alphabet `G`, `Y`, `X`, `?`, `*`); a line holding
//! any other byte yields an [`InvalidSymbol`] error for that line alone.
//! For word lists, lines are lower-cased and retained only when they
//! have the solution's length and are wholly ASCII alphabetic.

use vstd::prelude::*;
use vstd::string::StringExecFns;

use crate::expand::base_value;
use crate::expand::expand_spec;
use crate::expand::lemma_expand_all_base;
use crate::states::PatternState;
use crate::states::QueryPatternState;

verus! {

/// ASCII whitespace, as trimming understands it.
pub open spec fn is_space(b: u8) -> bool {
    b == 32 || b == 9 || b == 10 || b == 11 || b == 12 || b == 13
}

/// An ASCII letter.
pub open spec fn is_ascii_alpha(b: u8) -> bool {
    (65 <= b <= 90) || (97 <= b <= 122)
}

/// ASCII lower-casing of one byte.
pub open spec fn lower(b: u8) -> u8 {
    if 65 <= b <= 90 {
        (b + 32) as u8
    } else {
        b
    }
}

/// The query symbol a byte denotes, if any (case-insensitive).
pub open spec fn symbol_of_byte(b: u8) -> Option<QueryPatternState> {
    if b == 71 || b == 103 {  // 'G' or 'g'
        Some(QueryPatternState::Base(PatternState::Green))
    } else if b == 89 || b == 121 {  // 'Y' or 'y'
        Some(QueryPatternState::Base(PatternState::Yellow))
    } else if b == 88 || b == 120 {  // 'X' or 'x'
        Some(QueryPatternState::Base(PatternState::Grey))
    } else if b == 63 {  // '?'
        Some(QueryPatternState::AnyValid)
    } else if b == 42 {  // '*'
        Some(QueryPatternState::Any)
    } else {
        None
    }
}

/// A sequence with its leading whitespace removed.
pub open spec fn trim_front(s: Seq<u8>) -> Seq<u8>
    decreases s.len(),
{
    if s.len() > 0 && is_space(s.first()) {
        trim_front(s.drop_first())
    } else {
        s
    }
}

/// A sequence with its trailing whitespace removed.
pub open spec fn trim_back(s: Seq<u8>) -> Seq<u8>
    decreases s.len(),
{
    if s.len() > 0 && is_space(s.last()) {
        trim_back(s.drop_last())
    } else {
        s
    }
}

/// A sequence with surrounding whitespace removed.
pub open spec fn trim_spec(s: Seq<u8>) -> Seq<u8> {
    trim_back(trim_front(s))
}

/// The position of the first newline in `s`, or `-1` if there is none.
pub open spec fn find_nl(s: Seq<u8>) -> int
    decreases s.len(),
{
    if s.len() == 0 {
        -1
    } else if s.first() == 10 {
        0
    } else if find_nl(s.drop_first()) < 0 {
        -1
    } else {
        find_nl(s.drop_first()) + 1
    }
}

/// The lines of a byte block, split at newlines, each trimmed of
/// surrounding whitespace.  A trailing newline contributes a final
/// blank line, which every consumer of this function discards.
pub open spec fn trimmed_lines(s: Seq<u8>) -> Seq<Seq<u8>>
    decreases s.len(),
{
    let nl = find_nl(s);
    if 0 <= nl < s.len() {
        seq![trim_spec(s.take(nl))] + trimmed_lines(s.skip(nl + 1))
    } else {
        seq![trim_spec(s)]
    }
}

proof fn lemma_trim_front_chars(s: Seq<u8>, k: int)
    requires
        0 <= k <= s.len(),
        forall|i: int| 0 <= i < k ==> is_space(#[trigger] s[i]),
        k == s.len() || !is_space(s[k]),
    ensures
        trim_front(s) =~= s.skip(k),
    decreases k,
{
    if k == 0 {
        assert(s.skip(0) =~= s);
    } else {
        assert(is_space(s[0]));
        lemma_trim_front_chars(s.drop_first(), k - 1);
        assert(s.drop_first().skip(k - 1) =~= s.skip(k));
    }
}

proof fn lemma_trim_back_chars(s: Seq<u8>, h: int)
    requires
        0 <= h <= s.len(),
        forall|i: int| h <= i < s.len() ==> is_space(#[trigger] s[i]),
        h == 0 || !is_space(s[h - 1]),
    ensures
        trim_back(s) =~= s.take(h),
    decreases s.len(),
{
    if h == s.len() {
        if s.len() > 0 {
            assert(!is_space(s.last()));
        }
        assert(s.take(h) =~= s);
    } else {
        assert(is_space(s.last()));
        lemma_trim_back_chars(s.drop_last(), h);
        assert(s.drop_last().take(h) =~= s.take(h));
    }
}

proof fn lemma_find_nl_none(s: Seq<u8>)
    requires
        forall|i: int| 0 <= i < s.len() ==> s[i] != 10,
    ensures
        find_nl(s) == -1,
    decreases s.len(),
{
    if s.len() > 0 {
        lemma_find_nl_none(s.drop_first());
    }
}

proof fn lemma_find_nl_at(s: Seq<u8>, k: int)
    requires
        0 <= k < s.len(),
        s[k] == 10,
        forall|i: int| 0 <= i < k ==> s[i] != 10,
    ensures
        find_nl(s) == k,
    decreases k,
{
    if k > 0 {
        lemma_find_nl_at(s.drop_first(), k - 1);
    }
}

/// Whether a byte is ASCII whitespace.
fn is_space_byte(b: u8) -> (r: bool)
    ensures
        r == is_space(b),
{
    b == 32 || b == 9 || b == 10 || b == 11 || b == 12 || b == 13
}

/// Trims the segment `[start, end)` of `s` into a fresh vector.
fn trim_segment(s: &Vec<u8>, start: usize, end: usize) -> (t: Vec<u8>)
    requires
        start <= end <= s@.len(),
    ensures
        t@ == trim_spec(s@.subrange(start as int, end as int)),
{
    let ghost seg = s@.subrange(start as int, end as int);
    let mut lo = start;
    while lo < end && is_space_byte(s[lo])
        invariant
            start <= lo <= end,
            forall|i: int| start <= i < lo ==> is_space(#[trigger] s@[i]),
        decreases end - lo,
    {
        lo = lo + 1;
    }
    let mut hi = end;
    while hi > lo && is_space_byte(s[hi - 1])
        invariant
            lo <= hi <= end,
            forall|i: int| hi <= i < end ==> is_space(#[trigger] s@[i]),
        decreases hi - lo,
    {
        hi = hi - 1;
    }
    proof {
        lemma_trim_front_chars(seg, lo - start);
        lemma_trim_back_chars(seg.skip(lo - start), hi - lo);
        assert(seg.skip(lo - start).take(hi - lo) =~= s@.subrange(lo as int, hi as int));
    }
    let mut t: Vec<u8> = Vec::new();
    let mut i = lo;
    while i < hi
        invariant
            lo <= i <= hi,
            t@ =~= s@.subrange(lo as int, i as int),
        decreases hi - i,
    {
        t.push(s[i]);
        assert(t@ =~= s@.subrange(lo as int, i as int + 1));
        i = i + 1;
    }
    assert(t@ =~= trim_spec(seg));
    t
}

/// Splits a byte block into its lines, each trimmed of surrounding
/// whitespace.
pub fn split_trimmed_lines(text: &Vec<u8>) -> (lines: Vec<Vec<u8>>)
    ensures
        lines@.len() == trimmed_lines(text@).len(),
        forall|k: int|
            0 <= k < lines@.len() ==> (#[trigger] lines@[k])@ == trimmed_lines(text@)[k],
{
    let n = text.len();
    let mut lines: Vec<Vec<u8>> = Vec::new();
    let ghost total = trimmed_lines(text@);
    let mut pos: usize = 0;
    let mut done = false;
    assert(text@.skip(0) =~= text@);
    while !done
        invariant
            pos <= n,
            forall|k: int| 0 <= k < lines@.len() ==> (#[trigger] lines@[k])@ == total[k],
            !done ==> total =~= lines@.map_values(|v: Vec<u8>| v@) + trimmed_lines(
                text@.skip(pos as int),
            ),
            done ==> total =~= lines@.map_values(|v: Vec<u8>| v@),
        decreases (if done { 0int } else { 1int }), n - pos,
    {
        let ghost rem = text@.skip(pos as int);
        let mut end = pos;
        while end < n && text[end] != 10
            invariant
                pos <= end <= n,
                forall|i: int| pos <= i < end ==> #[trigger] text@[i] != 10,
            decreases n - end,
        {
            end = end + 1;
        }
        let t = trim_segment(text, pos, end);
        proof {
            assert(forall|i: int| 0 <= i < end - pos ==> #[trigger] rem[i] == text@[pos + i]);
            if end < n {
                lemma_find_nl_at(rem, end - pos);
                assert(rem.take(end - pos) =~= text@.subrange(pos as int, end as int));
                assert(rem.skip(end - pos + 1) =~= text@.skip(end as int + 1));
            } else {
                lemma_find_nl_none(rem);
                assert(rem =~= text@.subrange(pos as int, end as int));
            }
        }
        lines.push(t);
        proof {
            assert(lines@.map_values(|v: Vec<u8>| v@) =~= lines@.drop_last().map_values(
                |v: Vec<u8>| v@,
            ).push(t@));
        }
        if end < n {
            pos = end + 1;
        } else {
            done = true;
        }
    }
    lines
}

/// A byte outside the query alphabet, with where it stood in its
/// (trimmed) line.
#[derive(Clone, Copy, Debug, PartialEq, Eq, Structural)]
pub struct InvalidSymbol {
    /// Position of the offending byte within the trimmed line.
    pub index: usize,
    /// The offending byte itself.
    pub byte: u8,
}

/// The position of the first byte of `line` that denotes no query
/// symbol, or `-1` if every byte does.
pub open spec fn find_invalid(line: Seq<u8>) -> int
    decreases line.len(),
{
    if line.len() == 0 {
        -1
    } else if symbol_of_byte(line.first()) is None {
        0
    } else if find_invalid(line.drop_first()) < 0 {
        -1
    } else {
        find_invalid(line.drop_first()) + 1
    }
}

/// What parsing one trimmed, non-blank line yields: the symbol sequence,
/// or the first invalid byte.
pub open spec fn parse_line_spec(line: Seq<u8>) -> Result<Seq<QueryPatternState>, InvalidSymbol> {
    let bad = find_invalid(line);
    if 0 <= bad < line.len() {
        Err(InvalidSymbol { index: bad as usize, byte: line[bad] })
    } else {
        Ok(Seq::new(line.len(), |i: int| symbol_of_byte(line[i]).unwrap()))
    }
}

proof fn lemma_find_invalid_none(line: Seq<u8>)
    requires
        forall|i: int| 0 <= i < line.len() ==> symbol_of_byte(#[trigger] line[i]) is Some,
    ensures
        find_invalid(line) == -1,
    decreases line.len(),
{
    if line.len() > 0 {
        lemma_find_invalid_none(line.drop_first());
    }
}

proof fn lemma_find_invalid_at(line: Seq<u8>, k: int)
    requires
        0 <= k < line.len(),
        symbol_of_byte(line[k]) is None,
        forall|i: int| 0 <= i < k ==> symbol_of_byte(#[trigger] line[i]) is Some,
    ensures
        find_invalid(line) == k,
    decreases k,
{
    if k > 0 {
        lemma_find_invalid_at(line.drop_first(), k - 1);
    }
}

/// The mathematical content of an executable parse result.
pub open spec fn line_result_view(r: Result<Vec<QueryPatternState>, InvalidSymbol>) -> Result<
    Seq<QueryPatternState>,
    InvalidSymbol,
> {
    match r {
        Ok(v) => Ok(v@),
        Err(e) => Err(e),
    }
}

/// Parses one trimmed line into a query pattern, or reports the first
/// byte outside the recognized alphabet.
pub fn parse_query_line(line: &Vec<u8>) -> (r: Result<Vec<QueryPatternState>, InvalidSymbol>)
    ensures
        line_result_view(r) == parse_line_spec(line@),
{
    let mut out: Vec<QueryPatternState> = Vec::new();
    let mut i: usize = 0;
    while i < line.len()
        invariant
            i <= line@.len(),
            out@.len() == i,
            forall|j: int| 0 <= j < i ==> symbol_of_byte(#[trigger] line@[j]) is Some,
            forall|j: int| 0 <= j < i ==> out@[j] == symbol_of_byte(#[trigger] line@[j]).unwrap(),
        decreases line@.len() - i,
    {
        let b = line[i];
        let sym: QueryPatternState = if b == 71 || b == 103 {
            QueryPatternState::Base(PatternState::Green)
        } else if b == 89 || b == 121 {
            QueryPatternState::Base(PatternState::Yellow)
        } else if b == 88 || b == 120 {
            QueryPatternState::Base(PatternState::Grey)
        } else if b == 63 {
            QueryPatternState::AnyValid
        } else if b == 42 {
            QueryPatternState::Any
        } else {
            proof {
                lemma_find_invalid_at(line@, i as int);
            }
            return Err(InvalidSymbol { index: i, byte: b });
        };
        out.push(sym);
        i = i + 1;
    }
    proof {
        lemma_find_invalid_none(line@);
        assert(out@ =~= Seq::new(line@.len(), |j: int| symbol_of_byte(line@[j]).unwrap()));
    }
    Ok(out)
}

/// The parse results of a sequence of trimmed lines, blank lines
/// skipped.
pub open spec fn query_results_of_lines(lines: Seq<Seq<u8>>) -> Seq<
    Result<Seq<QueryPatternState>, InvalidSymbol>,
>
    decreases lines.len(),
{
    if lines.len() == 0 {
        Seq::empty()
    } else {
        (if lines.first().len() == 0 {
            Seq::empty()
        } else {
            seq![parse_line_spec(lines.first())]
        }) + query_results_of_lines(lines.drop_first())
    }
}

/// What parsing a whole query-pattern block yields, line by line.
pub open spec fn query_results_of(text: Seq<u8>) -> Seq<
    Result<Seq<QueryPatternState>, InvalidSymbol>,
> {
    query_results_of_lines(trimmed_lines(text))
}

proof fn lemma_query_results_step(lines: Seq<Seq<u8>>, k: int)
    requires
        0 <= k < lines.len(),
    ensures
        query_results_of_lines(lines.skip(k)) == (if lines[k].len() == 0 {
            Seq::empty()
        } else {
            seq![parse_line_spec(lines[k])]
        }) + query_results_of_lines(lines.skip(k + 1)),
{
    assert(lines.skip(k).first() == lines[k]);
    assert(lines.skip(k).drop_first() =~= lines.skip(k + 1));
}

/// Parses a query-pattern block: one entry per non-blank line, each
/// either the line's query pattern or the first invalid byte on it.  A
/// bad line never disturbs the entries of the other lines.
pub fn parse_query_pattern(pattern_str: &Vec<u8>) -> (r: Vec<
    Result<Vec<QueryPatternState>, InvalidSymbol>,
>)
    ensures
        r@.len() == query_results_of(pattern_str@).len(),
        forall|k: int|
            0 <= k < r@.len() ==> line_result_view(#[trigger] r@[k]) == query_results_of(
                pattern_str@,
            )[k],
{
    let lines = split_trimmed_lines(pattern_str);
    let ghost ls = trimmed_lines(pattern_str@);
    let ghost total = query_results_of_lines(ls);
    let mut r: Vec<Result<Vec<QueryPatternState>, InvalidSymbol>> = Vec::new();
    let mut k: usize = 0;
    assert(ls.skip(0) =~= ls);
    while k < lines.len()
        invariant
            k <= lines@.len(),
            forall|a: int| 0 <= a < r@.len() ==> line_result_view(#[trigger] r@[a]) == total[a],
            total =~= r@.map_values(|x: Result<Vec<QueryPatternState>, InvalidSymbol>|
                line_result_view(x)) + query_results_of_lines(ls.skip(k as int)),
        decreases lines@.len() - k,
    {
        proof {
            lemma_query_results_step(ls, k as int);
        }
        if lines[k].len() > 0 {
            let parsed = parse_query_line(&lines[k]);
            r.push(parsed);
            proof {
                let f = |x: Result<Vec<QueryPatternState>, InvalidSymbol>| line_result_view(x);
                assert(r@.map_values(f) =~= r@.drop_last().map_values(f).push(
                    line_result_view(parsed),
                ));
            }
        }
        k = k + 1;
    }
    proof {
        assert(query_results_of_lines(ls.skip(ls.len() as int)) =~= Seq::<
            Result<Seq<QueryPatternState>, InvalidSymbol>,
        >::empty());
    }
    r
}

/// A usable candidate word: the solution's length, all ASCII letters.
pub open spec fn keep_word(w: Seq<u8>, word_length: nat) -> bool {
    w.len() == word_length && forall|i: int| 0 <= i < w.len() ==> is_ascii_alpha(#[trigger] w[i])
}

/// A word lower-cased byte by byte.
pub open spec fn lower_seq(s: Seq<u8>) -> Seq<u8> {
    Seq::new(s.len(), |i: int| lower(s[i]))
}

/// The retained words of a sequence of trimmed lines: each lower-cased,
/// kept only when it has the requested length and is wholly alphabetic.
pub open spec fn wordlist_of_lines(lines: Seq<Seq<u8>>, word_length: nat) -> Seq<Seq<u8>>
    decreases lines.len(),
{
    if lines.len() == 0 {
        Seq::empty()
    } else {
        (if keep_word(lower_seq(lines.first()), word_length) {
            seq![lower_seq(lines.first())]
        } else {
            Seq::empty()
        }) + wordlist_of_lines(lines.drop_first(), word_length)
    }
}

/// The words a word-list block yields for a given word length.
pub open spec fn wordlist_of(text: Seq<u8>, word_length: nat) -> Seq<Seq<u8>> {
    wordlist_of_lines(trimmed_lines(text), word_length)
}

proof fn lemma_wordlist_step(lines: Seq<Seq<u8>>, word_length: nat, k: int)
    requires
        0 <= k < lines.len(),
    ensures
        wordlist_of_lines(lines.skip(k), word_length) == (if keep_word(
            lower_seq(lines[k]),
            word_length,
        ) {
            seq![lower_seq(lines[k])]
        } else {
            Seq::empty()
        }) + wordlist_of_lines(lines.skip(k + 1), word_length),
{
    assert(lines.skip(k).first() == lines[k]);
    assert(lines.skip(k).drop_first() =~= lines.skip(k + 1));
}

/// Every retained word has the requested length and is wholly ASCII
/// alphabetic.
pub proof fn lemma_wordlist_kept(lines: Seq<Seq<u8>>, word_length: nat)
    ensures
        forall|k: int|
            0 <= k < wordlist_of_lines(lines, word_length).len() ==> keep_word(
                #[trigger] wordlist_of_lines(lines, word_length)[k],
                word_length,
            ),
    decreases lines.len(),
{
    if lines.len() > 0 {
        lemma_wordlist_kept(lines.drop_first(), word_length);
        let c: Seq<Seq<u8>> = if keep_word(lower_seq(lines.first()), word_length) {
            seq![lower_seq(lines.first())]
        } else {
            Seq::empty()
        };
        let rest = wordlist_of_lines(lines.drop_first(), word_length);
        assert forall|k: int|
            0 <= k < wordlist_of_lines(lines, word_length).len() implies keep_word(
            wordlist_of_lines(lines, word_length)[k],
            word_length,
        ) by {
            if k < c.len() {
                assert(wordlist_of_lines(lines, word_length)[k] == c[0]);
            } else {
                assert(wordlist_of_lines(lines, word_length)[k] == rest[k - c.len()]);
            }
        }
    }
}

/// Lower-cases one trimmed line into a fresh vector.
fn lower_line(line: &Vec<u8>) -> (w: Vec<u8>)
    ensures
        w@ == lower_seq(line@),
{
    let mut w: Vec<u8> = Vec::new();
    let mut i: usize = 0;
    while i < line.len()
        invariant
            i <= line@.len(),
            w@.len() == i,
            forall|j: int| 0 <= j < i ==> w@[j] == lower(#[trigger] line@[j]),
        decreases line@.len() - i,
    {
        let b = line[i];
        if b >= 65 && b <= 90 {
            w.push(b + 32);
        } else {
            w.push(b);
        }
        i = i + 1;
    }
    assert(w@ =~= lower_seq(line@));
    w
}

/// Whether a lower-cased line is a usable candidate word.
fn check_word(w: &Vec<u8>, word_length: usize) -> (r: bool)
    ensures
        r == keep_word(w@, word_length as nat),
{
    if w.len() != word_length {
        return false;
    }
    let mut i: usize = 0;
    while i < w.len()
        invariant
            i <= w@.len(),
            forall|j: int| 0 <= j < i ==> is_ascii_alpha(#[trigger] w@[j]),
        decreases w@.len() - i,
    {
        let b = w[i];
        if !((b >= 65 && b <= 90) || (b >= 97 && b <= 122)) {
            return false;
        }
        i = i + 1;
    }
    true
}

/// Filters a word-list block: each line is trimmed and lower-cased, and
/// retained only when it has the requested length and consists of ASCII
/// letters alone.  Supply the solution's length to exclude every word
/// that could not share a signature length with it.
pub fn filter_wordlist(content: &Vec<u8>, word_length: usize) -> (words: Vec<Vec<u8>>)
    ensures
        words@.len() == wordlist_of(content@, word_length as nat).len(),
        forall|k: int|
            0 <= k < words@.len() ==> (#[trigger] words@[k])@ == wordlist_of(
                content@,
                word_length as nat,
            )[k],
{
    let lines = split_trimmed_lines(content);
    let ghost ls = trimmed_lines(content@);
    let ghost total = wordlist_of_lines(ls, word_length as nat);
    let mut words: Vec<Vec<u8>> = Vec::new();
    let mut k: usize = 0;
    assert(ls.skip(0) =~= ls);
    while k < lines.len()
        invariant
            k <= lines@.len(),
            forall|a: int| 0 <= a < words@.len() ==> (#[trigger] words@[a])@ == total[a],
            total =~= words@.map_values(|v: Vec<u8>| v@) + wordlist_of_lines(
                ls.skip(k as int),
                word_length as nat,
            ),
        decreases lines@.len() - k,
    {
        proof {
            lemma_wordlist_step(ls, word_length as nat, k as int);
        }
        let w = lower_line(&lines[k]);
        if check_word(&w, word_length) {
            words.push(w);
            proof {
                assert(words@.map_values(|v: Vec<u8>| v@) =~= words@.drop_last().map_values(
                    |v: Vec<u8>| v@,
                ).push(w@));
            }
        }
        k = k + 1;
    }
    proof {
        assert(wordlist_of_lines(ls.skip(ls.len() as int), word_length as nat) =~= Seq::<
            Seq<u8>,
        >::empty());
    }
    words
}

/// The canonical byte of a concrete feedback state.
pub open spec fn state_byte(p: PatternState) -> u8 {
    match p {
        PatternState::Green => 71,  // 'G'
        PatternState::Yellow => 89,  // 'Y'
        PatternState::Grey => 88,  // 'X'
    }
}

/// The canonical byte rendering of a signature.
pub open spec fn render_signature_spec(sig: Seq<PatternState>) -> Seq<u8> {
    Seq::new(sig.len(), |i: int| state_byte(sig[i]))
}

/// Renders a signature to its canonical character form, one byte per
/// position.
pub fn signature_to_bytes(sig: &Vec<PatternState>) -> (r: Vec<u8>)
    ensures
        r@ == render_signature_spec(sig@),
{
    let mut r: Vec<u8> = Vec::new();
    let mut i: usize = 0;
    while i < sig.len()
        invariant
            i <= sig@.len(),
            r@.len() == i,
            forall|j: int| 0 <= j < i ==> r@[j] == state_byte(#[trigger] sig@[j]),
        decreases sig@.len() - i,
    {
        match sig[i] {
            PatternState::Green => r.push(71),
            PatternState::Yellow => r.push(89),
            PatternState::Grey => r.push(88),
        }
        i = i + 1;
    }
    assert(r@ =~= render_signature_spec(sig@));
    r
}

/// The canonical character of a query symbol.
pub open spec fn symbol_char(q: QueryPatternState) -> char {
    match q {
        QueryPatternState::Base(PatternState::Green) => 'G',
        QueryPatternState::Base(PatternState::Yellow) => 'Y',
        QueryPatternState::Base(PatternState::Grey) => 'X',
        QueryPatternState::AnyValid => '?',
        QueryPatternState::Any => '*',
    }
}

/// Converts a query pattern into its canonical string rendering, one
/// character per symbol.
pub fn query_pattern_to_string(pattern: &Vec<QueryPatternState>) -> (s: String)
    ensures
        s@.len() == pattern@.len(),
        forall|i: int| 0 <= i < pattern@.len() ==> s@[i] == symbol_char(#[trigger] pattern@[i]),
{
    let mut s = String::new();
    let mut i: usize = 0;
    while i < pattern.len()
        invariant
            i <= pattern@.len(),
            s@.len() == i,
            forall|j: int| 0 <= j < i ==> s@[j] == symbol_char(#[trigger] pattern@[j]),
        decreases pattern@.len() - i,
    {
        let lit: &str = match pattern[i] {
            QueryPatternState::Base(PatternState::Green) => "G",
            QueryPatternState::Base(PatternState::Yellow) => "Y",
            QueryPatternState::Base(PatternState::Grey) => "X",
            QueryPatternState::AnyValid => "?",
            QueryPatternState::Any => "*",
        };
        proof {
            reveal_strlit("G");
            reveal_strlit("Y");
            reveal_strlit("X");
            reveal_strlit("?");
            reveal_strlit("*");
            assert(lit@ =~= seq![symbol_char(pattern@[i as int])]);
        }
        s.append(lit);
        i = i + 1;
    }
    s
}

/// Round trip: rendering a signature to its character form and
/// re-parsing it yields a pattern of base symbols whose expansion is the
/// singleton collection holding exactly the original signature.
pub proof fn lemma_render_parse_round_trip(sig: Seq<PatternState>)
    ensures
        parse_line_spec(render_signature_spec(sig)) is Ok,
        expand_spec(parse_line_spec(render_signature_spec(sig)).unwrap()).len() == 1,
        expand_spec(parse_line_spec(render_signature_spec(sig)).unwrap())[0] == sig,
{
    let rendered = render_signature_spec(sig);
    assert forall|i: int|
        0 <= i < rendered.len() implies symbol_of_byte(#[trigger] rendered[i]) is Some by {
        assert(rendered[i] == state_byte(sig[i]));
    }
    lemma_find_invalid_none(rendered);
    let q = parse_line_spec(rendered).unwrap();
    assert forall|i: int| 0 <= i < q.len() implies #[trigger] q[i] is Base by {
        assert(q[i] == symbol_of_byte(state_byte(sig[i])).unwrap());
    }
    lemma_expand_all_base(q);
    assert(Seq::new(q.len(), |i: int| base_value(q[i])) =~= sig) by {
        assert forall|i: int| 0 <= i < q.len() implies base_value(q[i]) == sig[i] by {
            assert(q[i] == symbol_of_byte(state_byte(sig[i])).unwrap());
        }
    }
}

} // verus!
