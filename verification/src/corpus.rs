//! The corpus word list: reading the bundled `ngram,freq,cumshare` source
//! list, the filter it is held to, and the rank order of its words; which
//! words hold each pattern, and the order words are looked up by text in.
//! The frequency weights and pattern frequencies derived from the ranked
//! words are figured by the caller.

use vstd::prelude::*;

use crate::text::{texts_view, text_less, chars_less, lemma_text_order, lemma_text_less_transitive, str_equal, append, append_str, chars_of, decimal, debug_str, digit_char, decimal_chars, digit_value, is_digit, append_debug, string_of};

verus! {

/// Identifies the source list together with the rules in this file. Bump
/// whenever the list, the filter, or the frequency definitions change, so
/// stored sessions can tell which corpus they used.
pub const CORPUS_VERSION: u32 = 1;

/// The most words a corpus keeps: the most frequent survivors of the
/// filter.
pub const MAX_WORDS: usize = 10_000;

/// A source list that could not be read, with what was wrong with it.
#[derive(Debug, Clone, PartialEq, Eq)]
pub struct CorpusError(pub String);

/// A word's rank in the corpus (0 is the most frequent); stable for a
/// corpus version.
#[derive(Debug, Clone, Copy, PartialEq, Eq, Structural, PartialOrd, Ord, Hash)]
pub struct WordId(u16);

impl View for WordId {
    type V = nat;

    closed spec fn view(&self) -> nat {
        self.0 as nat
    }
}

impl WordId {
    /// The rank as an index into the corpus words.
    pub fn index(self) -> (r: usize)
        ensures
            r == self@,
    {
        self.0 as usize
    }

    /// The id of the word at a rank; ranks fit the corpus's word limit.
    pub fn from_index(index: usize) -> (r: WordId)
        requires
            index <= u16::MAX,
        ensures
            r@ == index,
    {
        WordId(index as u16)
    }
}

/// One word of the source list and how often it occurs.
#[derive(Debug, Clone, PartialEq, Eq)]
pub struct Record {
    pub word: String,
    pub count: u64,
}

/// What a record holds.
pub struct RecordView {
    pub word: Seq<char>,
    pub count: u64,
}

impl View for Record {
    type V = RecordView;

    open spec fn view(&self) -> RecordView {
        RecordView { word: self.word@, count: self.count }
    }
}

/// What some records hold.
pub open spec fn records_view(s: Seq<Record>) -> Seq<RecordView> {
    Seq::new(s.len(), |i: int| s[i]@)
}

// --- Lines and fields ---------------------------------------------------------------

/// The first index at or after `from` where `s` holds `c`.
pub open spec fn find_from(s: Seq<char>, c: char, from: int) -> Option<int>
    decreases s.len() - from,
{
    if from < 0 || from >= s.len() {
        None
    } else if s[from] == c {
        Some(from)
    } else {
        find_from(s, c, from + 1)
    }
}

/// A line without one trailing carriage return.
pub open spec fn strip_cr(line: Seq<char>) -> Seq<char> {
    if line.len() > 0 && line.last() == '\r' {
        line.drop_last()
    } else {
        line
    }
}

/// The lines of `s` from `start` on, as `str::lines` reads them: split at
/// each newline, a carriage return before it dropped, and no empty line
/// after a final newline.
pub open spec fn lines_from(s: Seq<char>, start: int) -> Seq<Seq<char>>
    decreases s.len() - start,
{
    if start < 0 || start >= s.len() {
        seq![]
    } else {
        proof {
            lemma_find_from(s, '\n', start);
        }
        match find_from(s, '\n', start) {
            Some(e) => seq![strip_cr(s.subrange(start, e))] + lines_from(s, e + 1),
            None => seq![s.subrange(start, s.len() as int)],
        }
    }
}

/// The lines of a text.
pub open spec fn lines_of(s: Seq<char>) -> Seq<Seq<char>> {
    lines_from(s, 0)
}

/// A found newline lies within the text and after `from`.
pub proof fn lemma_find_from(s: Seq<char>, c: char, from: int)
    requires
        0 <= from,
    ensures
        find_from(s, c, from) matches Some(e) ==> from <= e < s.len() && s[e] == c,
        find_from(s, c, from) is None ==> forall|k: int| from <= k < s.len() ==> s[k] != c,
    decreases s.len() - from,
{
    if 0 <= from < s.len() && s[from] != c {
        lemma_find_from(s, c, from + 1);
    }
}

/// The first index at or after `from` where the characters hold `c`.
fn find_char_from(s: &[char], c: char, from: usize) -> (r: Option<usize>)
    requires
        from <= s@.len(),
    ensures
        match r {
            Some(e) => find_from(s@, c, from as int) == Some(e as int),
            None => find_from(s@, c, from as int) is None,
        },
{
    let mut k = from;
    while k < s.len()
        invariant
            from <= k <= s@.len(),
            find_from(s@, c, from as int) == find_from(s@, c, k as int),
        decreases s@.len() - k,
    {
        if s[k] == c {
            return Some(k);
        }
        k += 1;
    }
    None
}

/// The lines of a text, as characters.
pub fn split_lines(s: &[char]) -> (r: Vec<Vec<char>>)
    ensures
        r@.len() == lines_of(s@).len(),
        forall|i: int| 0 <= i < r@.len() ==> (#[trigger] r@[i])@ == lines_of(s@)[i],
{
    let mut out: Vec<Vec<char>> = Vec::new();
    let mut start: usize = 0;
    while start < s.len()
        invariant
            start <= s@.len(),
            ({
                let done = out@.len();
                &&& lines_of(s@).len() == done + lines_from(s@, start as int).len()
                &&& forall|i: int| 0 <= i < done ==> (#[trigger] out@[i])@ == lines_of(s@)[i]
                &&& forall|i: int|
                    0 <= i < lines_from(s@, start as int).len() ==> lines_of(s@)[done + i] == #[trigger] lines_from(
                        s@,
                        start as int,
                    )[i]
            }),
        decreases s@.len() - start,
    {
        let ghost rest = lines_from(s@, start as int);
        match find_char_from(s, '\n', start) {
            Some(e) => {
                proof {
                    lemma_find_from(s@, '\n', start as int);
                }
                let mut end = e;
                if end > start && s[end - 1] == '\r' {
                    end = end - 1;
                }
                let line = crate::text::sub_chars(s, start, end);
                assert(line@ == strip_cr(s@.subrange(start as int, e as int)));
                out.push(line);
                start = e + 1;
                proof {
                    assert(rest == seq![line@] + lines_from(s@, start as int));
                    assert forall|i: int| 0 <= i < out@.len() implies (#[trigger] out@[i])@ == lines_of(s@)[i] by {
                        if i == out@.len() - 1 {
                            assert(rest[0] == line@);
                        }
                    }
                    assert forall|i: int|
                        0 <= i < lines_from(s@, start as int).len() implies lines_of(s@)[out@.len() + i]
                        == #[trigger] lines_from(s@, start as int)[i] by {
                        assert(rest[i + 1] == lines_from(s@, start as int)[i]);
                    }
                }
            },
            None => {
                let line = crate::text::sub_chars(s, start, s.len());
                out.push(line);
                proof {
                    assert(rest == seq![line@]);
                    assert(lines_from(s@, s@.len() as int) =~= Seq::<Seq<char>>::empty());
                    assert forall|i: int| 0 <= i < out@.len() implies (#[trigger] out@[i])@ == lines_of(s@)[i] by {
                        if i == out@.len() - 1 {
                            assert(rest[0] == line@);
                        }
                    }
                }
                start = s.len();
            },
        }
    }
    out
}

/// The three fields of a line, if it has exactly three.
pub open spec fn three_fields(line: Seq<char>) -> Option<(Seq<char>, Seq<char>, Seq<char>)> {
    match find_from(line, ',', 0) {
        Some(a) => match find_from(line, ',', a + 1) {
            Some(b) => if find_from(line, ',', b + 1) is None {
                Some(
                    (line.subrange(0, a), line.subrange(a + 1, b), line.subrange(b + 1, line.len() as int)),
                )
            } else {
                None
            },
            None => None,
        },
        None => None,
    }
}

// --- Counts -------------------------------------------------------------------------

/// Why a count did not read as a number, as `u64::from_str` reports it.
#[derive(Debug, Clone, Copy, PartialEq, Eq, Structural)]
pub enum CountProblem {
    Empty,
    InvalidDigit,
    TooLarge,
}

/// Reading the first `n` digits left to right: the value so far, or the
/// first problem met.
pub open spec fn read_digits(digits: Seq<char>, n: int) -> Result<int, CountProblem>
    decreases n,
{
    if n <= 0 {
        Ok(0)
    } else {
        match read_digits(digits, n - 1) {
            Err(p) => Err(p),
            Ok(v) => if !is_digit(digits[n - 1]) {
                Err(CountProblem::InvalidDigit)
            } else if v * 10 + digit_value(digits[n - 1]) > u64::MAX {
                Err(CountProblem::TooLarge)
            } else {
                Ok(v * 10 + digit_value(digits[n - 1]))
            },
        }
    }
}

/// A count as `u64::from_str` reads it: an optional `+`, then decimal
/// digits, the first problem met from the left reported.
pub open spec fn count_value(text: Seq<char>) -> Result<u64, CountProblem> {
    if text.len() == 0 {
        Err(CountProblem::Empty)
    } else if text[0] == '+' && text.len() == 1 {
        Err(CountProblem::InvalidDigit)
    } else {
        let digits = if text[0] == '+' { text.drop_first() } else { text };
        match read_digits(digits, digits.len() as int) {
            Ok(v) => Ok(v as u64),
            Err(p) => Err(p),
        }
    }
}

/// Reading digits looks only at the digits it reads.
proof fn lemma_read_digits_prefix(digits: Seq<char>, more: Seq<char>, n: int)
    requires
        0 <= n <= digits.len(),
    ensures
        read_digits(digits + more, n) == read_digits(digits, n),
    decreases n,
{
    if n > 0 {
        lemma_read_digits_prefix(digits, more, n - 1);
        assert((digits + more)[n - 1] == digits[n - 1]);
    }
}

/// A number's decimal digits read back as the number.
proof fn lemma_read_decimal(n: nat)
    requires
        n <= u64::MAX,
    ensures
        read_digits(decimal(n), decimal(n).len() as int) == Ok::<int, CountProblem>(n as int),
        decimal(n).len() >= 1,
        is_digit(decimal(n)[0]),
    decreases n,
{
    let d = (n % 10) as int;
    assert(is_digit(digit_char(d)) && digit_value(digit_char(d)) == d);
    if n >= 10 {
        let head = decimal(n / 10);
        lemma_read_decimal(n / 10);
        let s = decimal(n);
        assert(s == head.push(digit_char(d)));
        assert(s.drop_last() =~= head);
        lemma_read_digits_prefix(head, seq![digit_char(d)], head.len() as int);
        assert(head + seq![digit_char(d)] =~= s);
        assert(read_digits(s, head.len() as int) == Ok::<int, CountProblem>((n / 10) as int));
        assert(s[s.len() - 1] == digit_char(d));
        assert((n / 10) * 10 + d == n) by (nonlinear_arith)
            requires
                d == n % 10,
        ;
        assert(s[0] == head[0]);
        assert(read_digits(s, s.len() as int) == Ok::<int, CountProblem>(n as int));
    } else {
        let s = decimal(n);
        assert(d == n);
        assert(s == seq![digit_char(d)]);
        assert(read_digits(s, 0) == Ok::<int, CountProblem>(0));
        assert(read_digits(s, 1) == Ok::<int, CountProblem>(n as int));
    }
}

/// A count written in decimal reads back as itself.
pub proof fn lemma_count_value_of_decimal(n: u64)
    ensures
        count_value(decimal(n as nat)) == Ok::<u64, CountProblem>(n),
{
    lemma_read_decimal(n as nat);
}

/// Reads a count.
pub fn parse_count(text: &[char]) -> (r: Result<u64, CountProblem>)
    ensures
        r == count_value(text@),
{
    if text.len() == 0 {
        return Err(CountProblem::Empty);
    }
    if text[0] == '+' && text.len() == 1 {
        return Err(CountProblem::InvalidDigit);
    }
    let start: usize = if text[0] == '+' { 1 } else { 0 };
    let ghost digits = if text@[0] == '+' { text@.drop_first() } else { text@ };
    let mut value: u64 = 0;
    let mut k: usize = start;
    while k < text.len()
        invariant
            start <= k <= text@.len(),
            start == (if text@[0] == '+' { 1int } else { 0int }),
            digits == text@.subrange(start as int, text@.len() as int),
            read_digits(digits, k - start) == Ok::<int, CountProblem>(value as int),
        decreases text@.len() - k,
    {
        let c = text[k];
        assert(digits[k - start] == c);
        if !('0' <= c && c <= '9') {
            proof {
                assert(read_digits(digits, k - start + 1) == Err::<int, CountProblem>(CountProblem::InvalidDigit));
                lemma_read_digits_stops(digits, k - start + 1, digits.len() as int);
                assert(read_digits(digits, digits.len() as int) == Err::<int, CountProblem>(CountProblem::InvalidDigit));
                assert(digits == (if text@[0] == '+' { text@.drop_first() } else { text@ }));
                assert(count_value(text@) == Err::<u64, CountProblem>(CountProblem::InvalidDigit));
            }
            return Err(CountProblem::InvalidDigit);
        }
        let d = (c as u32 - '0' as u32) as u64;
        if value > (u64::MAX - d) / 10 {
            proof {
                assert(value * 10 + d > u64::MAX) by (nonlinear_arith)
                    requires
                        value > (u64::MAX - d) / 10,
                        d <= 9,
                ;
                assert(read_digits(digits, k - start + 1) == Err::<int, CountProblem>(CountProblem::TooLarge));
                lemma_read_digits_stops(digits, k - start + 1, digits.len() as int);
                assert(digits == (if text@[0] == '+' { text@.drop_first() } else { text@ }));
                assert(count_value(text@) == Err::<u64, CountProblem>(CountProblem::TooLarge));
            }
            return Err(CountProblem::TooLarge);
        }
        assert(value * 10 + d <= u64::MAX) by (nonlinear_arith)
            requires
                value <= (u64::MAX - d) / 10,
                d <= 9,
        ;
        value = value * 10 + d;
        k += 1;
    }
    assert(digits.len() == k - start);
    Ok(value)
}

/// Once reading meets a problem, the problem stands.
proof fn lemma_read_digits_stops(digits: Seq<char>, n: int, m: int)
    requires
        0 <= n <= m,
        read_digits(digits, n) is Err,
    ensures
        read_digits(digits, m) == read_digits(digits, n),
    decreases m - n,
{
    if m > n {
        lemma_read_digits_stops(digits, n, m - 1);
    }
}

// --- The filter and the ranking -------------------------------------------------------

/// A word is kept when it is lowercase `a`–`z` only, and two letters or
/// more unless it is `a` or `i`.
pub open spec fn passes_filter(word: Seq<char>) -> bool {
    &&& word.len() > 0
    &&& forall|i: int| 0 <= i < word.len() ==> 'a' <= #[trigger] word[i] && word[i] <= 'z'
    &&& (word.len() >= 2 || word == seq!['a'] || word == seq!['i'])
}

/// Whether a word passes the filter.
pub fn passes(word: &[char]) -> (r: bool)
    ensures
        r == passes_filter(word@),
{
    if word.len() == 0 {
        return false;
    }
    let mut k: usize = 0;
    while k < word.len()
        invariant
            k <= word@.len(),
            forall|i: int| 0 <= i < k ==> 'a' <= #[trigger] word@[i] && word@[i] <= 'z',
        decreases word@.len() - k,
    {
        if !('a' <= word[k] && word[k] <= 'z') {
            return false;
        }
        k += 1;
    }
    if word.len() >= 2 {
        return true;
    }
    let single = word[0] == 'a' || word[0] == 'i';
    proof {
        assert(word@ == seq![word@[0]]);
    }
    single
}

/// The first index from `from` on whose count is below `count`, or the
/// length: where a record goes after every one at least as frequent.
pub open spec fn rank_point(sorted: Seq<RecordView>, count: u64, from: int) -> int
    decreases sorted.len() - from,
{
    if from < 0 || from >= sorted.len() {
        sorted.len() as int
    } else if sorted[from].count < count {
        from
    } else {
        rank_point(sorted, count, from + 1)
    }
}

/// The first `n` records, most frequent first, records of equal count kept
/// in their order.
pub open spec fn ranked(s: Seq<RecordView>, n: int) -> Seq<RecordView>
    decreases n,
{
    if n <= 0 {
        seq![]
    } else {
        let t = ranked(s, n - 1);
        t.insert(rank_point(t, s[n - 1].count, 0), s[n - 1])
    }
}

/// Why the source list could not be read.
pub enum SourceProblem {
    /// The first line is not the expected header; the line found, if any.
    Header(Option<Seq<char>>),
    /// A data line (numbered from one) does not have three fields.
    Fields(int),
    /// A data line's count does not read as a number.
    Count(int, Seq<char>, CountProblem),
    /// No word survives the filter.
    Empty,
}

/// The records of the data lines from index `k` of the lines on, or the
/// first problem met. Empty lines are skipped; lines are numbered from
/// one.
pub open spec fn records_from(lines: Seq<Seq<char>>, k: int) -> Result<Seq<RecordView>, SourceProblem>
    decreases lines.len() - k,
{
    if k < 1 || k >= lines.len() {
        Ok(seq![])
    } else if lines[k].len() == 0 {
        records_from(lines, k + 1)
    } else {
        match three_fields(lines[k]) {
            None => Err(SourceProblem::Fields(k + 1)),
            Some((word, count, _share)) => match count_value(count) {
                Err(p) => Err(SourceProblem::Count(k + 1, count, p)),
                Ok(c) => match records_from(lines, k + 1) {
                    Err(e) => Err(e),
                    Ok(rest) => Ok(seq![RecordView { word, count: c }] + rest),
                },
            },
        }
    }
}

/// The records a source list holds, or the first problem with it.
pub open spec fn source_records(csv: Seq<char>) -> Result<Seq<RecordView>, SourceProblem> {
    let lines = lines_of(csv);
    if lines.len() == 0 || lines[0] != "ngram,freq,cumshare"@ {
        Err(SourceProblem::Header(if lines.len() == 0 { None } else { Some(lines[0]) }))
    } else {
        records_from(lines, 1)
    }
}

/// The records kept by the filter among the first `n`, in order.
pub open spec fn filtered(s: Seq<RecordView>, n: int) -> Seq<RecordView>
    decreases n,
{
    if n <= 0 {
        seq![]
    } else if passes_filter(s[n - 1].word) {
        filtered(s, n - 1).push(s[n - 1])
    } else {
        filtered(s, n - 1)
    }
}

/// The words of a source list that a corpus keeps, most frequent first, or
/// the first problem with the list.
pub open spec fn ranked_source(csv: Seq<char>) -> Result<Seq<RecordView>, SourceProblem> {
    match source_records(csv) {
        Err(p) => Err(p),
        Ok(records) => {
            let kept = filtered(records, records.len() as int);
            let r = ranked(kept, kept.len() as int);
            let top = if r.len() > MAX_WORDS { r.take(MAX_WORDS as int) } else { r };
            if top.len() == 0 {
                Err(SourceProblem::Empty)
            } else {
                Ok(top)
            }
        },
    }
}

/// How a count problem reads, as `u64::from_str` words it.
pub open spec fn count_problem_text(p: CountProblem) -> Seq<char> {
    match p {
        CountProblem::Empty => "cannot parse integer from empty string"@,
        CountProblem::InvalidDigit => "invalid digit found in string"@,
        CountProblem::TooLarge => "number too large to fit in target type"@,
    }
}

/// How a problem with the source list reads.
pub open spec fn problem_message(p: SourceProblem) -> Seq<char> {
    match p {
        SourceProblem::Header(None) => "unexpected header None"@,
        SourceProblem::Header(Some(line)) => "unexpected header Some("@ + debug_str(line) + ")"@,
        SourceProblem::Fields(n) => "line "@ + decimal(n as nat) + ": expected three fields"@,
        SourceProblem::Count(n, text, problem) => "line "@ + decimal(n as nat) + ": bad count "@ + debug_str(text)
            + ": "@ + count_problem_text(problem),
        SourceProblem::Empty => "no words survive the filter"@,
    }
}

/// Why the source list could not be read, as found.
pub enum SourceError {
    Header(Option<Vec<char>>),
    Fields(usize),
    Count(usize, Vec<char>, CountProblem),
    Empty,
}

impl View for SourceError {
    type V = SourceProblem;

    open spec fn view(&self) -> SourceProblem {
        match self {
            SourceError::Header(None) => SourceProblem::Header(None),
            SourceError::Header(Some(line)) => SourceProblem::Header(Some(line@)),
            SourceError::Fields(n) => SourceProblem::Fields(*n as int),
            SourceError::Count(n, text, p) => SourceProblem::Count(*n as int, text@, *p),
            SourceError::Empty => SourceProblem::Empty,
        }
    }
}

impl SourceError {
    /// How the problem reads.
    fn message(&self) -> (r: CorpusError)
        ensures
            r.0@ == problem_message(self@),
    {
        let mut out: Vec<char> = Vec::new();
        match self {
            SourceError::Header(None) => append_str(&mut out, "unexpected header None"),
            SourceError::Header(Some(line)) => {
                append_str(&mut out, "unexpected header Some(");
                append_debug(&mut out, line.as_slice());
                append_str(&mut out, ")");
            },
            SourceError::Fields(n) => {
                append_str(&mut out, "line ");
                let digits = decimal_chars(*n);
                append(&mut out, digits.as_slice());
                append_str(&mut out, ": expected three fields");
            },
            SourceError::Count(n, text, problem) => {
                append_str(&mut out, "line ");
                let digits = decimal_chars(*n);
                append(&mut out, digits.as_slice());
                append_str(&mut out, ": bad count ");
                append_debug(&mut out, text.as_slice());
                append_str(&mut out, ": ");
                match problem {
                    CountProblem::Empty => append_str(&mut out, "cannot parse integer from empty string"),
                    CountProblem::InvalidDigit => append_str(&mut out, "invalid digit found in string"),
                    CountProblem::TooLarge => append_str(&mut out, "number too large to fit in target type"),
                }
            },
            SourceError::Empty => append_str(&mut out, "no words survive the filter"),
        }
        proof {
            assert(out@ =~= problem_message(self@));
        }
        CorpusError(string_of(out.as_slice()))
    }
}

/// The three fields of a line, if it has exactly three.
fn split_fields(line: &[char]) -> (r: Option<(Vec<char>, Vec<char>)>)
    ensures
        match r {
            Some((word, count)) => three_fields(line@) matches Some((w, c, _)) && word@ == w && count@ == c,
            None => three_fields(line@) is None,
        },
{
    let n = line.len();
    let a = match find_char_from(line, ',', 0) {
        Some(a) => a,
        None => {
            return None;
        },
    };
    proof {
        lemma_find_from(line@, ',', 0);
    }
    assert(a < n);
    let b = match find_char_from(line, ',', a + 1) {
        Some(b) => b,
        None => {
            return None;
        },
    };
    proof {
        lemma_find_from(line@, ',', a + 1);
    }
    assert(b < n);
    match find_char_from(line, ',', b + 1) {
        Some(_) => None,
        None => Some((crate::text::sub_chars(line, 0, a), crate::text::sub_chars(line, a + 1, b))),
    }
}

/// The records of a source list, or the first problem with it.
fn read_records(csv: &str) -> (r: Result<Vec<Record>, SourceError>)
    ensures
        match r {
            Ok(v) => source_records(csv@) == Ok::<Seq<RecordView>, SourceProblem>(records_view(v@)),
            Err(e) => source_records(csv@) == Err::<Seq<RecordView>, SourceProblem>(e@),
        },
{
    let chars = chars_of(csv);
    let lines = split_lines(chars.as_slice());
    let ghost ls = lines_of(csv@);
    assert(chars@ == csv@);
    let header = chars_of("ngram,freq,cumshare");
    if lines.len() == 0 {
        return Err(SourceError::Header(None));
    }
    if !crate::text::chars_equal(lines[0].as_slice(), header.as_slice()) {
        let found = crate::text::copy_chars(lines[0].as_slice());
        return Err(SourceError::Header(Some(found)));
    }
    let mut records: Vec<Record> = Vec::new();
    let mut k: usize = 1;
    while k < lines.len()
        invariant
            ls == lines_of(csv@),
            lines@.len() == ls.len(),
            forall|i: int| 0 <= i < lines@.len() ==> (#[trigger] lines@[i])@ == ls[i],
            1 <= k <= lines@.len(),
            ls[0] == "ngram,freq,cumshare"@,
            records_from(ls, 1) == match records_from(ls, k as int) {
                Ok(rest) => Ok(records_view(records@) + rest),
                Err(e) => Err::<Seq<RecordView>, SourceProblem>(e),
            },
        decreases lines@.len() - k,
    {
        let line = lines[k].as_slice();
        assert(line@ == ls[k as int]);
        if line.len() == 0 {
            k += 1;
            continue;
        }
        match split_fields(line) {
            None => {
                assert(records_from(ls, k as int) == Err::<Seq<RecordView>, SourceProblem>(
                    SourceProblem::Fields(k + 1),
                ));
                return Err(SourceError::Fields(k + 1));
            },
            Some((word, count)) => {
                match parse_count(count.as_slice()) {
                    Err(p) => {
                        assert(records_from(ls, k as int) == Err::<Seq<RecordView>, SourceProblem>(
                            SourceProblem::Count(k + 1, count@, p),
                        ));
                        return Err(SourceError::Count(k + 1, count, p));
                    },
                    Ok(c) => {
                        let ghost before = records_view(records@);
                        records.push(Record { word: string_of(word.as_slice()), count: c });
                        proof {
                            assert(records_view(records@) =~= before.push(RecordView { word: word@, count: c }));
                            match records_from(ls, k + 1) {
                                Ok(rest) => {
                                    assert(records_view(records@) + rest =~= before + (seq![
                                        RecordView { word: word@, count: c },
                                    ] + rest));
                                },
                                Err(_) => {},
                            }
                        }
                        k += 1;
                    },
                }
            },
        }
    }
    proof {
        assert(records_view(records@) + Seq::<RecordView>::empty() =~= records_view(records@));
    }
    Ok(records)
}

/// A copy of a record.
fn copy_record(r: &Record) -> (c: Record)
    ensures
        c@ == r@,
{
    let chars = chars_of(r.word.as_str());
    Record { word: string_of(chars.as_slice()), count: r.count }
}

/// Counts never rise along a list.
pub open spec fn ranked_order(s: Seq<RecordView>) -> bool {
    forall|a: int, b: int| 0 <= a < b < s.len() ==> s[a].count >= s[b].count
}

/// In a list whose counts never rise, a record goes just after the last
/// one at least as frequent.
proof fn lemma_rank_point(s: Seq<RecordView>, count: u64, from: int, j: int)
    requires
        ranked_order(s),
        0 <= from <= j <= s.len(),
        forall|k: int| from <= k < j ==> s[k].count >= count,
        j == s.len() || s[j].count < count,
    ensures
        rank_point(s, count, from) == j,
    decreases j - from,
{
    if from < j {
        lemma_rank_point(s, count, from + 1, j);
    }
}

/// Where a record goes in a list whose counts never rise: after every
/// record from `from` on at least as frequent, before the first one less so.
proof fn lemma_rank_point_bounds(t: Seq<RecordView>, count: u64, from: int)
    requires
        ranked_order(t),
        0 <= from <= t.len(),
    ensures
        from <= rank_point(t, count, from) <= t.len(),
        forall|k: int| from <= k < rank_point(t, count, from) ==> t[k].count >= count,
        rank_point(t, count, from) < t.len() ==> t[rank_point(t, count, from)].count < count,
    decreases t.len() - from,
{
    if from < t.len() && t[from].count >= count {
        lemma_rank_point_bounds(t, count, from + 1);
    }
}

/// Ranking the first `n` records keeps them in order of count, holds `n`
/// records, and holds only records that pass the filter when those `n` do.
proof fn lemma_ranked(s: Seq<RecordView>, n: int)
    requires
        0 <= n <= s.len(),
    ensures
        ranked(s, n).len() == n,
        ranked_order(ranked(s, n)),
        (forall|i: int| 0 <= i < n ==> passes_filter(#[trigger] s[i].word)) ==> (forall|k: int|
            0 <= k < n ==> passes_filter(#[trigger] ranked(s, n)[k].word)),
    decreases n,
{
    if n > 0 {
        lemma_ranked(s, n - 1);
        let t = ranked(s, n - 1);
        let r = s[n - 1];
        let p = rank_point(t, r.count, 0);
        lemma_rank_point_bounds(t, r.count, 0);
        let u = t.insert(p, r);
        assert(u == ranked(s, n));
        assert forall|a: int, b: int| 0 <= a < b < u.len() implies u[a].count >= u[b].count by {
            if b < p {
            } else if b == p {
            } else if a < p {
                assert(t[a].count >= r.count);
            } else if a == p {
                assert(t[b - 1].count <= t[p].count);
            } else {
            }
        }
        if forall|i: int| 0 <= i < n ==> passes_filter(#[trigger] s[i].word) {
            assert forall|k: int| 0 <= k < n implies passes_filter(#[trigger] u[k].word) by {
                if k < p {
                    assert(u[k] == t[k]);
                } else if k > p {
                    assert(u[k] == t[k - 1]);
                }
            }
        }
    }
}

/// The records kept by the filter all pass it.
proof fn lemma_filtered_pass(s: Seq<RecordView>, n: int)
    requires
        0 <= n <= s.len(),
    ensures
        filtered(s, n).len() <= n,
        forall|k: int| 0 <= k < filtered(s, n).len() ==> passes_filter(#[trigger] filtered(s, n)[k].word),
    decreases n,
{
    if n > 0 {
        lemma_filtered_pass(s, n - 1);
    }
}

/// A corpus keeps only words that pass the filter (lowercase ASCII letters,
/// single letters only `a` and `i`), at most [`MAX_WORDS`] of them, most
/// frequent first.
pub proof fn lemma_kept_words_are_filtered_and_ranked(csv: Seq<char>)
    ensures
        ranked_source(csv) matches Ok(top) ==> {
            &&& 0 < top.len() <= MAX_WORDS
            &&& ranked_order(top)
            &&& forall|k: int| 0 <= k < top.len() ==> passes_filter(#[trigger] top[k].word)
        },
{
    if let Ok(records) = source_records(csv) {
        let kept = filtered(records, records.len() as int);
        lemma_filtered_pass(records, records.len() as int);
        lemma_ranked(kept, kept.len() as int);
        let r = ranked(kept, kept.len() as int);
        if r.len() > MAX_WORDS {
            let top = r.take(MAX_WORDS as int);
            assert forall|k: int| 0 <= k < top.len() implies passes_filter(#[trigger] top[k].word) by {
                assert(top[k] == r[k]);
            }
        }
    }
}

/// Inserts a record after every one at least as frequent.
fn insert_ranked(sorted: &mut Vec<Record>, r: Record)
    requires
        ranked_order(records_view(old(sorted)@)),
    ensures
        records_view(final(sorted)@) == records_view(old(sorted)@).insert(
            rank_point(records_view(old(sorted)@), r.count, 0),
            r@,
        ),
        ranked_order(records_view(final(sorted)@)),
{
    let ghost v = records_view(sorted@);
    let mut j = sorted.len();
    while j > 0 && sorted[j - 1].count < r.count
        invariant
            v == records_view(sorted@),
            sorted@ == old(sorted)@,
            j <= sorted@.len(),
            forall|k: int| j <= k < sorted@.len() ==> v[k].count < r.count,
        decreases j,
    {
        j -= 1;
    }
    proof {
        if j > 0 {
            assert(v[j - 1].count >= r.count);
        }
        assert forall|k: int| 0 <= k < j implies v[k].count >= r.count by {
            assert(v[k].count >= v[j - 1].count);
        }
        lemma_rank_point(v, r.count, 0, j as int);
    }
    let ghost rv = r@;
    sorted.insert(j, r);
    proof {
        assert(records_view(sorted@) =~= v.insert(j as int, rv));
    }
}

/// The words a corpus keeps from a source list, most frequent first: the
/// words that pass the filter, equally frequent ones in list order, the
/// first [`MAX_WORDS`] of them; or what is wrong with the list.
pub fn ranked_records(csv: &str) -> (r: Result<Vec<Record>, CorpusError>)
    ensures
        match r {
            Ok(v) => ranked_source(csv@) == Ok::<Seq<RecordView>, SourceProblem>(records_view(v@)),
            Err(e) => ranked_source(csv@) matches Err(p) && e.0@ == problem_message(p),
        },
{
    let records = match read_records(csv) {
        Ok(records) => records,
        Err(e) => {
            return Err(e.message());
        },
    };
    let ghost all = records_view(records@);
    let mut kept: Vec<Record> = Vec::new();
    let mut k: usize = 0;
    while k < records.len()
        invariant
            all == records_view(records@),
            k <= records@.len(),
            records_view(kept@) == filtered(all, k as int),
        decreases records@.len() - k,
    {
        let word = chars_of(records[k].word.as_str());
        if passes(word.as_slice()) {
            let ghost before = records_view(kept@);
            kept.push(copy_record(&records[k]));
            proof {
                assert(records_view(kept@) =~= before.push(all[k as int]));
            }
        }
        k += 1;
    }
    let ghost kept_view = records_view(kept@);
    let mut sorted: Vec<Record> = Vec::new();
    let mut k: usize = 0;
    proof {
        assert(records_view(sorted@) =~= Seq::<RecordView>::empty());
    }
    while k < kept.len()
        invariant
            kept_view == records_view(kept@),
            k <= kept@.len(),
            records_view(sorted@) == ranked(kept_view, k as int),
            ranked_order(records_view(sorted@)),
        decreases kept@.len() - k,
    {
        let r = copy_record(&kept[k]);
        insert_ranked(&mut sorted, r);
        k += 1;
    }
    let ghost full = records_view(sorted@);
    sorted.truncate(MAX_WORDS);
    proof {
        if full.len() > MAX_WORDS {
            assert(records_view(sorted@) =~= full.take(MAX_WORDS as int));
        } else {
            assert(records_view(sorted@) =~= full);
        }
    }
    if sorted.len() == 0 {
        return Err(SourceError::Empty.message());
    }
    Ok(sorted)
}

/// The number of symbols a pattern is spelled in: the space and `a`–`z`.
pub const ALPHABET: usize = 27;

/// A corpus character's symbol: the space is 0 and `a`–`z` are 1–26, so
/// symbol order is text order.
pub open spec fn symbol_of(byte: u8) -> int {
    if byte == 32 {
        0
    } else {
        byte - 96
    }
}

/// A corpus character's symbol.
pub fn symbol(byte: u8) -> (r: usize)
    requires
        byte == 32 || (97 <= byte && byte <= 122),
    ensures
        r == symbol_of(byte),
        r < ALPHABET,
{
    if byte == 32 {
        0
    } else {
        (byte - 96) as usize
    }
}

/// The corpus character a symbol stands for.
pub fn byte(symbol: usize) -> (r: u8)
    requires
        symbol < ALPHABET,
    ensures
        symbol_of(r) == symbol,
        r == 32 || (97 <= r && r <= 122),
{
    if symbol == 0 {
        32
    } else {
        (symbol + 96) as u8
    }
}


// --- Which words hold each pattern ------------------------------------------------

/// A character a pattern may hold: the space or `a`–`z`.
pub open spec fn corpus_char(c: char) -> bool {
    c == ' ' || ('a' <= c && c <= 'z')
}

/// A corpus character's symbol: the space is 0 and `a`–`z` are 1–26.
pub open spec fn char_symbol(c: char) -> int {
    if c == ' ' {
        0
    } else {
        c as int - 96
    }
}

/// A pattern's code: its symbols read as a number in base 27, so that code
/// order is text order among patterns of one length.
pub open spec fn pattern_code(p: Seq<char>) -> int
    decreases p.len(),
{
    if p.len() == 0 {
        0
    } else {
        pattern_code(p.drop_last()) * 27 + char_symbol(p.last())
    }
}

/// How many codes patterns of a length have: 27 to that power.
pub open spec fn code_count(len: nat) -> nat
    decreases len,
{
    if len == 0 {
        1
    } else {
        27 * code_count((len - 1) as nat)
    }
}

/// A word as running text sees it: a space either side.
pub open spec fn padded_word(word: Seq<char>) -> Seq<char> {
    seq![' '] + word + seq![' ']
}

/// Where a word's windows of a length start: a single character is read
/// from after the leading space, so that each slot of running text counts
/// once; longer patterns from the leading space.
pub open spec fn first_window(len: nat) -> int {
    if len == 1 {
        1
    } else {
        0
    }
}

/// Whether a word, padded, holds a pattern of the given code among its
/// windows of length `len`.
pub open spec fn holds_code(word: Seq<char>, len: nat, code: int) -> bool {
    let p = padded_word(word);
    exists|k: int|
        first_window(len) <= k && k + len <= p.len() && #[trigger] pattern_code(p.subrange(k, k + len)) == code
}

/// The ranks among the first `n` words of those holding a pattern of the
/// code, in rank order.
pub open spec fn holders(words: Seq<Seq<char>>, len: nat, code: int, n: int) -> Seq<nat>
    decreases n,
{
    if n <= 0 {
        seq![]
    } else if holds_code(words[n - 1], len, code) {
        holders(words, len, code, n - 1).push((n - 1) as nat)
    } else {
        holders(words, len, code, n - 1)
    }
}

/// Word ids as ranks.
pub open spec fn ids_view(ids: Seq<WordId>) -> Seq<nat> {
    Seq::new(ids.len(), |i: int| ids[i]@)
}

/// Patterns of one length made of corpus characters are told apart by
/// their codes, and a code lies below the count of codes.
pub proof fn lemma_pattern_code(a: Seq<char>, b: Seq<char>)
    requires
        a.len() == b.len(),
        forall|i: int| 0 <= i < a.len() ==> corpus_char(#[trigger] a[i]),
        forall|i: int| 0 <= i < b.len() ==> corpus_char(#[trigger] b[i]),
    ensures
        0 <= pattern_code(a) < code_count(a.len()),
        pattern_code(a) == pattern_code(b) ==> a == b,
    decreases a.len(),
{
    if a.len() > 0 {
        let (a0, b0) = (a.drop_last(), b.drop_last());
        lemma_pattern_code(a0, b0);
        let (x, y) = (pattern_code(a0), pattern_code(b0));
        let (s, t) = (char_symbol(a.last()), char_symbol(b.last()));
        let n = code_count(a0.len());
        assert(0 <= s < 27 && 0 <= t < 27);
        assert(0 <= x * 27 + s < 27 * n) by (nonlinear_arith)
            requires
                0 <= x < n,
                0 <= s < 27,
        ;
        if pattern_code(a) == pattern_code(b) {
            assert(x == y && s == t) by (nonlinear_arith)
                requires
                    x * 27 + s == y * 27 + t,
                    0 <= s < 27,
                    0 <= t < 27,
                    0 <= x,
                    0 <= y,
            ;
            assert(a.last() == b.last());
            assert(a =~= a0.push(a.last()));
            assert(b =~= b0.push(b.last()));
        }
    }
}

/// The code of the pattern of length `len` starting at `k`.
fn code_at(p: &[char], k: usize, len: usize) -> (r: usize)
    requires
        1 <= len <= 3,
        k + len <= p@.len(),
        p@.len() < usize::MAX,
        forall|i: int| 0 <= i < p@.len() ==> corpus_char(#[trigger] p@[i]),
    ensures
        r == pattern_code(p@.subrange(k as int, k + len)),
        r < code_count(len as nat),
{
    let mut r: usize = 0;
    let mut j: usize = 0;
    assert(code_count(0) == 1 && code_count(1) == 27 && code_count(2) == 729 && code_count(3) == 19683) by {
        reveal_with_fuel(code_count, 4);
    }
    while j < len
        invariant
            1 <= len <= 3,
            k + len <= p@.len(),
            p@.len() < usize::MAX,
            j <= len,
            forall|i: int| 0 <= i < p@.len() ==> corpus_char(#[trigger] p@[i]),
            r == pattern_code(p@.subrange(k as int, k + j)),
            r < code_count(j as nat),
            code_count(0) == 1 && code_count(1) == 27 && code_count(2) == 729 && code_count(3) == 19683,
        decreases len - j,
    {
        let c = p[k + j];
        let sym: usize = if c == ' ' {
            0
        } else {
            (c as usize) - 96
        };
        let ghost w = p@.subrange(k as int, k + j + 1);
        assert(w.drop_last() =~= p@.subrange(k as int, k + j));
        assert(w.last() == c);
        let ghost n = code_count(j as nat);
        assert(r * 27 + sym < 27 * n) by (nonlinear_arith)
            requires
                r < n,
                sym < 27,
        ;
        r = r * 27 + sym;
        j += 1;
    }
    r
}

/// Whether a window of `p` of length `len` starting in `from..to` has the
/// code.
pub open spec fn window_in(p: Seq<char>, len: nat, from: int, to: int, code: int) -> bool {
    exists|j: int| from <= j < to && #[trigger] pattern_code(p.subrange(j, j + len)) == code
}

/// The rank `w` where some window starting in `from..to` has the code, else
/// nothing.
pub open spec fn rank_if_seen(p: Seq<char>, len: nat, from: int, to: int, code: int, w: nat) -> Seq<nat> {
    if window_in(p, len, from, to, code) {
        seq![w]
    } else {
        seq![]
    }
}

/// For every pattern of length `len` (1 to 3), by its code, the ids of the
/// words whose padded text holds it, in rank order and each once: the
/// inverted index from a pattern to the words to practise it in. Words are
/// of `a`–`z` and ranked by their index in `words`.
pub fn containing_words(words: &[String], len: usize) -> (r: Vec<Vec<WordId>>)
    requires
        1 <= len <= 3,
        words@.len() <= u16::MAX + 1,
        forall|w: int, i: int|
            0 <= w < words@.len() && 0 <= i < words@[w]@.len() ==> 'a' <= #[trigger] words@[w]@[i] <= 'z',
        forall|w: int| 0 <= w < words@.len() ==> #[trigger] words@[w]@.len() < usize::MAX - 2,
    ensures
        r@.len() == code_count(len as nat),
        forall|c: int|
            0 <= c < r@.len() ==> ids_view((#[trigger] r@[c])@) == holders(texts_view(words@), len as nat, c, words@.len() as int),
{
    let ghost texts = texts_view(words@);
    let size: usize = if len == 1 {
        27
    } else if len == 2 {
        729
    } else {
        19683
    };
    assert(size == code_count(len as nat)) by {
        reveal_with_fuel(code_count, 4);
    }
    let mut table: Vec<Vec<WordId>> = Vec::new();
    while table.len() < size
        invariant
            table@.len() <= size,
            forall|c: int| 0 <= c < table@.len() ==> (#[trigger] table@[c])@.len() == 0,
        decreases size - table@.len(),
    {
        table.push(Vec::new());
    }
    let mut w: usize = 0;
    while w < words.len()
        invariant
            texts == texts_view(words@),
            1 <= len <= 3,
            size == code_count(len as nat),
            w <= words@.len(),
            words@.len() <= u16::MAX + 1,
            forall|x: int, i: int|
                0 <= x < words@.len() && 0 <= i < words@[x]@.len() ==> 'a' <= #[trigger] words@[x]@[i] <= 'z',
            forall|x: int| 0 <= x < words@.len() ==> #[trigger] words@[x]@.len() < usize::MAX - 2,
            table@.len() == size,
            forall|c: int| 0 <= c < size ==> ids_view((#[trigger] table@[c])@) == holders(texts, len as nat, c, w as int),
        decreases words@.len() - w,
    {
        let word = chars_of(words[w].as_str());
        let mut p: Vec<char> = Vec::new();
        p.push(' ');
        append(&mut p, word.as_slice());
        p.push(' ');
        assert(p@ =~= padded_word(texts[w as int]));
        let id = WordId::from_index(w);
        let first: usize = if len == 1 { 1 } else { 0 };
        proof {
            assert forall|i: int| 0 <= i < p@.len() implies corpus_char(#[trigger] p@[i]) by {
                if 0 < i < p@.len() - 1 {
                    assert(p@[i] == words@[w as int]@[i - 1]);
                }
            }
            assert forall|c: int| 0 <= c < size implies ids_view((#[trigger] table@[c])@) == holders(texts, len as nat, c, w as int)
                + rank_if_seen(p@, len as nat, first as int, first as int, c, w as nat) by {
                assert(holders(texts, len as nat, c, w as int) + Seq::<nat>::empty() =~= holders(texts, len as nat, c, w as int));
            }
        }
        let mut k: usize = first;
        while len <= p.len() - k
            invariant
                texts == texts_view(words@),
                1 <= len <= 3,
                size == code_count(len as nat),
                w < words@.len(),
                id@ == w,
                first == first_window(len as nat),
                first <= k,
                k <= p@.len(),
                k + len <= p@.len() + 1,
                p@ == padded_word(texts[w as int]),
                p@.len() < usize::MAX,
                forall|i: int| 0 <= i < p@.len() ==> corpus_char(#[trigger] p@[i]),
                table@.len() == size,
                forall|c: int| 0 <= c < size ==> ids_view((#[trigger] table@[c])@) == holders(texts, len as nat, c, w as int)
                    + rank_if_seen(p@, len as nat, first as int, k as int, c, w as nat),
            decreases p@.len() + 1 - k,
        {
            let code = code_at(p.as_slice(), k, len);
            let ghost before = table@;
            let n = table[code].len();
            let fresh = n == 0 || table[code][n - 1] != id;
            proof {
                lemma_holders_below(texts, len as nat, code as int, w as int);
                let hs = holders(texts, len as nat, code as int, w as int);
                if n > 0 {
                    let last = table@[code as int]@[n - 1];
                    assert(ids_view(table@[code as int]@)[n - 1] == last@);
                    if window_in(p@, len as nat, first as int, k as int, code as int) {
                        assert(last@ == w);
                    } else {
                        assert(last@ == hs[n - 1]);
                        assert(hs[n - 1] < w);
                    }
                }
            }
            if fresh {
                table[code].push(id);
            }
            proof {
                assert forall|c: int| 0 <= c < size implies ids_view((#[trigger] table@[c])@) == holders(texts, len as nat, c, w as int)
                    + rank_if_seen(p@, len as nat, first as int, k + 1, c, w as nat) by {
                    let old_has = window_in(p@, len as nat, first as int, k as int, c);
                    if c == code {
                        assert(pattern_code(p@.subrange(k as int, k + len)) == c);
                        if fresh {
                            assert(ids_view(table@[c]@) =~= ids_view(before[c]@).push(w as nat));
                        }
                    } else {
                        assert(table@[c] == before[c]);
                        if window_in(p@, len as nat, first as int, k + 1, c) {
                            let j = choose|j: int| first <= j < k + 1 && #[trigger] pattern_code(p@.subrange(j, j + len)) == c;
                            assert(j != k);
                            assert(old_has);
                        }
                    }
                }
            }
            k += 1;
        }
        proof {
            assert forall|c: int| 0 <= c < size implies ids_view((#[trigger] table@[c])@) == holders(texts, len as nat, c, w + 1) by {
                let inside = window_in(p@, len as nat, first as int, k as int, c);
                assert(inside == holds_code(texts[w as int], len as nat, c)) by {
                    if holds_code(texts[w as int], len as nat, c) {
                        let j = choose|j: int|
                            first_window(len as nat) <= j && j + len <= p@.len() && #[trigger] pattern_code(p@.subrange(j, j + len)) == c;
                        assert(first <= j < k);
                    }
                    if inside {
                        let j = choose|j: int| first <= j < k && #[trigger] pattern_code(p@.subrange(j, j + len)) == c;
                        assert(first_window(len as nat) <= j && j + len <= p@.len());
                    }
                }
                if !inside {
                    assert(holders(texts, len as nat, c, w as int) + Seq::<nat>::empty() =~= holders(texts, len as nat, c, w as int));
                }
            }
        }
        w += 1;
    }
    table
}

/// The ranks holding a pattern among the first `n` words all lie below `n`.
proof fn lemma_holders_below(words: Seq<Seq<char>>, len: nat, code: int, n: int)
    ensures
        forall|i: int| 0 <= i < holders(words, len, code, n).len() ==> #[trigger] holders(words, len, code, n)[i] < n,
    decreases n,
{
    if n > 0 {
        lemma_holders_below(words, len, code, n - 1);
        let before = holders(words, len, code, n - 1);
        assert forall|i: int| 0 <= i < holders(words, len, code, n).len() implies #[trigger] holders(
            words,
            len,
            code,
            n,
        )[i] < n by {
            if i < before.len() {
                assert(before[i] < n - 1);
            }
        }
    }
}


// --- Words by text ---------------------------------------------------------------

/// Whether one rank's word comes before another's in text order, equal
/// texts in rank order.
pub open spec fn before_by_text(words: Seq<Seq<char>>, a: nat, b: nat) -> bool {
    text_less(words[a as int], words[b as int]) || (words[a as int] == words[b as int] && a < b)
}

/// Whether ranks are ordered by their words' texts, equal texts by rank.
pub open spec fn text_sorted(words: Seq<Seq<char>>, ids: Seq<nat>) -> bool {
    forall|a: int, b: int| 0 <= a < b < ids.len() ==> before_by_text(words, #[trigger] ids[a], #[trigger] ids[b])
}

/// Whether a rank is among the ranks.
pub open spec fn has_rank(ids: Seq<nat>, j: nat) -> bool {
    exists|k: int| 0 <= k < ids.len() && #[trigger] ids[k] == j
}

/// Whether ranks are each of the first `n` once: `n` of them, every one
/// below `n`, and every rank below `n` among them.
pub open spec fn all_ranks(ids: Seq<nat>, n: nat) -> bool {
    &&& ids.len() == n
    &&& forall|k: int| 0 <= k < ids.len() ==> #[trigger] ids[k] < n
    &&& forall|j: nat| j < n ==> #[trigger] has_rank(ids, j)
}

/// Every word's rank, ordered by the word's text and equal texts by rank:
/// the order the corpus looks words up by.
pub fn ranks_by_text(words: &[String]) -> (r: Vec<WordId>)
    requires
        words@.len() <= u16::MAX + 1,
    ensures
        all_ranks(ids_view(r@), words@.len()),
        text_sorted(texts_view(words@), ids_view(r@)),
{
    let ghost texts = texts_view(words@);
    let mut r: Vec<WordId> = Vec::new();
    let mut i: usize = 0;
    while i < words.len()
        invariant
            texts == texts_view(words@),
            i <= words@.len(),
            words@.len() <= u16::MAX + 1,
            all_ranks(ids_view(r@), i as nat),
            text_sorted(texts, ids_view(r@)),
        decreases words@.len() - i,
    {
        let word = chars_of(words[i].as_str());
        let mut pos: usize = 0;
        let mut found = false;
        while !found
            invariant
                texts == texts_view(words@),
                i < words@.len(),
                word@ == texts[i as int],
                pos <= r@.len(),
                all_ranks(ids_view(r@), i as nat),
                forall|k: int| 0 <= k < pos ==> !text_less(texts[i as int], texts[#[trigger] ids_view(r@)[k] as int]),
                found ==> pos == r@.len() || text_less(texts[i as int], texts[ids_view(r@)[pos as int] as int]),
            decreases (r@.len() - pos) * 2 + (if found { 0int } else { 1int }),
        {
            if pos == r.len() {
                found = true;
            } else {
                let other = r[pos];
                assert(ids_view(r@)[pos as int] == other@);
                let other_word = chars_of(words[other.index()].as_str());
                if chars_less(word.as_slice(), other_word.as_slice()) {
                    found = true;
                } else {
                    pos += 1;
                }
            }
        }
        let ghost old_ids = ids_view(r@);
        let id = WordId::from_index(i);
        r.insert(pos, id);
        proof {
            let ids = ids_view(r@);
            assert(ids =~= old_ids.insert(pos as int, i as nat));
            assert forall|k: int| 0 <= k < pos implies before_by_text(texts, #[trigger] old_ids[k], i as nat) by {
                let x = old_ids[k];
                lemma_text_order(texts[x as int], texts[i as int]);
            }
            assert forall|k: int| pos <= k < old_ids.len() implies text_less(texts[i as int], texts[#[trigger] old_ids[k] as int]) by {
                let first = old_ids[pos as int];
                if k > pos {
                    let x = old_ids[k];
                    assert(before_by_text(texts, first, x));
                    if text_less(texts[first as int], texts[x as int]) {
                        lemma_text_less_transitive(texts[i as int], texts[first as int], texts[x as int], 0);
                    }
                }
            }
            assert forall|a: int, b: int| 0 <= a < b < ids.len() implies before_by_text(texts, #[trigger] ids[a], #[trigger] ids[b]) by {
                if b < pos {
                    assert(ids[a] == old_ids[a] && ids[b] == old_ids[b]);
                } else if b == pos {
                    assert(ids[a] == old_ids[a]);
                } else if a < pos {
                    assert(ids[a] == old_ids[a] && ids[b] == old_ids[b - 1]);
                } else if a == pos {
                    assert(ids[b] == old_ids[b - 1]);
                } else {
                    assert(ids[a] == old_ids[a - 1] && ids[b] == old_ids[b - 1]);
                }
            }
            assert forall|j: nat| j < i + 1 implies #[trigger] has_rank(ids, j) by {
                if j == i {
                    assert(ids[pos as int] == j);
                } else {
                    assert(has_rank(old_ids, j));
                    let k = choose|k: int| 0 <= k < old_ids.len() && #[trigger] old_ids[k] == j;
                    if k < pos {
                        assert(ids[k] == j);
                    } else {
                        assert(ids[k + 1] == j);
                    }
                }
            }
        }
        i += 1;
    }
    r
}

/// The rank of a word with the given text, looked up through the ranks in
/// text order; `None` when no word has it.
pub fn find_by_text(words: &[String], by_text: &[WordId], text: &str) -> (r: Option<WordId>)
    requires
        all_ranks(ids_view(by_text@), words@.len()),
        text_sorted(texts_view(words@), ids_view(by_text@)),
    ensures
        match r {
            Some(id) => id@ < words@.len() && words@[id@ as int]@ == text@,
            None => forall|j: int| 0 <= j < words@.len() ==> #[trigger] words@[j]@ != text@,
        },
{
    let ghost texts = texts_view(words@);
    let ghost ids = ids_view(by_text@);
    let target = chars_of(text);
    let mut lo: usize = 0;
    let mut hi: usize = by_text.len();
    while lo < hi
        invariant
            texts == texts_view(words@),
            ids == ids_view(by_text@),
            all_ranks(ids, words@.len()),
            text_sorted(texts, ids),
            target@ == text@,
            lo <= hi <= by_text@.len(),
            forall|k: int| 0 <= k < lo ==> text_less(texts[#[trigger] ids[k] as int], text@),
            forall|k: int| hi <= k < ids.len() ==> text_less(text@, texts[#[trigger] ids[k] as int]),
        decreases hi - lo,
    {
        let mid = lo + (hi - lo) / 2;
        let id = by_text[mid];
        assert(ids[mid as int] == id@);
        let word = chars_of(words[id.index()].as_str());
        if str_equal(words[id.index()].as_str(), text) {
            return Some(id);
        }
        if chars_less(word.as_slice(), target.as_slice()) {
            proof {
                assert forall|k: int| 0 <= k < mid + 1 implies text_less(texts[#[trigger] ids[k] as int], text@) by {
                    if k < mid {
                        assert(before_by_text(texts, ids[k], ids[mid as int]));
                        if text_less(texts[ids[k] as int], texts[ids[mid as int] as int]) {
                            lemma_text_less_transitive(texts[ids[k] as int], texts[ids[mid as int] as int], text@, 0);
                        }
                    }
                }
            }
            lo = mid + 1;
        } else {
            proof {
                lemma_text_order(word@, text@);
                assert forall|k: int| mid <= k < ids.len() implies text_less(text@, texts[#[trigger] ids[k] as int]) by {
                    if k > mid {
                        assert(before_by_text(texts, ids[mid as int], ids[k]));
                        if text_less(texts[ids[mid as int] as int], texts[ids[k] as int]) {
                            lemma_text_less_transitive(text@, texts[ids[mid as int] as int], texts[ids[k] as int], 0);
                        }
                    }
                }
            }
            hi = mid;
        }
    }
    proof {
        assert forall|j: int| 0 <= j < words@.len() implies #[trigger] words@[j]@ != text@ by {
            assert(has_rank(ids, j as nat));
            let k = choose|k: int| 0 <= k < ids.len() && #[trigger] ids[k] == j as nat;
            lemma_text_order(text@, text@);
            if k < lo {
                assert(text_less(texts[ids[k] as int], text@));
            } else {
                assert(text_less(text@, texts[ids[k] as int]));
            }
        }
    }
    None
}

} // verus!
