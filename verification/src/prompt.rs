//! The fixed sequence of words presented for one session, and the slots a
//! session is typed in.

use vstd::prelude::*;

use crate::text::{char_is_whitespace, chars_of, copy_chars, is_whitespace, string_of, sub_chars};

verus! {

/// A position in a prompt: a word and a character position within it. The
/// position just past the word's last character is the space that follows
/// the word.
#[derive(Debug, Clone, Copy, PartialEq, Eq, Hash)]
pub struct Slot {
    pub word: usize,
    pub position: usize,
}

/// Every word followed by one space.
pub open spec fn spaced(ws: Seq<Seq<char>>) -> Seq<char>
    decreases ws.len(),
{
    if ws.len() == 0 {
        seq![]
    } else {
        spaced(ws.drop_last()) + ws.last() + seq![' ']
    }
}

/// The prompt read as space-padded text: a space, then every word followed
/// by a space. Patterns are read from this text.
pub open spec fn padded(ws: Seq<Seq<char>>) -> Seq<char> {
    seq![' '] + spaced(ws)
}

/// The prompt as shown: the words joined by single spaces.
pub open spec fn shown(ws: Seq<Seq<char>>) -> Seq<char> {
    spaced(ws).drop_last()
}

/// Where a slot's character stands in the padded text.
pub open spec fn slot_index(ws: Seq<Seq<char>>, slot: Slot) -> int {
    1 + spaced(ws.take(slot.word as int)).len() + slot.position
}

/// A slot names a character of a word or the space after it.
pub open spec fn valid_slot(ws: Seq<Seq<char>>, slot: Slot) -> bool {
    slot.word < ws.len() && slot.position <= ws[slot.word as int].len()
}

/// The character the prompt has at a slot: the word's character, or the
/// following space.
pub open spec fn expected_char(ws: Seq<Seq<char>>, slot: Slot) -> char {
    if slot.position < ws[slot.word as int].len() {
        ws[slot.word as int][slot.position as int]
    } else {
        ' '
    }
}

/// The text of the padded prompt ending at a slot, up to three characters.
pub open spec fn pattern_at(ws: Seq<Seq<char>>, slot: Slot) -> Seq<char> {
    let i = slot_index(ws, slot);
    padded(ws).subrange(if i >= 2 { i - 2 } else { 0 }, i + 1)
}

/// A prompt word is never empty and never holds whitespace.
pub open spec fn valid_word(w: Seq<char>) -> bool {
    w.len() > 0 && forall|i: int| 0 <= i < w.len() ==> !char_is_whitespace(#[trigger] w[i])
}

/// A prompt has at least one word, and every word is valid.
pub open spec fn valid_words(ws: Seq<Seq<char>>) -> bool {
    ws.len() > 0 && forall|i: int| 0 <= i < ws.len() ==> valid_word(#[trigger] ws[i])
}

/// The texts of some string slices, as character sequences.
pub open spec fn texts_of(words: Seq<&str>) -> Seq<Seq<char>> {
    Seq::new(words.len(), |i: int| words[i]@)
}

/// The padded text of the words fits in memory indices.
pub open spec fn fits(ws: Seq<Seq<char>>) -> bool {
    padded(ws).len() <= usize::MAX
}

/// The slots of one word: its first `count` positions.
pub open spec fn word_slots(word: int, count: nat) -> Seq<Slot> {
    Seq::new(count, |p: int| Slot { word: word as usize, position: p as usize })
}

/// The slots of the first `k` words, each with its following space.
pub open spec fn slots_upto(ws: Seq<Seq<char>>, k: int) -> Seq<Slot>
    decreases k,
{
    if k <= 0 {
        seq![]
    } else {
        slots_upto(ws, k - 1) + word_slots(k - 1, ws[k - 1].len() + 1)
    }
}

/// Every slot of a prompt in order: each character, and each separating
/// space, but no space after the last word.
pub open spec fn all_slots(ws: Seq<Seq<char>>) -> Seq<Slot> {
    slots_upto(ws, ws.len() - 1) + word_slots(ws.len() - 1, ws.last().len())
}

/// The words of one session, composed before the session begins.
///
/// Words are separated by single spaces when shown; a word is never empty
/// and never contains whitespace.
#[derive(Debug, Clone, PartialEq, Eq)]
pub struct Prompt {
    words: Vec<String>,
    chars: Vec<Vec<char>>,
}

impl View for Prompt {
    type V = Seq<Seq<char>>;

    closed spec fn view(&self) -> Seq<Seq<char>> {
        Seq::new(self.chars@.len(), |i: int| self.chars@[i]@)
    }
}

pub proof fn lemma_spaced_take_next(ws: Seq<Seq<char>>, k: int)
    requires
        0 <= k < ws.len(),
    ensures
        spaced(ws.take(k + 1)) == spaced(ws.take(k)) + ws[k] + seq![' '],
{
    assert(ws.take(k + 1).drop_last() =~= ws.take(k));
}

/// The spaced text of the first `k` words is a prefix of the whole.
pub proof fn lemma_spaced_prefix(ws: Seq<Seq<char>>, k: int)
    requires
        0 <= k <= ws.len(),
    ensures
        spaced(ws.take(k)).len() <= spaced(ws).len(),
        spaced(ws).subrange(0, spaced(ws.take(k)).len() as int) == spaced(ws.take(k)),
    decreases ws.len() - k,
{
    if k == ws.len() {
        assert(ws.take(k) =~= ws);
        assert(spaced(ws).subrange(0, spaced(ws).len() as int) =~= spaced(ws));
    } else {
        let d = ws.drop_last();
        lemma_spaced_prefix(d, k);
        assert(d.take(k) =~= ws.take(k));
        let whole = spaced(ws);
        let part = spaced(d);
        assert(whole == part + ws.last() + seq![' ']);
        let n = spaced(ws.take(k)).len() as int;
        assert(whole.subrange(0, n) =~= part.subrange(0, n));
    }
}

/// The padded text holds each slot's expected character at the slot's index.
pub proof fn lemma_padded_at_slot(ws: Seq<Seq<char>>, slot: Slot)
    requires
        valid_slot(ws, slot),
    ensures
        0 < slot_index(ws, slot) < padded(ws).len(),
        padded(ws)[slot_index(ws, slot)] == expected_char(ws, slot),
{
    let w = slot.word as int;
    lemma_spaced_prefix(ws, w + 1);
    lemma_spaced_take_next(ws, w);
    let pre = spaced(ws.take(w + 1));
    let i = spaced(ws.take(w)).len() + slot.position;
    assert(spaced(ws).subrange(0, pre.len() as int)[i] == pre[i]);
}

/// A word and its following space lie within the spaced text.
pub proof fn lemma_word_within(ws: Seq<Seq<char>>, k: int)
    requires
        0 <= k < ws.len(),
    ensures
        spaced(ws.take(k)).len() + ws[k].len() + 1 <= spaced(ws).len(),
{
    lemma_spaced_prefix(ws, k + 1);
    lemma_spaced_take_next(ws, k);
}

/// The shown text has one more character per word than the words hold, less
/// the trailing space.
pub proof fn lemma_spaced_len(ws: Seq<Seq<char>>)
    ensures
        spaced(ws).len() >= ws.len(),
        ws.len() > 0 ==> spaced(ws).last() == ' ',
    decreases ws.len(),
{
    if ws.len() > 0 {
        lemma_spaced_len(ws.drop_last());
    }
}

impl Prompt {
    /// The prompt is well formed: its words are valid and each is held both
    /// as text and as characters.
    pub closed spec fn wf(&self) -> bool {
        &&& self.words@.len() == self.chars@.len()
        &&& forall|i: int| 0 <= i < self.words@.len() ==> #[trigger] self.words@[i]@ == self.chars@[i]@
        &&& valid_words(self@)
        &&& fits(self@)
    }

    pub proof fn lemma_wf(&self)
        requires
            self.wf(),
        ensures
            valid_words(self@),
            fits(self@),
            forall|k: int| 0 <= k < self@.len() ==> #[trigger] self@[k].len() + 2 <= padded(self@).len(),
    {
        assert forall|k: int| 0 <= k < self@.len() implies #[trigger] self@[k].len() + 2 <= padded(
            self@,
        ).len() by {
            lemma_word_within(self@, k);
        }
    }

    /// A prompt of the given words. Callers guarantee at least one word, none
    /// empty or holding whitespace; [`Prompt::try_new`] checks.
    pub fn new(words: &[&str]) -> (p: Prompt)
        requires
            valid_words(texts_of(words@)),
            fits(texts_of(words@)),
        ensures
            p.wf(),
            p@ == texts_of(words@),
    {
        let mut texts: Vec<String> = Vec::new();
        let mut chars: Vec<Vec<char>> = Vec::new();
        let mut i: usize = 0;
        while i < words.len()
            invariant
                i <= words@.len(),
                texts@.len() == i,
                chars@.len() == i,
                forall|k: int| 0 <= k < i ==> #[trigger] texts@[k]@ == words@[k]@,
                forall|k: int| 0 <= k < i ==> #[trigger] chars@[k]@ == words@[k]@,
            decreases words@.len() - i,
        {
            let c = chars_of(words[i]);
            texts.push(string_of(c.as_slice()));
            chars.push(c);
            i += 1;
        }
        let p = Prompt { words: texts, chars };
        assert(p@ =~= texts_of(words@));
        p
    }

    /// A prompt of the given words, or `None` if there are none, a word is
    /// empty or holds whitespace, or the text is too long to index.
    pub fn try_new(words: &[&str]) -> (r: Option<Prompt>)
        ensures
            r is Some <==> (valid_words(texts_of(words@)) && fits(texts_of(words@))),
            r matches Some(p) ==> p.wf() && p@ == texts_of(words@),
    {
        let ghost ws = texts_of(words@);
        if words.len() == 0 {
            return None;
        }
        let mut total: usize = 1;
        let mut i: usize = 0;
        while i < words.len()
            invariant
                ws == texts_of(words@),
                i <= words@.len(),
                forall|k: int| 0 <= k < i ==> valid_word(#[trigger] ws[k]),
                total == 1 + spaced(ws.take(i as int)).len(),
            decreases words@.len() - i,
        {
            let c = chars_of(words[i]);
            assert(c@ == ws[i as int]);
            if c.len() == 0 {
                return None;
            }
            let mut j: usize = 0;
            while j < c.len()
                invariant
                    ws == texts_of(words@),
                    i < words@.len(),
                    j <= c@.len(),
                    c@ == ws[i as int],
                    forall|m: int| 0 <= m < j ==> !char_is_whitespace(#[trigger] c@[m]),
                decreases c@.len() - j,
            {
                if is_whitespace(c[j]) {
                    return None;
                }
                j += 1;
            }
            proof {
                lemma_spaced_take_next(ws, i as int);
                lemma_spaced_prefix(ws, i + 1);
            }
            if c.len() >= usize::MAX - total {
                proof {
                    assert(spaced(ws).len() >= spaced(ws.take(i + 1)).len());
                }
                return None;
            }
            total = total + c.len() + 1;
            i += 1;
        }
        proof {
            assert(ws.take(words@.len() as int) =~= ws);
        }
        Some(Prompt::new(words))
    }

    /// The words, as text.
    pub fn words(&self) -> (r: &[String])
        requires
            self.wf(),
        ensures
            r@.len() == self@.len(),
            forall|i: int| 0 <= i < r@.len() ==> #[trigger] r@[i]@ == self@[i],
    {
        self.words.as_slice()
    }

    /// One word, as text.
    pub fn word(&self, index: usize) -> (r: &str)
        requires
            self.wf(),
            index < self@.len(),
        ensures
            r@ == self@[index as int],
    {
        self.words[index].as_str()
    }

    /// One word's characters.
    pub fn word_chars(&self, index: usize) -> (r: &[char])
        requires
            self.wf(),
            index < self@.len(),
        ensures
            r@ == self@[index as int],
    {
        self.chars[index].as_slice()
    }

    /// The number of characters of one word.
    pub fn word_len(&self, index: usize) -> (r: usize)
        requires
            self.wf(),
            index < self@.len(),
        ensures
            r == self@[index as int].len(),
    {
        self.chars[index].len()
    }

    pub fn word_count(&self) -> (r: usize)
        requires
            self.wf(),
        ensures
            r == self@.len(),
    {
        self.chars.len()
    }

    /// An independent prompt with the same words.
    pub fn duplicate(&self) -> (r: Prompt)
        requires
            self.wf(),
        ensures
            r.wf(),
            r@ == self@,
    {
        let mut texts: Vec<String> = Vec::new();
        let mut chars: Vec<Vec<char>> = Vec::new();
        let mut i: usize = 0;
        while i < self.chars.len()
            invariant
                self.wf(),
                i <= self.chars@.len(),
                texts@.len() == i,
                chars@.len() == i,
                forall|k: int| 0 <= k < i ==> #[trigger] texts@[k]@ == self.chars@[k]@,
                forall|k: int| 0 <= k < i ==> #[trigger] chars@[k]@ == self.chars@[k]@,
            decreases self.chars@.len() - i,
        {
            let c = copy_chars(self.chars[i].as_slice());
            texts.push(string_of(c.as_slice()));
            chars.push(c);
            i += 1;
        }
        let r = Prompt { words: texts, chars };
        assert(r@ =~= self@);
        r
    }

    /// The padded text as characters: a space, then each word and a space.
    fn padded_chars(&self) -> (r: Vec<char>)
        requires
            self.wf(),
        ensures
            r@ == padded(self@),
    {
        let mut out: Vec<char> = Vec::new();
        out.push(' ');
        let mut k: usize = 0;
        while k < self.chars.len()
            invariant
                self.wf(),
                k <= self@.len(),
                out@ == seq![' '] + spaced(self@.take(k as int)),
            decreases self@.len() - k,
        {
            let word = self.chars[k].as_slice();
            let mut j: usize = 0;
            let ghost before = out@;
            while j < word.len()
                invariant
                    j <= word@.len(),
                    word@ == self@[k as int],
                    out@ == before + word@.take(j as int),
                decreases word@.len() - j,
            {
                out.push(word[j]);
                proof {
                    assert(word@.take(j + 1) == word@.take(j as int).push(word@[j as int]));
                }
                j += 1;
            }
            out.push(' ');
            proof {
                lemma_spaced_take_next(self@, k as int);
                assert(word@.take(word@.len() as int) == word@);
            }
            k += 1;
        }
        proof {
            assert(self@.take(self@.len() as int) =~= self@);
        }
        out
    }

    /// The prompt as shown: words joined by single spaces.
    pub fn text(&self) -> (r: String)
        requires
            self.wf(),
        ensures
            r@ == shown(self@),
    {
        let padded = self.padded_chars();
        proof {
            lemma_spaced_len(self@);
        }
        let inner = sub_chars(padded.as_slice(), 1, padded.len() - 1);
        assert(inner@ =~= shown(self@));
        string_of(inner.as_slice())
    }

    /// The character the prompt has at a slot.
    pub fn expected_at(&self, slot: Slot) -> (r: char)
        requires
            self.wf(),
            valid_slot(self@, slot),
        ensures
            r == expected_char(self@, slot),
    {
        let word = self.chars[slot.word].as_slice();
        if slot.position < word.len() {
            word[slot.position]
        } else {
            ' '
        }
    }

    /// The text of the space-padded prompt ending at a slot, up to a
    /// trigram: the chain of patterns a slot belongs to, deepest first.
    pub fn pattern_ending_at(&self, slot: Slot) -> (r: String)
        requires
            self.wf(),
            valid_slot(self@, slot),
        ensures
            r@ == pattern_at(self@, slot),
    {
        let padded = self.padded_chars();
        let index = self.slot_offset(slot);
        proof {
            lemma_padded_at_slot(self@, slot);
        }
        assert(padded@.len() == padded.len());
        let from = if index >= 2 { index - 2 } else { 0 };
        let chain = sub_chars(padded.as_slice(), from, index + 1);
        string_of(chain.as_slice())
    }

    /// The index of a slot within the padded text.
    fn slot_offset(&self, slot: Slot) -> (r: usize)
        requires
            self.wf(),
            valid_slot(self@, slot),
        ensures
            r == slot_index(self@, slot),
    {
        proof {
            lemma_padded_at_slot(self@, slot);
            lemma_spaced_prefix(self@, slot.word as int);
        }
        let mut offset: usize = 1;
        let mut k: usize = 0;
        while k < slot.word
            invariant
                self.wf(),
                valid_slot(self@, slot),
                k <= slot.word,
                offset == 1 + spaced(self@.take(k as int)).len(),
                slot_index(self@, slot) < padded(self@).len(),
                fits(self@),
            decreases slot.word - k,
        {
            proof {
                lemma_spaced_take_next(self@, k as int);
                lemma_spaced_prefix(self@, k + 1);
                lemma_spaced_prefix(self@.take(slot.word as int), k + 1);
                assert(self@.take(slot.word as int).take(k + 1) =~= self@.take(k + 1));
            }
            offset = offset + self.chars[k].len() + 1;
            k += 1;
        }
        offset + slot.position
    }

    /// Every slot of the prompt in order: each character and each separating
    /// space, but no space after the last word.
    pub fn slots(&self) -> (r: Vec<Slot>)
        requires
            self.wf(),
        ensures
            r@ == all_slots(self@),
    {
        let n = self.chars.len();
        proof {
            self.lemma_wf();
        }
        let mut out: Vec<Slot> = Vec::new();
        let mut w: usize = 0;
        while w < n
            invariant
                self.wf(),
                n == self@.len(),
                n > 0,
                forall|k: int| 0 <= k < self@.len() ==> #[trigger] self@[k].len() + 2 <= padded(self@).len(),
                fits(self@),
                w <= n,
                out@ == if w < n { slots_upto(self@, w as int) } else { all_slots(self@) },
            decreases n - w,
        {
            let len = self.chars[w].len();
            assert(self@[w as int].len() + 2 <= padded(self@).len());
            let count = if w + 1 < n { len + 1 } else { len };
            let mut p: usize = 0;
            let ghost before = out@;
            while p < count
                invariant
                    p <= count,
                    out@ == before + word_slots(w as int, p as nat),
                decreases count - p,
            {
                out.push(Slot { word: w, position: p });
                proof {
                    assert(word_slots(w as int, (p + 1) as nat) =~= word_slots(w as int, p as nat).push(
                        Slot { word: w, position: p },
                    ));
                }
                p += 1;
            }
            w += 1;
        }
        out
    }
}

} // verus!
