//! Words of a text, and how often each occurs.

use vstd::hash_map::StringHashMap;
use vstd::prelude::*;

verus! {

/// The lower-case form of an ASCII capital; any other character is itself.
pub open spec fn lowered(c: char) -> char {
    if 'A' <= c <= 'Z' {
        ((c as u32) + 32) as char
    } else {
        c
    }
}

/// Whether `c` is one of the letters `a` to `z`.
pub open spec fn is_lower_letter(c: char) -> bool {
    'a' <= c <= 'z'
}

/// Whether `c` ends a word: space, tab, line feed, form feed or carriage
/// return.
pub open spec fn breaks_word(c: char) -> bool {
    c == ' ' || c == '\t' || c == '\n' || c == '\x0C' || c == '\r'
}

/// Whether `c` is white space as Unicode defines it.
pub uninterp spec fn white_space(c: char) -> bool;

/// Whether a character of a text is kept: lower-cased, it is a letter `a` to
/// `z` or white space. Any other character is dropped, and joins what stands
/// on either side of it.
pub open spec fn kept(c: char) -> bool {
    is_lower_letter(lowered(c)) || white_space(lowered(c))
}

/// The words that `text` has finished, and the word that it is in the middle
/// of (empty between words).
pub open spec fn scan(text: Seq<char>) -> (Seq<Seq<char>>, Seq<char>)
    decreases text.len(),
{
    if text.len() == 0 {
        (Seq::empty(), Seq::empty())
    } else {
        let (done, current) = scan(text.drop_last());
        let c = lowered(text.last());
        if !kept(text.last()) {
            (done, current)
        } else if !breaks_word(c) {
            (done, current.push(c))
        } else if current.len() > 0 {
            (done.push(current), Seq::empty())
        } else {
            (done, current)
        }
    }
}

/// The words of `text`, in order: the text is lower-cased, everything but
/// letters `a` to `z` and white space is dropped, and what is left is split
/// at spaces, tabs, line feeds, form feeds and carriage returns. No word is
/// empty.
pub open spec fn words_of(text: Seq<char>) -> Seq<Seq<char>> {
    let (done, current) = scan(text);
    if current.len() > 0 {
        done.push(current)
    } else {
        done
    }
}

/// What each of `words` holds.
pub open spec fn texts(words: Seq<String>) -> Seq<Seq<char>> {
    words.map_values(|w: String| w@)
}

/// [`char::is_whitespace`]: whether the character has the Unicode property
/// `White_Space`. The contract gives that answer a name and claims no more.
#[verifier::external_body]
fn is_white_space(c: char) -> (white: bool)
    ensures
        white == white_space(c),
{
    c.is_whitespace()
}

/// [`String::push`]: the character is appended at the end of the string.
#[verifier::external_body]
fn push_char(word: &mut String, c: char)
    ensures
        final(word)@ == old(word)@.push(c),
{
    word.push(c)
}

fn lower(c: char) -> (l: char)
    ensures
        l == lowered(c),
{
    if 'A' <= c && c <= 'Z' {
        ((c as u8) + 32) as char
    } else {
        c
    }
}

fn is_break(c: char) -> (b: bool)
    ensures
        b == breaks_word(c),
{
    c == ' ' || c == '\t' || c == '\n' || c == '\x0C' || c == '\r'
}

/// Splits `text` into its words.
pub fn split_words(text: &str) -> (words: Vec<String>)
    ensures
        texts(words@) == words_of(text@),
{
    let mut words: Vec<String> = Vec::new();
    let mut current = String::new();
    let ghost all = text@;
    assert(texts(words@) == Seq::<Seq<char>>::empty());
    for c in it: text.chars()
        invariant
            it.seq() == all,
            all == text@,
            (texts(words@), current@) == scan(all.take(it.index())),
    {
        proof {
            assert(all.take(it.index() + 1).drop_last() == all.take(it.index()));
        }
        let l = lower(c);
        if ('a' <= l && l <= 'z') || is_white_space(l) {
            if !is_break(l) {
                push_char(&mut current, l);
            } else if !current.as_str().is_empty() {
                proof {
                    assert(texts(words@.push(current)) == texts(words@).push(current@));
                }
                words.push(current);
                current = String::new();
            }
        }
    }
    assert(all.take(all.len() as int) == all);
    if !current.as_str().is_empty() {
        proof {
            assert(texts(words@.push(current)) == texts(words@).push(current@));
        }
        words.push(current);
    }
    words
}

/// The words of a table, in its order.
pub open spec fn words_in(entries: Seq<(Seq<char>, nat)>) -> Seq<Seq<char>> {
    entries.map_values(|e: (Seq<char>, nat)| e.0)
}

/// How often `word` was counted: the number beside it, or 0 where the table
/// does not have it.
pub open spec fn count_in(entries: Seq<(Seq<char>, nat)>, word: Seq<char>) -> nat {
    if words_in(entries).contains(word) {
        entries[words_in(entries).index_of(word)].1
    } else {
        0
    }
}

/// The table with `word` counted once more: its number goes up by one, or,
/// where the table does not have it, it is added at the end with 1.
pub open spec fn bumped(entries: Seq<(Seq<char>, nat)>, word: Seq<char>) -> Seq<(Seq<char>, nat)> {
    if words_in(entries).contains(word) {
        let i = words_in(entries).index_of(word);
        entries.update(i, (word, entries[i].1 + 1))
    } else {
        entries.push((word, 1))
    }
}

/// The table with each of `words` counted, one after the other.
pub open spec fn tallied(entries: Seq<(Seq<char>, nat)>, words: Seq<Seq<char>>) -> Seq<
    (Seq<char>, nat),
>
    decreases words.len(),
{
    if words.len() == 0 {
        entries
    } else {
        bumped(tallied(entries, words.drop_last()), words.last())
    }
}

/// The test that picks `word` out of a list of words.
pub open spec fn is_word(word: Seq<char>) -> spec_fn(Seq<char>) -> bool {
    |w: Seq<char>| w == word
}

/// How often `word` stands in `words`.
pub open spec fn occurrences(words: Seq<Seq<char>>, word: Seq<char>) -> nat {
    words.filter(is_word(word)).len()
}

/// Counting a word in a table without repeats leaves it without repeats,
/// raises the number of that word by one and leaves every other number.
pub proof fn lemma_bumped_count(entries: Seq<(Seq<char>, nat)>, word: Seq<char>, other: Seq<char>)
    requires
        words_in(entries).no_duplicates(),
    ensures
        words_in(bumped(entries, word)).no_duplicates(),
        count_in(bumped(entries, word), other) == count_in(entries, other) + (if other == word {
            1nat
        } else {
            0
        }),
{
    let list = words_in(entries);
    let after = bumped(entries, word);
    let longer = words_in(after);
    if list.contains(word) {
        let i = list.index_of(word);
        assert(longer == list);
        if list.contains(other) {
            let j = list.index_of(other);
            if other != word {
                assert(after[j] == entries[j]);
            }
        }
    } else {
        assert(longer == list.push(word));
        assert(longer[list.len() as int] == word);
        if other == word {
            let k = longer.index_of(word);
            if k < list.len() {
                assert(list[k] == word);
            }
        } else if list.contains(other) {
            let j = list.index_of(other);
            assert(longer[j] == other);
            let k = longer.index_of(other);
            assert(list[k] == other);
        } else if longer.contains(other) {
            let k = longer.index_of(other);
            assert(list[k] == other);
        }
    }
}

/// After counting, the number of a word is what it was and how often the
/// word stands among the words counted.
pub proof fn lemma_tallied_count(
    entries: Seq<(Seq<char>, nat)>,
    words: Seq<Seq<char>>,
    word: Seq<char>,
)
    requires
        words_in(entries).no_duplicates(),
    ensures
        words_in(tallied(entries, words)).no_duplicates(),
        count_in(tallied(entries, words), word) == count_in(entries, word) + occurrences(
            words,
            word,
        ),
    decreases words.len(),
{
    if words.len() == 0 {
        words.lemma_filter_len(is_word(word));
        assert(occurrences(words, word) == 0);
    } else {
        let front = words.drop_last();
        let last = words.last();
        lemma_tallied_count(entries, front, word);
        lemma_bumped_count(tallied(entries, front), last, word);
        assert(words == front.push(last));
        front.lemma_filter_push(last, is_word(word));
        assert(occurrences(words, word) == occurrences(front, word) + (if last == word {
            1nat
        } else {
            0
        }));
    }
}

/// Counting a word adds it to the words of the table, and nothing else.
pub proof fn lemma_bumped_words(entries: Seq<(Seq<char>, nat)>, word: Seq<char>)
    ensures
        words_in(bumped(entries, word)).to_set() == words_in(entries).to_set().insert(word),
{
    let list = words_in(entries);
    if list.contains(word) {
        let i = list.index_of(word);
        assert(words_in(bumped(entries, word)) == list);
        assert(list.to_set().insert(word) == list.to_set());
    } else {
        assert(words_in(bumped(entries, word)) == list.push(word));
        list.lemma_push_to_set_commute(word);
    }
}

/// The words of a table after counting are those it had and those counted.
pub proof fn lemma_tallied_words(entries: Seq<(Seq<char>, nat)>, words: Seq<Seq<char>>)
    ensures
        words_in(tallied(entries, words)).to_set() == words_in(entries).to_set().union(
            words.to_set(),
        ),
    decreases words.len(),
{
    if words.len() == 0 {
        assert(words.to_set() == Set::<Seq<char>>::empty());
        assert(words_in(entries).to_set().union(words.to_set()) == words_in(entries).to_set());
    } else {
        let front = words.drop_last();
        lemma_tallied_words(entries, front);
        lemma_bumped_words(tallied(entries, front), words.last());
        assert(words == front.push(words.last()));
        front.lemma_push_to_set_commute(words.last());
        assert(words_in(entries).to_set().union(front.to_set()).insert(words.last())
            == words_in(entries).to_set().union(front.to_set().insert(words.last())));
    }
}

/// How many bytes `word` takes as text (UTF-8).
pub open spec fn byte_len(word: Seq<char>) -> nat {
    vstd::utf8::encode_utf8(word).len()
}

/// What a list of words with numbers holds.
pub open spec fn pairs(list: Seq<(String, usize)>) -> Seq<(Seq<char>, nat)> {
    list.map_values(|e: (String, usize)| (e.0@, e.1 as nat))
}

/// Every word of either table with the number that `other` has for it, 0
/// where it has none: first the words of `base`, in its order, then those
/// that only `other` has, in its order.
pub open spec fn common_of(base: Seq<(Seq<char>, nat)>, other: Seq<(Seq<char>, nat)>) -> Seq<
    (Seq<char>, nat),
> {
    base.map_values(|e: (Seq<char>, nat)| (e.0, count_in(other, e.0))) + other.filter(
        |e: (Seq<char>, nat)| !words_in(base).contains(e.0),
    )
}

/// A word counts as really common when it was counted more often than this.
pub const COMMON_COUNT: usize = 100;

/// A word counts as really common when it takes more bytes than this.
pub const COMMON_LENGTH: usize = 4;

/// The really common words of a list: those counted more than
/// [`COMMON_COUNT`] times that take more than [`COMMON_LENGTH`] bytes, in
/// the order of the list.
pub open spec fn really_common_of(list: Seq<(Seq<char>, nat)>) -> Seq<Seq<char>> {
    words_in(list.filter(|e: (Seq<char>, nat)| e.1 > COMMON_COUNT && byte_len(e.0) > COMMON_LENGTH))
}

/// The bytes of all the words counted: for each word its bytes, times its
/// number.
pub open spec fn letters_in(entries: Seq<(Seq<char>, nat)>) -> nat
    decreases entries.len(),
{
    if entries.len() == 0 {
        0
    } else {
        letters_in(entries.drop_last()) + byte_len(entries.last().0) * entries.last().1
    }
}

/// The bytes of the first words of a table are no more than those of all.
pub proof fn lemma_letters_grow(entries: Seq<(Seq<char>, nat)>, upto: int)
    requires
        0 <= upto <= entries.len(),
    ensures
        letters_in(entries.take(upto)) <= letters_in(entries),
    decreases entries.len(),
{
    if upto == entries.len() {
        assert(entries.take(upto) == entries);
    } else {
        lemma_letters_grow(entries.drop_last(), upto);
        assert(entries.drop_last().take(upto) == entries.take(upto));
        assert(byte_len(entries.last().0) * entries.last().1 >= 0) by (nonlinear_arith);
    }
}

/// The really common words of `common`.
pub fn really_common(common: &Vec<(String, usize)>) -> (words: Vec<String>)
    ensures
        texts(words@) == really_common_of(pairs(common@)),
{
    let mut words: Vec<String> = Vec::new();
    let ghost all = pairs(common@);
    let ghost keep = |e: (Seq<char>, nat)| e.1 > COMMON_COUNT && byte_len(e.0) > COMMON_LENGTH;
    let mut i: usize = 0;
    proof {
        all.take(0).lemma_filter_len(keep);
        assert(texts(words@) == words_in(all.take(0).filter(keep)));
    }
    while i < common.len()
        invariant
            i <= common.len(),
            all == pairs(common@),
            keep == |e: (Seq<char>, nat)| e.1 > COMMON_COUNT && byte_len(e.0) > COMMON_LENGTH,
            texts(words@) == words_in(all.take(i as int).filter(keep)),
        decreases common.len() - i,
    {
        proof {
            let k = i as int;
            assert(all.take(k + 1) == all.take(k).push(all[k]));
            all.take(k).lemma_filter_push(all[k], keep);
            assert(all[k] == (common@[k].0@, common@[k].1 as nat));
        }
        if common[i].1 > COMMON_COUNT && common[i].0.as_str().as_bytes().len() > COMMON_LENGTH {
            let word = common[i].0.clone();
            proof {
                let kept = all.take(i as int).filter(keep);
                assert(texts(words@.push(word)) == texts(words@).push(word@));
                assert(words_in(kept.push(all[i as int])) == words_in(kept).push(all[i as int].0));
            }
            words.push(word);
        }
        i += 1;
    }
    assert(all.take(all.len() as int) == all);
    words
}

/// A text has no more words than characters.
pub proof fn lemma_words_fit(text: Seq<char>)
    ensures
        scan(text).0.len() + (if scan(text).1.len() > 0 { 1int } else { 0 }) <= text.len(),
        words_of(text).len() <= text.len(),
    decreases text.len(),
{
    if text.len() > 0 {
        lemma_words_fit(text.drop_last());
    }
}

/// How often each word occurs: the words in the order in which they first
/// occurred, each once, with its number.
pub struct WordCounts {
    words: Vec<String>,
    counts: Vec<usize>,
    index: StringHashMap<usize>,
    total: usize,
}

impl View for WordCounts {
    type V = Seq<(Seq<char>, nat)>;

    closed spec fn view(&self) -> Seq<(Seq<char>, nat)> {
        Seq::new(self.words@.len(), |i: int| (self.words@[i]@, self.counts@[i] as nat))
    }
}

impl WordCounts {
    /// Whether the table is in order: every word stands once and can be found
    /// by its text, and no number is above the number of words counted.
    pub closed spec fn wf(&self) -> bool {
        &&& self.words@.len() == self.counts@.len()
        &&& forall|i: int|
            0 <= i < self.words@.len() ==> self.index@.contains_key((#[trigger] self.words@[i])@)
                && self.index@[self.words@[i]@] == i
        &&& forall|k: Seq<char>| #[trigger]
            self.index@.contains_key(k) ==> self.index@[k] < self.words@.len()
                && self.words@[self.index@[k] as int]@ == k
        &&& forall|i: int| 0 <= i < self.counts@.len() ==> #[trigger] self.counts@[i] <= self.total
    }

    /// How many words have been counted, each as often as it occurred.
    pub closed spec fn counted(&self) -> nat {
        self.total as nat
    }

    /// In a table that is in order no word stands twice, and a word is in it
    /// exactly when its count is found.
    pub proof fn lemma_words_distinct(&self)
        requires
            self.wf(),
        ensures
            words_in(self@).no_duplicates(),
            forall|i: int| 0 <= i < self@.len() ==> (#[trigger] self@[i]).1 <= self.counted(),
    {
        assert forall|i: int, j: int|
            0 <= i < words_in(self@).len() && 0 <= j < words_in(self@).len() && i != j implies words_in(
            self@,
        )[i] != words_in(self@)[j] by {
            assert(self.index@[self.words@[i]@] == i);
            assert(self.index@[self.words@[j]@] == j);
        }
        assert forall|i: int| 0 <= i < self@.len() implies (#[trigger] self@[i]).1
            <= self.counted() by {
            assert(self.counts@[i] <= self.total);
        }
    }

    /// The empty table.
    pub fn new() -> (table: WordCounts)
        ensures
            table.wf(),
            table@ == Seq::<(Seq<char>, nat)>::empty(),
            table.counted() == 0,
    {
        WordCounts { words: Vec::new(), counts: Vec::new(), index: StringHashMap::new(), total: 0 }
    }

    /// How many different words the table has.
    pub fn len(&self) -> (n: usize)
        requires
            self.wf(),
        ensures
            n == self@.len(),
    {
        self.words.len()
    }

    /// How many words have been counted, each as often as it occurred.
    pub fn total(&self) -> (n: usize)
        ensures
            n == self.counted(),
    {
        self.total
    }

    /// The words, in the order in which they first occurred.
    pub fn words(&self) -> (words: &Vec<String>)
        requires
            self.wf(),
        ensures
            texts(words@) == words_in(self@),
    {
        assert(texts(self.words@) == words_in(self@));
        &self.words
    }

    /// Whether the table has `word`.
    pub fn contains(&self, word: &str) -> (found: bool)
        requires
            self.wf(),
        ensures
            found == words_in(self@).contains(word@),
    {
        proof {
            self.lemma_found(word@);
        }
        self.index.contains_key(word)
    }

    /// How often `word` was counted.
    pub fn count(&self, word: &str) -> (n: usize)
        requires
            self.wf(),
        ensures
            n == count_in(self@, word@),
    {
        proof {
            self.lemma_found(word@);
        }
        match self.index.get(word) {
            Some(i) => self.counts[*i],
            None => 0,
        }
    }

    /// Where the index finds a word, the table has it there and nowhere
    /// else; where it does not, the table does not have the word.
    proof fn lemma_found(&self, word: Seq<char>)
        requires
            self.wf(),
        ensures
            self.index@.contains_key(word) == words_in(self@).contains(word),
            self.index@.contains_key(word) ==> words_in(self@).index_of(word) == self.index@[word],
    {
        let list = words_in(self@);
        if self.index@.contains_key(word) {
            let i = self.index@[word] as int;
            assert(list[i] == word);
            let j = list.index_of(word);
            assert(self.index@[self.words@[j]@] == j);
        }
        if list.contains(word) {
            let j = list.index_of(word);
            assert(self.index@.contains_key(self.words@[j]@));
        }
    }

    /// Every word of either table with the number that `other` has for it.
    pub fn common_words(&self, other: &WordCounts) -> (common: Vec<(String, usize)>)
        requires
            self.wf(),
            other.wf(),
        ensures
            pairs(common@) == common_of(self@, other@),
    {
        let mut common: Vec<(String, usize)> = Vec::new();
        let ghost base = self@;
        let ghost theirs = other@;
        let ghost first = base.map_values(|e: (Seq<char>, nat)| (e.0, count_in(theirs, e.0)));
        let ghost fresh = |e: (Seq<char>, nat)| !words_in(base).contains(e.0);
        let mut i: usize = 0;
        while i < self.words.len()
            invariant
                i <= self.words.len(),
                self.wf(),
                other.wf(),
                base == self@,
                theirs == other@,
                first == base.map_values(|e: (Seq<char>, nat)| (e.0, count_in(theirs, e.0))),
                pairs(common@) == first.take(i as int),
            decreases self.words.len() - i,
        {
            let n: usize = other.count(self.words[i].as_str());
            let word = self.words[i].clone();
            proof {
                assert(pairs(common@.push((word, n))) == pairs(common@).push((word@, n as nat)));
                assert(first.take(i + 1) == first.take(i as int).push(first[i as int]));
            }
            common.push((word, n));
            i += 1;
        }
        assert(first.take(first.len() as int) == first);
        let mut j: usize = 0;
        proof {
            theirs.take(0).lemma_filter_len(fresh);
            assert(first + theirs.take(0).filter(fresh) == first);
        }
        while j < other.words.len()
            invariant
                j <= other.words.len(),
                self.wf(),
                other.wf(),
                base == self@,
                theirs == other@,
                fresh == |e: (Seq<char>, nat)| !words_in(base).contains(e.0),
                pairs(common@) == first + theirs.take(j as int).filter(fresh),
            decreases other.words.len() - j,
        {
            proof {
                let k = j as int;
                assert(theirs.take(k + 1) == theirs.take(k).push(theirs[k]));
                theirs.take(k).lemma_filter_push(theirs[k], fresh);
            }
            if !self.contains(other.words[j].as_str()) {
                let word = other.words[j].clone();
                let n: usize = other.counts[j];
                proof {
                    let sofar = theirs.take(j as int).filter(fresh);
                    assert(pairs(common@.push((word, n))) == pairs(common@).push(
                        (word@, n as nat),
                    ));
                    assert((first + sofar).push(theirs[j as int]) == first + sofar.push(
                        theirs[j as int],
                    ));
                }
                common.push((word, n));
            }
            j += 1;
        }
        assert(theirs.take(theirs.len() as int) == theirs);
        common
    }

    /// The bytes of all the words counted, or `None` where that number does
    /// not fit.
    pub fn letters(&self) -> (sum: Option<usize>)
        requires
            self.wf(),
        ensures
            match sum {
                Some(n) => n == letters_in(self@),
                None => letters_in(self@) > usize::MAX,
            },
    {
        let ghost all = self@;
        let mut sum: usize = 0;
        let mut i: usize = 0;
        while i < self.words.len()
            invariant
                i <= self.words.len(),
                self.wf(),
                all == self@,
                sum == letters_in(all.take(i as int)),
            decreases self.words.len() - i,
        {
            proof {
                let k = i as int;
                assert(all.take(k + 1).drop_last() == all.take(k));
                lemma_letters_grow(all, k + 1);
            }
            let size: usize = self.words[i].as_str().as_bytes().len();
            match size.checked_mul(self.counts[i]) {
                None => {
                    return None;
                },
                Some(more) => match sum.checked_add(more) {
                    None => {
                        return None;
                    },
                    Some(next) => {
                        sum = next;
                    },
                },
            }
            i += 1;
        }
        assert(all.take(all.len() as int) == all);
        Some(sum)
    }

    /// Counts `word` once more.
    pub fn add_word(&mut self, word: String)
        requires
            old(self).wf(),
            old(self).counted() < usize::MAX,
        ensures
            final(self).wf(),
            final(self)@ == bumped(old(self)@, word@),
            final(self).counted() == old(self).counted() + 1,
    {
        proof {
            self.lemma_found(word@);
        }
        let found: Option<usize> = match self.index.get(word.as_str()) {
            Some(i) => Some(*i),
            None => None,
        };
        match found {
            Some(i) => {
                let n: usize = self.counts[i];
                self.counts.set(i, n + 1);
                self.total = self.total + 1;
                assert(self@ == bumped(old(self)@, word@));
            },
            None => {
                let at: usize = self.words.len();
                self.index.insert(word.clone(), at);
                self.words.push(word);
                self.counts.push(1);
                self.total = self.total + 1;
                assert(self@ == bumped(old(self)@, word@));
            },
        }
    }

    /// Counts every word of `text`.
    pub fn add_text(&mut self, text: &str)
        requires
            old(self).wf(),
            old(self).counted() + text@.len() <= usize::MAX,
        ensures
            final(self).wf(),
            final(self)@ == tallied(old(self)@, words_of(text@)),
            final(self).counted() == old(self).counted() + words_of(text@).len(),
    {
        let words = split_words(text);
        let ghost all = words@;
        let ghost before = self@;
        let ghost start = self.counted();
        proof {
            lemma_words_fit(text@);
            assert(texts(all).len() == all.len());
            assert(texts(all.take(0)) == Seq::<Seq<char>>::empty());
        }
        for word in it: words
            invariant
                it.seq() == all,
                self.wf(),
                self@ == tallied(before, texts(all.take(it.index()))),
                self.counted() == start + it.index(),
                start + all.len() <= usize::MAX,
        {
            proof {
                let k = it.index();
                assert(all.take(k + 1) == all.take(k).push(all[k]));
                assert(texts(all.take(k + 1)) == texts(all.take(k)).push(all[k]@));
                assert(texts(all.take(k + 1)).drop_last() == texts(all.take(k)));
            }
            self.add_word(word);
        }
        assert(all.take(all.len() as int) == all);
    }
}

} // verus!
