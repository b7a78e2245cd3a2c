//! Which words of two tables sound alike.

use crate::lyrics::{lemma_tallied_words, tallied, texts, words_in, WordCounts};
use vstd::prelude::*;

verus! {

/// The American Soundex code of `word`: the code under which words that sound
/// alike in English are filed together.
pub uninterp spec fn soundex_of(word: Seq<char>) -> Seq<char>;

/// `soundex::american_soundex`: the code of the word. The function reads only
/// its argument, so the same word always has the same code; the contract
/// gives that code a name and claims no more of it.
#[verifier::external_body]
fn american_soundex(word: &str) -> (code: String)
    ensures
        code@ == soundex_of(word@),
{
    soundex::american_soundex(word)
}

/// The code of each word, in order.
pub open spec fn codes_of(words: Seq<Seq<char>>) -> Seq<Seq<char>> {
    words.map_values(|w: Seq<char>| soundex_of(w))
}

/// The different codes that the words have.
pub open spec fn sounds_of(words: Seq<Seq<char>>) -> Set<Seq<char>> {
    codes_of(words).to_set()
}

/// How the sounds of two lists of words overlap.
#[derive(Debug, PartialEq, Eq)]
pub struct SoundOverlap {
    /// How many codes both lists have.
    pub shared: usize,
    /// How many codes only the first list has.
    pub only_first: usize,
    /// How many codes only the second list has.
    pub only_second: usize,
}

/// The codes of `words`, each counted as often as a word has it, in the order
/// in which they first occur.
pub fn sound_codes(words: &Vec<String>) -> (codes: WordCounts)
    ensures
        codes.wf(),
        codes@ == tallied(Seq::empty(), codes_of(texts(words@))),
        words_in(codes@).to_set() == sounds_of(texts(words@)),
        codes.counted() == words@.len(),
{
    let mut codes = WordCounts::new();
    let ghost all = texts(words@);
    let mut i: usize = 0;
    assert(codes_of(all.take(0)) == Seq::<Seq<char>>::empty());
    while i < words.len()
        invariant
            i <= words.len(),
            all == texts(words@),
            codes.wf(),
            codes.counted() == i,
            codes@ == tallied(Seq::empty(), codes_of(all.take(i as int))),
        decreases words.len() - i,
    {
        let code = american_soundex(words[i].as_str());
        proof {
            let k = i as int;
            assert(all.take(k + 1) == all.take(k).push(all[k]));
            assert(codes_of(all.take(k + 1)) == codes_of(all.take(k)).push(soundex_of(all[k])));
            assert(codes_of(all.take(k + 1)).drop_last() == codes_of(all.take(k)));
        }
        codes.add_word(code);
        i += 1;
    }
    proof {
        assert(all.take(all.len() as int) == all);
        lemma_tallied_words(Seq::empty(), codes_of(all));
        assert(words_in(Seq::<(Seq<char>, nat)>::empty()).to_set() == Set::<Seq<char>>::empty());
        assert(Set::<Seq<char>>::empty().union(codes_of(all).to_set()) == codes_of(all).to_set());
    }
    codes
}

/// Among the first `upto` of words that do not repeat, those in `other` and
/// those not in it make up all of them: one more word adds one to one side.
proof fn lemma_split_grows(list: Seq<Seq<char>>, other: Set<Seq<char>>, upto: int)
    requires
        list.no_duplicates(),
        0 <= upto < list.len(),
    ensures
        list.take(upto).to_set().finite(),
        other.contains(list[upto]) ==> {
            &&& list.take(upto + 1).to_set().intersect(other).len() == list.take(
                upto,
            ).to_set().intersect(other).len() + 1
            &&& list.take(upto + 1).to_set().difference(other) == list.take(
                upto,
            ).to_set().difference(other)
        },
        !other.contains(list[upto]) ==> {
            &&& list.take(upto + 1).to_set().difference(other).len() == list.take(
                upto,
            ).to_set().difference(other).len() + 1
            &&& list.take(upto + 1).to_set().intersect(other) == list.take(
                upto,
            ).to_set().intersect(other)
        },
{
    broadcast use vstd::set::group_set_axioms;
    broadcast use vstd::seq_lib::seq_to_set_is_finite;
    let before = list.take(upto).to_set();
    let after = list.take(upto + 1).to_set();
    let x = list[upto];
    assert(list.take(upto + 1) == list.take(upto).push(x));
    list.take(upto).lemma_push_to_set_commute(x);
    assert(!before.contains(x)) by {
        if before.contains(x) {
            let j = choose|j: int| 0 <= j < list.take(upto).len() && list.take(upto)[j] == x;
            assert(list[j] == list[upto]);
        }
    }
    if other.contains(x) {
        assert(after.intersect(other) == before.intersect(other).insert(x));
        assert(after.difference(other) == before.difference(other));
    } else {
        assert(after.difference(other) == before.difference(other).insert(x));
        assert(after.intersect(other) == before.intersect(other));
    }
}

/// How many of the different codes of `first` are among the codes of `second`,
/// and how many are not.
fn split_by(first: &WordCounts, second: &WordCounts) -> (split: (usize, usize))
    requires
        first.wf(),
        second.wf(),
    ensures
        split.0 == words_in(first@).to_set().intersect(words_in(second@).to_set()).len(),
        split.1 == words_in(first@).to_set().difference(words_in(second@).to_set()).len(),
{
    broadcast use vstd::set::group_set_axioms;
    let list = first.words();
    let ghost all = words_in(first@);
    let ghost other = words_in(second@).to_set();
    let mut inside: usize = 0;
    let mut outside: usize = 0;
    let mut i: usize = 0;
    proof {
        first.lemma_words_distinct();
        assert(all.take(0).to_set() == Set::<Seq<char>>::empty());
        assert(all.take(0).to_set().intersect(other) == Set::<Seq<char>>::empty());
        assert(all.take(0).to_set().difference(other) == Set::<Seq<char>>::empty());
    }
    while i < list.len()
        invariant
            i <= list.len(),
            second.wf(),
            texts(list@) == all,
            all.no_duplicates(),
            other == words_in(second@).to_set(),
            inside + outside == i,
            inside == all.take(i as int).to_set().intersect(other).len(),
            outside == all.take(i as int).to_set().difference(other).len(),
        decreases list.len() - i,
    {
        proof {
            assert(all.len() == list@.len());
            assert(all[i as int] == list@[i as int]@);
            lemma_split_grows(all, other, i as int);
        }
        if second.contains(list[i].as_str()) {
            inside += 1;
        } else {
            outside += 1;
        }
        i += 1;
    }
    assert(all.take(all.len() as int) == all);
    (inside, outside)
}

/// Compares how the words of two tables sound: how many Soundex codes occur
/// in both, and how many in one of them only.
pub fn compare_sounds(first: &WordCounts, second: &WordCounts) -> (overlap: SoundOverlap)
    requires
        first.wf(),
        second.wf(),
    ensures
        overlap.shared == sounds_of(words_in(first@)).intersect(sounds_of(words_in(second@))).len(),
        overlap.only_first == sounds_of(words_in(first@)).difference(
            sounds_of(words_in(second@)),
        ).len(),
        overlap.only_second == sounds_of(words_in(second@)).difference(
            sounds_of(words_in(first@)),
        ).len(),
{
    let ours = sound_codes(first.words());
    let theirs = sound_codes(second.words());
    let here = split_by(&ours, &theirs);
    let there = split_by(&theirs, &ours);
    SoundOverlap { shared: here.0, only_first: here.1, only_second: there.1 }
}

} // verus!
