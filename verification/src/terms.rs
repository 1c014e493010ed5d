//! The terms of a text and how often each occurs.
use vstd::prelude::*;
use crate::order::Duplicate;
use crate::ordered_map::{insert_pair, OrderedMap};
use crate::text::chars_of;

verus! {

/// A text in lower case.
pub uninterp spec fn lowercase(text: Seq<char>) -> Seq<char>;

/// Whether a character is a letter or a number.
pub uninterp spec fn alphanumeric(c: char) -> bool;

/// Puts a text in lower case with `str::to_lowercase`, which follows Unicode. The claim is that the
/// result depends on the text alone.
#[verifier::external_body]
fn to_lowercase(text: &str) -> (r: String)
    ensures
        r@ == lowercase(text@),
{
    text.to_lowercase()
}

/// Asks `char::is_alphanumeric`, which follows Unicode. The claim is that the answer depends on the
/// character alone.
#[verifier::external_body]
fn is_alphanumeric(c: char) -> (r: bool)
    ensures
        r == alphanumeric(c),
{
    c.is_alphanumeric()
}

/// The words among the first `n` characters, the last of which may still grow; `marks` says which
/// characters belong to words.
pub open spec fn words_to(s: Seq<char>, marks: Seq<bool>, n: nat) -> (Seq<Seq<char>>, Seq<char>)
    decreases n,
{
    if n == 0 || n > s.len() {
        (Seq::empty(), Seq::empty())
    } else {
        let (done, open) = words_to(s, marks, (n - 1) as nat);
        if marks[n - 1] {
            (done, open.push(s[n - 1]))
        } else if open.len() == 0 {
            (done, open)
        } else {
            (done.push(open), Seq::empty())
        }
    }
}

/// The maximal runs of marked characters, in their order.
pub open spec fn words(s: Seq<char>, marks: Seq<bool>) -> Seq<Seq<char>> {
    let (done, open) = words_to(s, marks, s.len());
    if open.len() == 0 {
        done
    } else {
        done.push(open)
    }
}

/// The number of times each of the first `n` words occurs among them.
pub open spec fn tally(words: Seq<Seq<char>>, n: nat) -> Seq<(Seq<char>, usize)>
    decreases n,
{
    if n == 0 || n > words.len() {
        Seq::empty()
    } else {
        let before = tally(words, (n - 1) as nat);
        insert_pair::<String, usize>(
            before,
            words[n - 1],
            (occurrences(words, words[n - 1], n)) as usize,
        )
    }
}

/// How often a word is among the first `n`.
pub open spec fn occurrences(words: Seq<Seq<char>>, word: Seq<char>, n: nat) -> nat
    decreases n,
{
    if n == 0 || n > words.len() {
        0
    } else {
        occurrences(words, word, (n - 1) as nat) + if words[n - 1] == word {
            1nat
        } else {
            0nat
        }
    }
}

/// The maximal runs of marked characters.
pub fn split_words(text: &str, marks: &Vec<bool>) -> (r: Vec<String>)
    requires
        marks@.len() == text@.len(),
    ensures
        r.deep_view() == words(text@, marks@),
{
    let chars = chars_of(text);
    let mut done: Vec<String> = Vec::new();
    let mut start: usize = 0;
    let mut i: usize = 0;
    proof {
        assert(done.deep_view() =~= Seq::<Seq<char>>::empty());
        assert(text@.subrange(0, 0) =~= Seq::<char>::empty());
    }
    while i < chars.len()
        invariant
            start <= i <= chars@.len(),
            chars@ == text@,
            marks@.len() == text@.len(),
            (done.deep_view(), text@.subrange(start as int, i as int)) == words_to(
                text@,
                marks@,
                i as nat,
            ),
        decreases chars@.len() - i,
    {
        let ghost before = done.deep_view();
        let ghost open = text@.subrange(start as int, i as int);
        if marks[i] {
            proof {
                assert(text@.subrange(start as int, i + 1) =~= open.push(text@[i as int]));
            }
        } else {
            if start < i {
                let word = text.substring_char(start, i).to_owned();
                done.push(word);
                proof {
                    assert(done.deep_view() =~= before.push(word@));
                }
            }
            start = i + 1;
            proof {
                assert(text@.subrange(start as int, i + 1) =~= Seq::<char>::empty());
                if open.len() == 0 {
                    assert(open =~= Seq::<char>::empty());
                }
            }
        }
        i += 1;
    }
    if start < i {
        let ghost before = done.deep_view();
        let word = text.substring_char(start, i).to_owned();
        done.push(word);
        proof {
            assert(done.deep_view() =~= before.push(word@));
        }
    }
    done
}

/// The number of times each word occurs, in ascending order of the words.
pub fn count_words(list: &Vec<String>) -> (r: OrderedMap<String, usize>)
    ensures
        r.pairs() == tally(list.deep_view(), list@.len()),
{
    let ghost all = list.deep_view();
    let total: usize = list.len();
    let mut out: OrderedMap<String, usize> = OrderedMap::new();
    let mut i: usize = 0;
    while i < total
        invariant
            i <= total == list@.len(),
            all == list.deep_view(),
            out.pairs() == tally(all, i as nat),
        decreases total - i,
    {
        let mut n: usize = 1;
        let mut j: usize = 0;
        while j < i
            invariant
                j <= i < total == list@.len(),
                all == list.deep_view(),
                n == occurrences(all, list@[i as int]@, j as nat) + 1,
                n <= j + 1,
            decreases i - j,
        {
            proof {
                assert(all[j as int] == list@[j as int]@);
            }
            if crate::order::same_text(list[j].as_str(), list[i].as_str()) {
                n += 1;
            }
            j += 1;
        }
        proof {
            assert(all[i as int] == list@[i as int]@);
        }
        out.insert(list[i].duplicate(), n);
        i += 1;
    }
    out
}

/// Which characters of a text are letters or numbers.
pub open spec fn word_marks(s: Seq<char>) -> Seq<bool> {
    Seq::new(s.len(), |i: int| alphanumeric(s[i]))
}

/// The words of a text in lower case.
pub open spec fn terms_of(text: Seq<char>) -> Seq<Seq<char>> {
    words(lowercase(text), word_marks(lowercase(text)))
}

/// The number of times each term of a text occurs, and the number of terms in all.
pub fn term_counts(text: &str) -> (r: (OrderedMap<String, usize>, usize))
    ensures
        r.0.pairs() == tally(terms_of(text@), terms_of(text@).len()),
        r.1 == terms_of(text@).len(),
{
    let lower = to_lowercase(text);
    let chars = chars_of(lower.as_str());
    let mut marks: Vec<bool> = Vec::new();
    let mut i: usize = 0;
    while i < chars.len()
        invariant
            i <= chars@.len(),
            chars@ == lower@,
            marks@ == word_marks(lower@).take(i as int),
        decreases chars@.len() - i,
    {
        marks.push(is_alphanumeric(chars[i]));
        i += 1;
        proof {
            assert(marks@ =~= word_marks(lower@).take(i as int));
        }
    }
    proof {
        assert(marks@ =~= word_marks(lower@));
    }
    let list = split_words(lower.as_str(), &marks);
    (count_words(&list), list.len())
}

proof fn lemma_tally(words: Seq<Seq<char>>, n: nat, i: int)
    requires
        n <= words.len(),
        0 <= i < n,
    ensures
        crate::ordered_map::ascending::<String, usize>(tally(words, n)),
        crate::ordered_map::map_of(tally(words, n)).contains_key(words[i]),
        crate::ordered_map::map_of(tally(words, n))[words[i]] == occurrences(
            words,
            words[i],
            n,
        ) as usize,
    decreases n,
{
    let before = tally(words, (n - 1) as nat);
    if n > 1 {
        lemma_tally(words, (n - 1) as nat, if i < n - 1 {
            i
        } else {
            0
        });
    }
    crate::ordered_map::lemma_insert_pair::<String, usize>(
        before,
        words[n - 1],
        occurrences(words, words[n - 1], n) as usize,
    );
}

/// Each word of a text is counted as often as it occurs.
pub proof fn law_term_counted(words: Seq<Seq<char>>, i: int)
    requires
        0 <= i < words.len(),
    ensures
        crate::ordered_map::map_of(tally(words, words.len())).contains_key(words[i]),
        crate::ordered_map::map_of(tally(words, words.len()))[words[i]] == occurrences(
            words,
            words[i],
            words.len(),
        ) as usize,
{
    lemma_tally(words, words.len(), i);
}

} // verus!
