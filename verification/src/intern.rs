//! Tables of distinct strings, numbered in the order of their first appearance.

use vstd::hash_map::StringHashMap;
use vstd::prelude::*;

use crate::text::texts;

verus! {

/// The table after one more word: unchanged where it holds the word already.
pub open spec fn with_word(table: Seq<Seq<char>>, word: Seq<char>) -> Seq<Seq<char>> {
    if table.contains(word) {
        table
    } else {
        table.push(word)
    }
}

/// The distinct words of a list, in the order of their first appearance.
pub open spec fn first_occurrences(words: Seq<Seq<char>>) -> Seq<Seq<char>>
    decreases words.len(),
{
    if words.len() == 0 {
        Seq::empty()
    } else {
        with_word(first_occurrences(words.drop_last()), words.last())
    }
}

/// Where a word stands in a table of distinct words.
pub open spec fn place(table: Seq<Seq<char>>, word: Seq<char>) -> int {
    table.index_of(word)
}

/// In a table of distinct words, the word at `i` has the place `i`.
pub proof fn lemma_place(table: Seq<Seq<char>>, i: int)
    requires
        table.no_duplicates(),
        0 <= i < table.len(),
    ensures
        place(table, table[i]) == i,
{
    assert(table.contains(table[i]));
    let p = place(table, table[i]);
    assert(0 <= p < table.len() && table[p] == table[i]);
}

/// A word keeps its place while words are added to the table.
pub proof fn lemma_place_kept(table: Seq<Seq<char>>, longer: Seq<Seq<char>>, word: Seq<char>)
    requires
        longer.no_duplicates(),
        table.is_prefix_of(longer),
        table.contains(word),
    ensures
        longer.contains(word),
        place(longer, word) == place(table, word),
{
    let i = place(table, word);
    assert(table[i] == longer[i]);
    lemma_place(longer, i);
}

/// The table holds each word of the list, each once, and nothing else.
pub proof fn law_first_occurrences(words: Seq<Seq<char>>)
    ensures
        first_occurrences(words).no_duplicates(),
        forall|w: Seq<char>| #[trigger] first_occurrences(words).contains(w) <==> words.contains(w),
    decreases words.len(),
{
    let table = first_occurrences(words);
    if words.len() > 0 {
        let shorter = words.drop_last();
        let last = words.last();
        law_first_occurrences(shorter);
        assert(words =~= shorter.push(last));
        assert forall|w: Seq<char>| #[trigger] table.contains(w) <==> words.contains(w) by {
            if words.contains(w) {
                if w != last {
                    let i = words.index_of(w);
                    assert(shorter[i] == w);
                    assert(first_occurrences(shorter).contains(w));
                    let j = first_occurrences(shorter).index_of(w);
                    assert(table[j] == w);
                } else if !first_occurrences(shorter).contains(last) {
                    assert(table.last() == w);
                }
            }
            if table.contains(w) {
                let j = table.index_of(w);
                if j < first_occurrences(shorter).len() {
                    assert(first_occurrences(shorter)[j] == w);
                    assert(first_occurrences(shorter).contains(w));
                    let i = shorter.index_of(w);
                    assert(words[i] == w);
                } else {
                    assert(w == last);
                    assert(words[words.len() - 1] == w);
                }
            }
        }
    }
}

/// Words further on in the list only add to the end of the table.
pub proof fn lemma_first_occurrences_prefix(words: Seq<Seq<char>>, more: Seq<Seq<char>>)
    ensures
        first_occurrences(words).is_prefix_of(first_occurrences(words + more)),
    decreases more.len(),
{
    if more.len() == 0 {
        assert(words + more =~= words);
    } else {
        lemma_first_occurrences_prefix(words, more.drop_last());
        assert((words + more).drop_last() =~= words + more.drop_last());
    }
}

/// One more word in the list is one more word for the table.
pub proof fn lemma_first_occurrences_push(words: Seq<Seq<char>>, word: Seq<char>)
    ensures
        first_occurrences(words.push(word)) == with_word(first_occurrences(words), word),
{
    assert(words.push(word).drop_last() =~= words);
}

/// A table of distinct strings with an index.
pub struct NameTable {
    names: Vec<String>,
    index: StringHashMap<usize>,
}

impl View for NameTable {
    type V = Seq<Seq<char>>;

    closed spec fn view(&self) -> Seq<Seq<char>> {
        texts(self.names@)
    }
}

impl NameTable {
    /// The strings are distinct, and the index leads each to its place.
    pub closed spec fn wf(&self) -> bool {
        &&& self@.no_duplicates()
        &&& forall|w: Seq<char>| #[trigger] self.index@.contains_key(w) <==> self@.contains(w)
        &&& forall|w: Seq<char>| #[trigger]
            self.index@.contains_key(w) ==> self.index@[w] == place(self@, w)
    }

    pub fn new() -> (r: Self)
        ensures
            r.wf(),
            r@ == Seq::<Seq<char>>::empty(),
    {
        let r = NameTable { names: Vec::new(), index: StringHashMap::new() };
        assert(r@ =~= Seq::<Seq<char>>::empty());
        r
    }

    /// The place of `word`, if it is in the table.
    pub fn find(&self, word: &str) -> (r: Option<usize>)
        requires
            self.wf(),
        ensures
            r is Some <==> self@.contains(word@),
            r matches Some(i) ==> i == place(self@, word@) && i < self@.len() <= usize::MAX,
    {
        match self.index.get(word) {
            Some(i) => {
                assert(self@.contains(word@));
                assert(self.names.len() == self@.len());
                Some(*i)
            },
            None => {
                assert(!self.index@.contains_key(word@));
                None
            },
        }
    }

    /// The place of `word`, which is added at the end if it is not in the table.
    pub fn intern(&mut self, word: &str) -> (r: usize)
        requires
            old(self).wf(),
        ensures
            final(self).wf(),
            final(self)@ == with_word(old(self)@, word@),
            final(self)@.contains(word@),
            r == place(final(self)@, word@),
            r < final(self)@.len() <= usize::MAX,
    {
        match self.find(word) {
            Some(i) => i,
            None => {
                let ghost before = self@;
                let i: usize = self.names.len();
                self.index.insert(word.to_owned(), i);
                self.names.push(word.to_owned());
                proof {
                    assert(self@ =~= before.push(word@));
                    assert(self.names.len() == self@.len());
                    assert(self@.no_duplicates());
                    lemma_place(self@, i as int);
                    assert(self@[i as int] == word@);
                    assert forall|w: Seq<char>| #[trigger]
                        self.index@.contains_key(w) <==> self@.contains(w) by {
                        if before.contains(w) {
                            assert(self@[before.index_of(w)] == w);
                        }
                        if w == word@ {
                            assert(self@[i as int] == w);
                        }
                        if self@.contains(w) && w != word@ {
                            let k = self@.index_of(w);
                            assert(before[k] == w);
                        }
                    }
                    assert forall|w: Seq<char>| #[trigger]
                        self.index@.contains_key(w) implies self.index@[w] == place(self@, w) by {
                        if w != word@ {
                            assert(before.contains(w));
                            assert(before.is_prefix_of(self@));
                            lemma_place_kept(before, self@, w);
                        }
                    }
                }
                i
            },
        }
    }

    /// The strings of the table, in order.
    pub fn into_names(self) -> (r: Vec<String>)
        ensures
            texts(r@) == self@,
    {
        self.names
    }
}

} // verus!
