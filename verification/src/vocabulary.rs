//! The numbering of words.

use vstd::hash_map::StringHashMap;
use vstd::prelude::*;

verus! {

/// The vocabulary that results from reading `words` in order, starting
/// from the vocabulary `known`: every word not seen before is appended.
pub open spec fn learn(known: Seq<Seq<char>>, words: Seq<Seq<char>>) -> Seq<Seq<char>>
    decreases words.len(),
{
    if words.len() == 0 {
        known
    } else {
        let before = learn(known, words.drop_last());
        if before.contains(words.last()) {
            before
        } else {
            before.push(words.last())
        }
    }
}

/// The id of `word` in the vocabulary `known`: one more than the position
/// of the word, and zero for a word that the vocabulary does not hold.
pub open spec fn id_of(known: Seq<Seq<char>>, word: Seq<char>) -> nat {
    if known.contains(word) {
        (known.index_of(word) + 1) as nat
    } else {
        0
    }
}

/// Whether `ids` are the ids of `words`, one for one, in `known`.
pub open spec fn spells(known: Seq<Seq<char>>, words: Seq<Seq<char>>, ids: Seq<usize>) -> bool {
    &&& ids.len() == words.len()
    &&& forall|k: int| 0 <= k < words.len() ==> #[trigger] ids[k] as nat == id_of(known, words[k])
}

/// The distinct words of a document in the order in which they were first
/// seen. The id of a word is its position in that order, counted from one.
///
/// Words are compared character by character: neither case nor any other
/// variation of form is folded.
pub struct Vocabulary {
    words: Vec<String>,
    ids: StringHashMap<usize>,
}

impl View for Vocabulary {
    type V = Seq<Seq<char>>;

    closed spec fn view(&self) -> Seq<Seq<char>> {
        self.words.deep_view()
    }
}

impl Vocabulary {
    /// The lookup table agrees with the list of words, which holds no word
    /// twice.
    #[verifier::type_invariant]
    spec fn wf(self) -> bool {
        &&& self@.no_duplicates()
        &&& forall|w: Seq<char>|
            #![trigger self.ids@.contains_key(w)]
            #![trigger self@.contains(w)]
            self.ids@.contains_key(w) <==> self@.contains(w)
        &&& forall|i: int| 0 <= i < self@.len() ==> #[trigger] self.ids@[self@[i]] == i + 1
    }

    /// A vocabulary without words.
    pub fn new() -> (v: Self)
        ensures
            v@ == Seq::<Seq<char>>::empty(),
    {
        let words: Vec<String> = Vec::new();
        assert(words.deep_view() =~= Seq::<Seq<char>>::empty());
        Vocabulary { words, ids: StringHashMap::new() }
    }

    /// The number of distinct words.
    pub fn len(&self) -> (n: usize)
        ensures
            n == self@.len(),
            self@.no_duplicates(),
    {
        proof {
            use_type_invariant(self);
        }
        self.words.len()
    }

    /// The id of `word`, if the vocabulary holds it.
    pub fn get(&self, word: &str) -> (id: Option<usize>)
        ensures
            id is Some <==> self@.contains(word@),
            id is Some ==> id->0 as nat == id_of(self@, word@),
            id is Some ==> 1 <= id->0 <= self@.len() && self@[id->0 - 1] == word@,
    {
        proof {
            use_type_invariant(self);
        }
        match self.ids.get(word) {
            Some(id) => {
                proof {
                    assert(self.ids@.contains_key(word@));
                    assert(self@.contains(word@));
                    let i = self@.index_of(word@);
                    assert(self.ids@[self@[i]] == i + 1);
                    assert(self@[i] == word@);
                }
                Some(*id)
            },
            None => None,
        }
    }

    /// The id of `word`, which is added to the vocabulary if it is new.
    pub fn intern(&mut self, word: String) -> (id: usize)
        ensures
            final(self)@ == learn(old(self)@, seq![word@]),
            final(self)@ == if old(self)@.contains(word@) {
                old(self)@
            } else {
                old(self)@.push(word@)
            },
            final(self)@.no_duplicates(),
            id as nat == id_of(final(self)@, word@),
            1 <= id <= final(self)@.len(),
            final(self)@[id - 1] == word@,
    {
        proof {
            use_type_invariant(&*self);
            lemma_learn_one(self@, word@);
        }
        match self.get(word.as_str()) {
            Some(id) => {
                proof {
                    assert(self@[self@.index_of(word@)] == word@);
                }
                id
            },
            None => {
                let ghost before = self@;
                let mut grown = Vocabulary::new();
                std::mem::swap(self, &mut grown);
                let Vocabulary { mut words, mut ids } = grown;
                let ghost table = ids@;
                words.push(word.clone());
                let id = words.len();
                ids.insert(word, id);
                proof {
                    let after = words.deep_view();
                    assert(after =~= before.push(word@));
                    assert(after[before.len() as int] == word@);
                    assert(after.index_of(word@) == before.len()) by {
                        let i = after.index_of(word@);
                        if i < before.len() {
                            assert(before[i] == word@);
                            assert(before.contains(word@));
                        }
                    }
                    assert forall|w: Seq<char>| ids@.contains_key(w) <==> after.contains(w) by {
                        if after.contains(w) {
                            let i = after.index_of(w);
                            if i < before.len() {
                                assert(before[i] == w);
                            }
                        }
                        if before.contains(w) {
                            let i = before.index_of(w);
                            assert(after[i] == w);
                        }
                    }
                    assert forall|i: int| 0 <= i < after.len() implies #[trigger] ids@[after[i]]
                        == i + 1 by {
                        if i < before.len() {
                            assert(before[i] == after[i]);
                            assert(before.contains(after[i]));
                            assert(table[before[i]] == i + 1);
                        }
                    }
                    assert forall|i: int, j: int|
                        0 <= i < after.len() && 0 <= j < after.len() && i != j implies after[i]
                        != after[j] by {
                        if i < before.len() && j < before.len() {
                            assert(before[i] != before[j]);
                        } else if i < before.len() {
                            assert(before.contains(before[i]));
                        } else {
                            assert(before.contains(before[j]));
                        }
                    }
                }
                *self = Vocabulary { words, ids };
                id
            },
        }
    }

    /// The ids of `words`, each of which is added to the vocabulary if it
    /// is new.
    pub fn encode(&mut self, words: &Vec<String>) -> (ids: Vec<usize>)
        ensures
            final(self)@ == learn(old(self)@, words.deep_view()),
            final(self)@.no_duplicates(),
            spells(final(self)@, words.deep_view(), ids@),
    {
        let ghost all = words.deep_view();
        let mut ids: Vec<usize> = Vec::new();
        let mut k: usize = 0;
        proof {
            assert(all.take(0) =~= Seq::<Seq<char>>::empty());
        }
        while k < words.len()
            invariant
                k <= words.len(),
                all == words.deep_view(),
                self@ == learn(old(self)@, all.take(k as int)),
                spells(self@, all.take(k as int), ids@),
                forall|j: int| 0 <= j < k ==> self@.contains(#[trigger] all[j]),
            decreases words.len() - k,
        {
            let ghost before = self@;
            let word = words[k].clone();
            proof {
                use_type_invariant(&*self);
                assert(word@ == all[k as int]);
                assert(all.take(k + 1).drop_last() =~= all.take(k as int));
                assert(all.take(k + 1).last() == word@);
                lemma_learn_one(before, word@);
            }
            let id = self.intern(word);
            ids.push(id);
            proof {
                assert forall|j: int| 0 <= j < k + 1 implies self@.contains(#[trigger] all[j]) by {
                    if j < k {
                        let i = before.index_of(all[j]);
                        assert(self@[i] == all[j]);
                    }
                }
                assert forall|j: int| 0 <= j < k + 1 implies #[trigger] ids@[j] as nat == id_of(
                    self@,
                    all.take(k + 1)[j],
                ) by {
                    if j < k {
                        assert(all.take(k as int)[j] == all.take(k + 1)[j]);
                        lemma_push_keeps_ids(before, all[k as int], all[j]);
                    }
                }
            }
            k += 1;
        }
        proof {
            use_type_invariant(&*self);
            assert(all.take(k as int) =~= all);
        }
        ids
    }
}

/// A word keeps its id when another word joins the vocabulary.
pub proof fn lemma_push_keeps_ids(known: Seq<Seq<char>>, new: Seq<char>, word: Seq<char>)
    requires
        known.no_duplicates(),
        known.contains(word),
    ensures
        id_of(learn(known, seq![new]), word) == id_of(known, word),
{
    lemma_learn_one(known, new);
    if !known.contains(new) {
        let grown = known.push(new);
        let i = known.index_of(word);
        assert(grown[i] == word);
        let j = grown.index_of(word);
        if j == known.len() {
            assert(grown[j] == new);
        } else {
            assert(known[j] == word);
        }
    }
}

/// Reading a single word appends it unless it is known.
pub proof fn lemma_learn_one(known: Seq<Seq<char>>, word: Seq<char>)
    ensures
        learn(known, seq![word]) == if known.contains(word) {
            known
        } else {
            known.push(word)
        },
{
    let words = seq![word];
    assert(words.drop_last() =~= Seq::<Seq<char>>::empty());
    assert(learn(known, words.drop_last()) == known);
    assert(words.last() == word);
}

/// Reading words only appends: the words known before keep their places.
pub proof fn lemma_learn_extends(known: Seq<Seq<char>>, words: Seq<Seq<char>>)
    ensures
        known.len() <= learn(known, words).len(),
        forall|i: int| 0 <= i < known.len() ==> #[trigger] learn(known, words)[i] == known[i],
    decreases words.len(),
{
    if words.len() > 0 {
        lemma_learn_extends(known, words.drop_last());
    }
}

/// After reading, the vocabulary holds exactly the words known before and
/// the words read.
pub proof fn lemma_learn_holds(known: Seq<Seq<char>>, words: Seq<Seq<char>>)
    ensures
        forall|w: Seq<char>| #[trigger]
            learn(known, words).contains(w) <==> known.contains(w) || words.contains(w),
    decreases words.len(),
{
    let after = learn(known, words);
    if words.len() > 0 {
        let front = words.drop_last();
        let before = learn(known, front);
        lemma_learn_holds(known, front);
        assert forall|w: Seq<char>| #[trigger]
            after.contains(w) <==> known.contains(w) || words.contains(w) by {
            if after.contains(w) {
                let i = after.index_of(w);
                if i < before.len() {
                    assert(before[i] == w);
                    assert(before.contains(w));
                    if front.contains(w) {
                        let j = front.index_of(w);
                        assert(words[j] == w);
                    }
                } else {
                    assert(w == words.last());
                    assert(words[words.len() - 1] == w);
                }
            }
            if known.contains(w) {
                assert(before.contains(w));
                let i = before.index_of(w);
                assert(after[i] == w);
            }
            if words.contains(w) {
                let j = words.index_of(w);
                if j < front.len() {
                    assert(front[j] == w);
                    assert(before.contains(w));
                    let i = before.index_of(w);
                    assert(after[i] == w);
                } else if before.contains(w) {
                    let i = before.index_of(w);
                    assert(after[i] == w);
                } else {
                    assert(after[before.len() as int] == w);
                }
            }
        }
    }
}

/// Reading never enters a word twice.
pub proof fn lemma_learn_distinct(known: Seq<Seq<char>>, words: Seq<Seq<char>>)
    requires
        known.no_duplicates(),
    ensures
        learn(known, words).no_duplicates(),
    decreases words.len(),
{
    if words.len() > 0 {
        lemma_learn_distinct(known, words.drop_last());
    }
}

/// Reading words that are all known changes nothing.
pub proof fn lemma_learn_known(known: Seq<Seq<char>>, words: Seq<Seq<char>>)
    requires
        forall|k: int| 0 <= k < words.len() ==> known.contains(#[trigger] words[k]),
    ensures
        learn(known, words) == known,
    decreases words.len(),
{
    if words.len() > 0 {
        let front = words.drop_last();
        assert forall|k: int| 0 <= k < front.len() implies known.contains(#[trigger] front[k]) by {
            assert(front[k] == words[k]);
        }
        lemma_learn_known(known, front);
        assert(known.contains(words[words.len() - 1]));
    }
}

/// A vocabulary built from nothing has as many entries as there are
/// distinct words in what was read.
pub proof fn lemma_learn_count(words: Seq<Seq<char>>)
    ensures
        learn(Seq::empty(), words).len() == words.to_set().len(),
{
    let fresh = Seq::<Seq<char>>::empty();
    let v = learn(fresh, words);
    lemma_learn_distinct(fresh, words);
    lemma_learn_holds(fresh, words);
    v.unique_seq_to_set();
    assert(v.to_set() =~= words.to_set()) by {
        assert forall|w: Seq<char>| v.to_set().contains(w) <==> words.to_set().contains(w) by {
            assert(v.contains(w) <==> fresh.contains(w) || words.contains(w));
        }
    }
}

/// The ids given out for a text read with a fresh vocabulary are
/// contiguous: each lies between one and the number of distinct words, and
/// each number in that range is the id of some word of the text.
pub proof fn lemma_ids_contiguous(words: Seq<Seq<char>>, ids: Seq<usize>)
    requires
        spells(learn(Seq::empty(), words), words, ids),
    ensures
        forall|k: int| 0 <= k < ids.len() ==> 1 <= #[trigger] ids[k] <= words.to_set().len(),
        forall|id: usize| 1 <= id <= words.to_set().len() ==> #[trigger] ids.contains(id),
{
    let fresh = Seq::<Seq<char>>::empty();
    let v = learn(fresh, words);
    lemma_learn_distinct(fresh, words);
    lemma_learn_holds(fresh, words);
    lemma_learn_count(words);
    let count = words.to_set().len();
    assert forall|k: int| 0 <= k < ids.len() implies 1 <= #[trigger] ids[k] <= count by {
        assert(words.contains(words[k]));
        assert(v.contains(words[k]));
        assert(ids[k] as nat == id_of(v, words[k]));
    }
    assert forall|id: usize| 1 <= id <= count implies #[trigger] ids.contains(id) by {
        let w = v[id - 1];
        assert(v.contains(w));
        assert(words.contains(w));
        let k = words.index_of(w);
        assert(ids[k] as nat == id_of(v, words[k]));
        assert(v.index_of(w) == id - 1);
        assert(ids[k] == id);
    }
}

/// Reading the same words a second time changes neither the vocabulary
/// nor any id.
pub proof fn lemma_relearn(
    known: Seq<Seq<char>>,
    words: Seq<Seq<char>>,
    ids: Seq<usize>,
    again: Seq<usize>,
)
    requires
        spells(learn(known, words), words, ids),
        spells(learn(learn(known, words), words), words, again),
    ensures
        learn(learn(known, words), words) == learn(known, words),
        again == ids,
{
    let v = learn(known, words);
    lemma_learn_holds(known, words);
    assert forall|k: int| 0 <= k < words.len() implies v.contains(#[trigger] words[k]) by {
        assert(words.contains(words[k]));
    }
    lemma_learn_known(v, words);
    assert(again =~= ids) by {
        assert forall|k: int| 0 <= k < ids.len() implies again[k] == ids[k] by {
            assert(ids[k] as nat == id_of(v, words[k]));
            assert(again[k] as nat == id_of(v, words[k]));
        }
    }
}

/// Reading one text after another is reading the two as one.
pub proof fn lemma_learn_concat(
    known: Seq<Seq<char>>,
    first: Seq<Seq<char>>,
    second: Seq<Seq<char>>,
)
    ensures
        learn(learn(known, first), second) == learn(known, first + second),
    decreases second.len(),
{
    if second.len() == 0 {
        assert(first + second =~= first);
    } else {
        lemma_learn_concat(known, first, second.drop_last());
        assert((first + second).drop_last() =~= first + second.drop_last());
        assert((first + second).last() == second.last());
    }
}

/// Ids stay what they are while the vocabulary grows.
pub proof fn lemma_spells_stable(
    known: Seq<Seq<char>>,
    more: Seq<Seq<char>>,
    words: Seq<Seq<char>>,
    ids: Seq<usize>,
)
    requires
        known.no_duplicates(),
        spells(known, words, ids),
        forall|k: int| 0 <= k < words.len() ==> known.contains(#[trigger] words[k]),
    ensures
        spells(learn(known, more), words, ids),
{
    let grown = learn(known, more);
    lemma_learn_extends(known, more);
    lemma_learn_distinct(known, more);
    assert forall|k: int| 0 <= k < words.len() implies #[trigger] ids[k] as nat == id_of(
        grown,
        words[k],
    ) by {
        let w = words[k];
        assert(known.contains(w));
        let i = known.index_of(w);
        assert(grown[i] == w);
        assert(grown.contains(w));
        assert(grown.index_of(w) == i);
        assert(ids[k] as nat == id_of(known, words[k]));
    }
}

/// Texts that are spelled part by part are spelled as a whole.
pub proof fn lemma_spells_flatten(
    known: Seq<Seq<char>>,
    parts: Seq<Seq<Seq<char>>>,
    ids: Seq<Seq<usize>>,
)
    requires
        parts.len() == ids.len(),
        forall|i: int| 0 <= i < parts.len() ==> spells(known, #[trigger] parts[i], ids[i]),
    ensures
        spells(known, parts.flatten(), ids.flatten()),
    decreases parts.len(),
{
    if parts.len() == 0 {
        assert(parts.flatten() =~= Seq::<Seq<char>>::empty());
        assert(ids.flatten() =~= Seq::<usize>::empty());
    } else {
        let front = parts.drop_last();
        let front_ids = ids.drop_last();
        assert forall|i: int| 0 <= i < front.len() implies spells(
            known,
            #[trigger] front[i],
            front_ids[i],
        ) by {
            assert(spells(known, parts[i], ids[i]));
        }
        lemma_spells_flatten(known, front, front_ids);
        assert(parts =~= front.push(parts.last()));
        assert(ids =~= front_ids.push(ids.last()));
        front.lemma_flatten_push(parts.last());
        front_ids.lemma_flatten_push(ids.last());
        assert(spells(known, parts[parts.len() - 1], ids[parts.len() - 1]));
        let words = parts.flatten();
        let all = ids.flatten();
        assert forall|k: int| 0 <= k < words.len() implies #[trigger] all[k] as nat == id_of(
            known,
            words[k],
        ) by {
            let cut = front.flatten().len();
            if k < cut {
                assert(all[k] == front_ids.flatten()[k]);
                assert(words[k] == front.flatten()[k]);
            } else {
                assert(all[k] == ids.last()[k - cut]);
                assert(words[k] == parts.last()[k - cut]);
            }
        }
    }
}

} // verus!
