//! The transition graph of one conversation and its mathematical model.
use vstd::prelude::*;

use crate::assoc::{
    assoc_map, has_key, keys_unique, lemma_assoc_dom, lemma_assoc_index, lemma_assoc_push,
    lemma_assoc_update,
};
use crate::text::{line_segments, sentence_words, sentence_words_of, split_lines, views};

verus! {

/// The word that stands before the first word of every sentence.
pub const MARKOV_CHAIN_START: &'static str = "START";

/// The word that stands after the last word of every sentence.
pub const MARKOV_CHAIN_END: &'static str = "END";

/// The characters of the start sentinel.
pub open spec fn start_word() -> Seq<char> {
    seq!['S', 'T', 'A', 'R', 'T']
}

/// The characters of the end sentinel.
pub open spec fn end_word() -> Seq<char> {
    seq!['E', 'N', 'D']
}

/// A successor distribution: word to number of observed transitions.
pub type Dist = Map<Seq<char>, nat>;

/// The model of a chain: each node's word to its successor distribution.
pub type Nodes = Map<Seq<char>, Dist>;

/// A word that is neither sentinel.
pub open spec fn is_real_word(w: Seq<char>) -> bool {
    w != start_word() && w != end_word()
}

/// Both sentinels are nodes, every successor is itself a node, and every count is positive.
pub open spec fn is_closed(m: Nodes) -> bool {
    &&& m.contains_key(start_word())
    &&& m.contains_key(end_word())
    &&& forall|w: Seq<char>, s: Seq<char>|
        #![trigger m[w].contains_key(s)]
        m.contains_key(w) && m[w].contains_key(s) ==> m.contains_key(s) && m[w][s] > 0
}

/// The distribution of `w`, empty where `w` is no node.
pub open spec fn dist_of(m: Nodes, w: Seq<char>) -> Dist {
    if m.contains_key(w) {
        m[w]
    } else {
        Map::empty()
    }
}

/// The count of the transition from `p` to `s`, zero where there is none.
pub open spec fn count_of(m: Nodes, p: Seq<char>, s: Seq<char>) -> nat {
    if dist_of(m, p).contains_key(s) {
        dist_of(m, p)[s]
    } else {
        0
    }
}

/// One more observed transition from `p` to `s`; `s` becomes a node if it was none.
pub open spec fn add_transition(m: Nodes, p: Seq<char>, s: Seq<char>) -> Nodes {
    let m1 = m.insert(p, dist_of(m, p).insert(s, count_of(m, p, s) + 1));
    if m1.contains_key(s) {
        m1
    } else {
        m1.insert(s, Map::empty())
    }
}

/// The word at position `i` of the sentence framed by the two sentinels.
pub open spec fn framed(words: Seq<Seq<char>>, i: int) -> Seq<char> {
    if i == 0 {
        start_word()
    } else if i <= words.len() {
        words[i - 1]
    } else {
        end_word()
    }
}

/// The model after the first `k` transitions of the framed sentence.
pub open spec fn add_transitions(m: Nodes, words: Seq<Seq<char>>, k: nat) -> Nodes
    decreases k,
{
    if k == 0 {
        m
    } else {
        let prev = add_transitions(m, words, (k - 1) as nat);
        add_transition(prev, framed(words, k - 1), framed(words, k as int))
    }
}

/// The model after learning one sentence of `words`: nothing changes for no words.
pub open spec fn add_words(m: Nodes, words: Seq<Seq<char>>) -> Nodes {
    if words.len() == 0 {
        m
    } else {
        add_transitions(m, words, words.len() + 1)
    }
}

/// Each transition of the framed `words` has room in `m` for as many more counts as
/// the sentence has transitions, so learning it leaves every count in range. No words
/// touch no transition.
pub open spec fn room_for_words(m: Nodes, words: Seq<Seq<char>>) -> bool {
    &&& words.len() < u32::MAX
    &&& words.len() > 0 ==> forall|k: int|
        0 <= k <= words.len() ==> count_of(m, #[trigger] framed(words, k), framed(words, k + 1))
            + words.len() + 1 <= u32::MAX
}

/// `line` can be learned by `m` with no count leaving the range of a count.
pub open spec fn has_room(m: Nodes, line: Seq<char>) -> bool {
    room_for_words(m, sentence_words(line))
}

/// The model after learning each line of `lines` that it has room for, in turn.
pub open spec fn learn_lines_with_room(m: Nodes, lines: Seq<Seq<char>>) -> Nodes
    decreases lines.len(),
{
    if lines.len() == 0 {
        m
    } else {
        let prev = learn_lines_with_room(m, lines.drop_last());
        if has_room(prev, lines.last()) {
            add_words(prev, sentence_words(lines.last()))
        } else {
            prev
        }
    }
}

/// One observed successor of a word and how many times it followed it.
pub struct ChatMarkovChainSuccessor {
    pub word: String,
    pub num_times: u32,
}

impl View for ChatMarkovChainSuccessor {
    type V = (Seq<char>, nat);

    open spec fn view(&self) -> (Seq<char>, nat) {
        (self.word@, self.num_times as nat)
    }
}

/// A node of the graph: a word and the successors observed after it.
pub struct ChatMarkovChainEntry {
    pub word: String,
    pub successors: Vec<ChatMarkovChainSuccessor>,
}

impl ChatMarkovChainEntry {
    pub open spec fn pairs(&self) -> Seq<(Seq<char>, nat)> {
        self.successors@.map_values(|s: ChatMarkovChainSuccessor| s@)
    }
}

impl View for ChatMarkovChainEntry {
    type V = (Seq<char>, Dist);

    open spec fn view(&self) -> (Seq<char>, Dist) {
        (self.word@, assoc_map(self.pairs()))
    }
}

/// The learned transitions of one conversation.
pub struct ChatMarkovChain {
    pub chat_id: i64,
    pub entries: Vec<ChatMarkovChainEntry>,
}

impl ChatMarkovChain {
    pub open spec fn pairs(&self) -> Seq<(Seq<char>, Dist)> {
        self.entries@.map_values(|e: ChatMarkovChainEntry| e@)
    }

    /// The model: each node's word to its successor distribution.
    pub open spec fn nodes(&self) -> Nodes {
        assoc_map(self.pairs())
    }

    /// No word is stored twice, neither as a node nor as a successor of one node.
    pub open spec fn structured(&self) -> bool {
        &&& keys_unique(self.pairs())
        &&& forall|i: int|
            0 <= i < self.entries.len() ==> #[trigger] keys_unique(self.entries@[i].pairs())
    }

    /// The invariant of a chain that may be walked and stored.
    pub open spec fn wf(&self) -> bool {
        self.structured() && is_closed(self.nodes())
    }

    /// The chain knows some word besides the two sentinels.
    pub open spec fn has_vocabulary(&self) -> bool {
        exists|w: Seq<char>| #[trigger] self.nodes().contains_key(w) && is_real_word(w)
    }
}

pub proof fn lemma_pairs_push_entry(c: ChatMarkovChain, e: ChatMarkovChainEntry)
    ensures
        c.entries@.push(e).map_values(|x: ChatMarkovChainEntry| x@) == c.pairs().push(e@),
{
    assert(c.entries@.push(e).map_values(|x: ChatMarkovChainEntry| x@) =~= c.pairs().push(e@));
}

/// Index of the node of `word`, if there is one.
pub fn find_entry(entries: &Vec<ChatMarkovChainEntry>, word: &String) -> (r: Option<usize>)
    ensures
        match r {
            Some(i) => i < entries.len() && entries@[i as int].word@ == word@,
            None => forall|i: int| 0 <= i < entries.len() ==> entries@[i].word@ != word@,
        },
{
    let mut i: usize = 0;
    while i < entries.len()
        invariant
            i <= entries.len(),
            forall|k: int| 0 <= k < i ==> entries@[k].word@ != word@,
        decreases entries.len() - i,
    {
        if entries[i].word == *word {
            return Some(i);
        }
        i += 1;
    }
    None
}

/// Index of `word` among the successors, if it is there.
pub fn find_successor(successors: &Vec<ChatMarkovChainSuccessor>, word: &String) -> (r: Option<
    usize,
>)
    ensures
        match r {
            Some(j) => j < successors.len() && successors@[j as int].word@ == word@,
            None => forall|j: int| 0 <= j < successors.len() ==> successors@[j].word@ != word@,
        },
{
    let mut j: usize = 0;
    while j < successors.len()
        invariant
            j <= successors.len(),
            forall|k: int| 0 <= k < j ==> successors@[k].word@ != word@,
        decreases successors.len() - j,
    {
        if successors[j].word == *word {
            return Some(j);
        }
        j += 1;
    }
    None
}


/// The start sentinel as an owned string.
pub fn start_string() -> (r: String)
    ensures
        r@ == start_word(),
{
    proof {
        reveal_strlit("START");
    }
    String::from_str(MARKOV_CHAIN_START)
}

/// The end sentinel as an owned string.
pub fn end_string() -> (r: String)
    ensures
        r@ == end_word(),
{
    proof {
        reveal_strlit("END");
    }
    String::from_str(MARKOV_CHAIN_END)
}

/// Learning a transition keeps a closed model closed.
pub proof fn lemma_add_transition_closed(m: Nodes, p: Seq<char>, s: Seq<char>)
    requires
        is_closed(m),
    ensures
        is_closed(add_transition(m, p, s)),
        m.dom().subset_of(add_transition(m, p, s).dom()),
{
    let r = add_transition(m, p, s);
    assert forall|w: Seq<char>, t: Seq<char>|
        #![trigger r[w].contains_key(t)]
        r.contains_key(w) && r[w].contains_key(t) implies r.contains_key(t) && r[w][t] > 0 by {
        if w != p && w != s {
            assert(m[w].contains_key(t));
        } else if w == p {
            if t != s {
                assert(m[p].contains_key(t));
            }
        } else {
            if m.contains_key(s) {
                assert(m[s].contains_key(t));
            }
        }
    }
}

/// In a well-formed chain each stored successor is a transition of the model with a
/// positive count, and is itself a node.
pub proof fn lemma_stored_successor(c: ChatMarkovChain, i: int, j: int)
    requires
        c.wf(),
        0 <= i < c.entries.len(),
        0 <= j < c.entries@[i].successors.len(),
    ensures
        c.nodes().contains_key(c.entries@[i].word@),
        c.nodes()[c.entries@[i].word@] == c.entries@[i]@.1,
        c.nodes()[c.entries@[i].word@].contains_key(c.entries@[i].successors@[j].word@),
        c.nodes()[c.entries@[i].word@][c.entries@[i].successors@[j].word@]
            == c.entries@[i].successors@[j].num_times,
        c.entries@[i].successors@[j].num_times > 0,
        c.nodes().contains_key(c.entries@[i].successors@[j].word@),
{
    let e = c.entries@[i];
    lemma_assoc_index(c.pairs(), i);
    assert(keys_unique(c.entries@[i].pairs()));
    lemma_assoc_index(e.pairs(), j);
}

/// Learning a transition raises one count by one and leaves the others.
pub proof fn lemma_add_transition_count(m: Nodes, p: Seq<char>, s: Seq<char>, x: Seq<char>, y: Seq<char>)
    ensures
        count_of(add_transition(m, p, s), x, y) == count_of(m, x, y) + if x == p && y == s {
            1nat
        } else {
            0nat
        },
{
}

impl ChatMarkovChain {
    /// Learns one line of text: each transition of its words, framed by the two
    /// sentinels, counts once more. A line without words changes nothing.
    pub fn add_sentence(&mut self, sentence: &str)
        requires
            old(self).wf(),
            has_room(old(self).nodes(), sentence@),
        ensures
            final(self).wf(),
            final(self).chat_id == old(self).chat_id,
            final(self).nodes() == add_words(old(self).nodes(), sentence_words(sentence@)),
    {
        let words = sentence_words_of(sentence);
        self.add_sentence_words(&words);
    }

    /// Learns a sentence already split into words: each transition of `words`, framed
    /// by the two sentinels, counts once more. No words change nothing.
    pub fn add_sentence_words(&mut self, words: &Vec<String>)
        requires
            old(self).wf(),
            room_for_words(old(self).nodes(), views(words@)),
        ensures
            final(self).wf(),
            final(self).chat_id == old(self).chat_id,
            final(self).nodes() == add_words(old(self).nodes(), views(words@)),
    {
        let ghost ws = views(words@);
        let n = words.len();
        if n == 0 {
            return;
        }
        let ghost m0 = self.nodes();
        let mut k: usize = 0;
        while k <= n
            invariant
                n == words.len(),
                ws == views(words@),
                0 < n < u32::MAX,
                room_for_words(m0, ws),
                k <= n + 1,
                self.structured(),
                self.chat_id == old(self).chat_id,
                self.nodes() == add_transitions(m0, ws, k as nat),
                is_closed(self.nodes()),
                forall|t: int|
                    k <= t <= n ==> count_of(self.nodes(), #[trigger] framed(ws, t), framed(ws, t + 1))
                        <= count_of(m0, framed(ws, t), framed(ws, t + 1)) + k,
            decreases n + 1 - k,
        {
            let p = if k == 0 {
                start_string()
            } else {
                words[k - 1].clone()
            };
            let s = if k == n {
                end_string()
            } else {
                words[k].clone()
            };
            assert(p@ == framed(ws, k as int));
            assert(s@ == framed(ws, k + 1));
            proof {
                lemma_add_transition_closed(self.nodes(), p@, s@);
                let cur = self.nodes();
                assert(count_of(cur, framed(ws, k as int), framed(ws, k + 1)) <= count_of(m0, framed(ws, k as int), framed(ws, k + 1)) + k);
                assert forall|t: int| k + 1 <= t <= n implies count_of(
                    add_transition(cur, p@, s@),
                    #[trigger] framed(ws, t),
                    framed(ws, t + 1),
                ) <= count_of(m0, framed(ws, t), framed(ws, t + 1)) + k + 1 by {
                    lemma_add_transition_count(cur, p@, s@, framed(ws, t), framed(ws, t + 1));
                }
            }
            self.add_word(&p, &s);
            k += 1;
        }
    }

    /// Learns each line of `text` in turn, skipping a line that could raise a count
    /// beyond the range of a count.
    pub fn add_text(&mut self, text: &str)
        requires
            old(self).wf(),
        ensures
            final(self).wf(),
            final(self).chat_id == old(self).chat_id,
            final(self).nodes() == learn_lines_with_room(old(self).nodes(), line_segments(text@)),
    {
        let lines = split_lines(text);
        let ghost ls = views(lines@);
        let ghost m0 = self.nodes();
        let mut i: usize = 0;
        while i < lines.len()
            invariant
                ls == views(lines@),
                i <= lines.len(),
                self.wf(),
                self.chat_id == old(self).chat_id,
                m0 == old(self).nodes(),
                self.nodes() == learn_lines_with_room(m0, ls.take(i as int)),
            decreases lines.len() - i,
        {
            proof {
                assert(ls.take(i + 1).drop_last() =~= ls.take(i as int));
            }
            let line = lines[i].as_str();
            if self.has_room_for(line) {
                self.add_sentence(line);
            }
            i += 1;
        }
        assert(ls.take(lines.len() as int) =~= ls);
    }

    /// The count of the transition from `predecessor` to `successor`, zero where there is none.
    pub fn current_count(&self, predecessor: &String, successor: &String) -> (r: u32)
        requires
            self.wf(),
        ensures
            r == count_of(self.nodes(), predecessor@, successor@),
    {
        proof {
            lemma_assoc_dom(self.pairs(), predecessor@);
        }
        match find_entry(&self.entries, predecessor) {
            None => 0,
            Some(i) => {
                proof {
                    lemma_assoc_index(self.pairs(), i as int);
                    assert(keys_unique(self.entries@[i as int].pairs()));
                    lemma_assoc_dom(self.entries@[i as int].pairs(), successor@);
                }
                match find_successor(&self.entries[i].successors, successor) {
                    None => 0,
                    Some(j) => {
                        proof {
                            lemma_stored_successor(*self, i as int, j as int);
                        }
                        self.entries[i].successors[j].num_times
                    },
                }
            },
        }
    }

    /// Whether `add_sentence` may learn `sentence` here: each transition it touches has
    /// room for as many more counts as the sentence has transitions.
    pub fn has_room_for(&self, sentence: &str) -> (r: bool)
        requires
            self.wf(),
        ensures
            r == has_room(self.nodes(), sentence@),
    {
        let words = sentence_words_of(sentence);
        let ghost ws = views(words@);
        let n = words.len();
        if n >= u32::MAX as usize {
            return false;
        }
        if n == 0 {
            return true;
        }
        let mut k: usize = 0;
        while k <= n
            invariant
                n == words.len(),
                ws == views(words@),
                ws == sentence_words(sentence@),
                0 < n < u32::MAX,
                self.wf(),
                k <= n + 1,
                forall|t: int|
                    0 <= t < k ==> count_of(self.nodes(), #[trigger] framed(ws, t), framed(ws, t + 1))
                        + n + 1 <= u32::MAX,
            decreases n + 1 - k,
        {
            let p = if k == 0 {
                start_string()
            } else {
                words[k - 1].clone()
            };
            let s = if k == n {
                end_string()
            } else {
                words[k].clone()
            };
            assert(p@ == framed(ws, k as int));
            assert(s@ == framed(ws, k + 1));
            let c = self.current_count(&p, &s);
            if c as u64 + n as u64 + 1 > u32::MAX as u64 {
                return false;
            }
            k += 1;
        }
        true
    }

    /// The chain of a conversation that has learned nothing: the two sentinels alone.
    pub fn get_empty_chain(chat_id: i64) -> (r: ChatMarkovChain)
        ensures
            r.chat_id == chat_id,
            r.wf(),
            r.nodes() == map![start_word() => Map::<Seq<char>, nat>::empty(), end_word() => Map::<Seq<char>, nat>::empty()],
    {
        let mut entries: Vec<ChatMarkovChainEntry> = Vec::new();
        entries.push(ChatMarkovChainEntry { word: start_string(), successors: Vec::new() });
        entries.push(ChatMarkovChainEntry { word: end_string(), successors: Vec::new() });
        let r = ChatMarkovChain { chat_id, entries };
        proof {
            assert(r.entries@[0].pairs() =~= Seq::empty());
            assert(r.entries@[1].pairs() =~= Seq::empty());
            assert(assoc_map(r.entries@[0].pairs()) =~= Map::<Seq<char>, nat>::empty());
            assert(assoc_map(r.entries@[1].pairs()) =~= Map::<Seq<char>, nat>::empty());
            let p = r.pairs();
            assert(p.drop_last() =~= seq![(start_word(), Map::<Seq<char>, nat>::empty())]);
            assert(p.drop_last().drop_last() =~= Seq::empty());
            reveal_with_fuel(assoc_map, 3);
            assert(start_word() != end_word()) by {
                assert(start_word().len() != end_word().len());
            }
            assert(r.nodes() =~= map![start_word() => Map::<Seq<char>, nat>::empty(), end_word() => Map::<Seq<char>, nat>::empty()]);
        }
        r
    }

    /// Index of the node of `word`, adding an empty node for it if there is none.
    fn ensure_entry(&mut self, word: &String) -> (i: usize)
        requires
            old(self).structured(),
        ensures
            final(self).structured(),
            final(self).chat_id == old(self).chat_id,
            i < final(self).entries.len(),
            final(self).entries@[i as int].word@ == word@,
            final(self).nodes() == if old(self).nodes().contains_key(word@) {
                old(self).nodes()
            } else {
                old(self).nodes().insert(word@, Map::empty())
            },
    {
        proof {
            lemma_assoc_dom(self.pairs(), word@);
        }
        match find_entry(&self.entries, word) {
            Some(i) => {
                assert(self.pairs()[i as int].0 == word@);
                i
            },
            None => {
                let e = ChatMarkovChainEntry { word: word.clone(), successors: Vec::new() };
                proof {
                    lemma_pairs_push_entry(*self, e);
                    assert(e.pairs() =~= Seq::empty());
                    assert(assoc_map(e.pairs()) =~= Map::<Seq<char>, nat>::empty());
                    assert(!has_key(self.pairs(), word@));
                    lemma_assoc_push(self.pairs(), word@, Map::empty());
                }
                let ghost prev = *self;
                self.entries.push(e);
                proof {
                    assert forall|k: int| 0 <= k < self.entries.len() implies #[trigger] keys_unique(
                        self.entries@[k].pairs(),
                    ) by {
                        if k < prev.entries.len() {
                            assert(self.entries@[k] == prev.entries@[k]);
                        }
                    }
                }
                self.entries.len() - 1
            },
        }
    }

    /// Records one more transition from `predecessor` to `successor`.
    fn add_word(&mut self, predecessor: &String, successor: &String)
        requires
            old(self).structured(),
            count_of(old(self).nodes(), predecessor@, successor@) < u32::MAX,
        ensures
            final(self).structured(),
            final(self).chat_id == old(self).chat_id,
            final(self).nodes() == add_transition(old(self).nodes(), predecessor@, successor@),
    {
        let ghost m0 = self.nodes();
        let i = self.ensure_entry(predecessor);
        let ghost m1 = self.nodes();
        proof {
            lemma_assoc_index(self.pairs(), i as int);
            assert(m1[predecessor@] == dist_of(m0, predecessor@));
            lemma_assoc_dom(self.entries@[i as int].pairs(), successor@);
        }
        let ghost before = *self;
        let ghost e0 = self.entries@[i as int];
        match find_successor(&self.entries[i].successors, successor) {
            Some(j) => {
                proof {
                    lemma_assoc_index(e0.pairs(), j as int);
                }
                let c = self.entries[i].successors[j].num_times;
                self.entries[i].successors[j].num_times = c + 1;
                proof {
                    let e1 = self.entries@[i as int];
                    assert(e1.pairs() =~= e0.pairs().update(j as int, (successor@, (c + 1) as nat)));
                    lemma_assoc_update(e0.pairs(), j as int, (c + 1) as nat);
                }
            },
            None => {
                proof {
                    assert(!has_key(e0.pairs(), successor@));
                    lemma_assoc_push(e0.pairs(), successor@, 1nat);
                }
                self.entries[i].successors.push(
                    ChatMarkovChainSuccessor { word: successor.clone(), num_times: 1 },
                );
                proof {
                    let e1 = self.entries@[i as int];
                    assert(e1.pairs() =~= e0.pairs().push((successor@, 1nat)));
                }
            },
        }
        proof {
            let e1 = self.entries@[i as int];
            assert(e1@ == (predecessor@, dist_of(m0, predecessor@).insert(successor@, count_of(m0, predecessor@, successor@) + 1)));
            assert(self.pairs() =~= before.pairs().update(i as int, e1@));
            lemma_assoc_update(before.pairs(), i as int, e1@.1);
            assert forall|k: int| 0 <= k < self.entries.len() implies #[trigger] keys_unique(
                self.entries@[k].pairs(),
            ) by {
                if k != i {
                    assert(self.entries@[k] == before.entries@[k]);
                }
            }
        }
        let _ = self.ensure_entry(successor);
    }
}

} // verus!
