//! Producing a sentence by a weighted random walk over a chain.
use vstd::prelude::*;

use rand::rngs::StdRng;
use rand::Rng;

use crate::assoc::lemma_assoc_dom;
use crate::chain::{
    end_string, end_word, find_entry, is_real_word, lemma_stored_successor, start_string,
    start_word, ChatMarkovChain, ChatMarkovChainSuccessor, Nodes,
};
use crate::text::views;

verus! {

/// rand's seedable generator, which the walk draws from and carries through unopened.
#[verifier::external_type_specification]
#[verifier::external_body]
pub struct ExStdRng(StdRng);

/// Relies on rand's `Rng::gen_range` over `0..n`: a value below `n`; it panics on an empty range.
#[verifier::external_body]
fn draw_below(rng: &mut StdRng, n: u128) -> (r: u128)
    requires
        n > 0,
    ensures
        r < n,
{
    rng.gen_range(0..n)
}

/// The denominator of the chances in `WalkSettings`.
pub const CHANCE_SCALE: u32 = 1000000;

/// How a walk begins and ends. Chances are in millionths.
pub struct WalkSettings {
    /// Chance of beginning at a random word rather than at the start sentinel.
    pub start_chance: u32,
    /// Chance of ending the walk before each step.
    pub end_chance: u32,
    /// The walk ends once it has emitted this many words.
    pub max_words: usize,
}

impl WalkSettings {
    /// The settings the bot uses.
    pub fn standard() -> (r: WalkSettings)
        ensures
            r.start_chance == 100000,
            r.end_chance == 50000,
            r.max_words == 1000,
    {
        WalkSettings { start_chance: 100000, end_chance: 50000, max_words: 1000 }
    }
}

/// The sum of the first `k` counts.
pub open spec fn prefix_total(s: Seq<ChatMarkovChainSuccessor>, k: int) -> nat
    decreases k,
{
    if k <= 0 || k > s.len() {
        0
    } else {
        prefix_total(s, k - 1) + s[k - 1].num_times as nat
    }
}

/// The sum of all counts.
pub open spec fn total(s: Seq<ChatMarkovChainSuccessor>) -> nat {
    prefix_total(s, s.len() as int)
}

/// Draw `d` selects the entry at `i`: the first whose running sum exceeds `d`.
pub open spec fn selects(s: Seq<ChatMarkovChainSuccessor>, d: int, i: int) -> bool {
    0 <= i < s.len() && prefix_total(s, i) <= d < prefix_total(s, i + 1)
}

proof fn lemma_prefix_monotone(s: Seq<ChatMarkovChainSuccessor>, a: int, b: int)
    requires
        0 <= a <= b <= s.len(),
    ensures
        prefix_total(s, a) <= prefix_total(s, b),
    decreases b - a,
{
    if a < b {
        lemma_prefix_monotone(s, a, b - 1);
    }
}

proof fn lemma_prefix_bound(s: Seq<ChatMarkovChainSuccessor>, k: int)
    requires
        0 <= k <= s.len(),
    ensures
        prefix_total(s, k) <= k * (u32::MAX as int),
    decreases k,
{
    if k > 0 {
        lemma_prefix_bound(s, k - 1);
    }
}

/// A draw selects one entry at most.
pub proof fn lemma_selects_unique(s: Seq<ChatMarkovChainSuccessor>, d: int, i: int, j: int)
    requires
        selects(s, d, i),
        selects(s, d, j),
    ensures
        i == j,
{
    if i < j {
        lemma_prefix_monotone(s, i + 1, j);
    } else if j < i {
        lemma_prefix_monotone(s, j + 1, i);
    }
}

/// Of the `total` equally likely draws below the sum of all counts, exactly as many
/// select an entry as its count: each entry is picked in proportion to its count.
pub proof fn lemma_selection_frequency(s: Seq<ChatMarkovChainSuccessor>, i: int)
    requires
        0 <= i < s.len(),
    ensures
        Set::new(|d: int| 0 <= d < total(s) && selects(s, d, i)).finite(),
        Set::new(|d: int| 0 <= d < total(s) && selects(s, d, i)).len() == s[i].num_times,
{
    lemma_prefix_monotone(s, i + 1, s.len() as int);
    let lo = prefix_total(s, i) as int;
    let hi = prefix_total(s, i + 1) as int;
    vstd::set_lib::lemma_int_range(lo, hi);
    assert(Set::new(|d: int| 0 <= d < total(s) && selects(s, d, i))
        =~= vstd::set_lib::set_int_range(lo, hi));
}

/// The sum of all counts of `successors`.
pub fn total_count(successors: &Vec<ChatMarkovChainSuccessor>) -> (r: u128)
    ensures
        r == total(successors@),
{
    let mut sum: u128 = 0;
    let mut i: usize = 0;
    while i < successors.len()
        invariant
            i <= successors.len(),
            sum == prefix_total(successors@, i as int),
        decreases successors.len() - i,
    {
        proof {
            lemma_prefix_bound(successors@, i as int);
            assert(i * (u32::MAX as int) <= (usize::MAX as int) * (u32::MAX as int)) by (nonlinear_arith)
                requires i <= usize::MAX;
        }
        sum = sum + successors[i].num_times as u128;
        i += 1;
    }
    sum
}

/// The entry that `draw` selects: the first whose running sum of counts exceeds it.
pub fn pick_successor(successors: &Vec<ChatMarkovChainSuccessor>, draw: u128) -> (r: usize)
    requires
        draw < total(successors@),
    ensures
        selects(successors@, draw as int, r as int),
{
    let mut sum: u128 = 0;
    let mut i: usize = 0;
    while i < successors.len()
        invariant
            i <= successors.len(),
            sum == prefix_total(successors@, i as int),
            sum <= draw,
            draw < total(successors@),
        decreases successors.len() - i,
    {
        proof {
            lemma_prefix_bound(successors@, i as int);
            assert(i * (u32::MAX as int) <= (usize::MAX as int) * (u32::MAX as int)) by (nonlinear_arith)
                requires i <= usize::MAX;
        }
        let next = sum + successors[i].num_times as u128;
        if draw < next {
            return i;
        }
        sum = next;
        i += 1;
    }
    i
}

/// `ws` could come out of a walk of `m`: each word is a node other than the end
/// sentinel, each follows the one before it, and the first is a real word or
/// follows the start sentinel.
pub open spec fn is_walk(m: Nodes, ws: Seq<Seq<char>>) -> bool {
    &&& forall|k: int| 0 <= k < ws.len() ==> m.contains_key(#[trigger] ws[k]) && ws[k] != end_word()
    &&& forall|k: int| 1 <= k < ws.len() ==> m[ws[k - 1]].contains_key(#[trigger] ws[k])
    &&& ws.len() > 0 ==> (is_real_word(ws[0]) || m[start_word()].contains_key(ws[0]))
}

/// Where a walk begins, given its two draws: the candidate at `pick_draw` where it
/// may emit a word and `start_draw` falls below the start chance, else `start_index`.
pub open spec fn initial_choice(
    settings: WalkSettings,
    start_draw: u128,
    pick_draw: u128,
    candidates: Seq<usize>,
    start_index: usize,
) -> usize {
    if settings.max_words > 0 && start_draw < settings.start_chance {
        candidates[pick_draw as int]
    } else {
        start_index
    }
}

/// The node where a walk that emitted `ws` stands.
pub open spec fn last_node(ws: Seq<Seq<char>>) -> Seq<char> {
    if ws.len() == 0 {
        start_word()
    } else {
        ws.last()
    }
}

/// `ws` could be what a walk of `m` under `settings` emits: a walk of at most
/// `max_words` words, which begins after the start sentinel unless it may begin at
/// random, and which, where it cannot end by chance and ended early, ended at a node
/// without successors or at one that the end sentinel may follow. Where the walk must
/// begin at random it begins at a real word; where it must end by chance it takes no step.
pub open spec fn walk_outcome(m: Nodes, settings: WalkSettings, ws: Seq<Seq<char>>) -> bool {
    &&& is_walk(m, ws)
    &&& ws.len() <= settings.max_words
    &&& settings.start_chance == 0 ==> (ws.len() > 0 ==> m[start_word()].contains_key(ws[0]))
    &&& settings.end_chance == 0 && ws.len() < settings.max_words ==> (m[last_node(ws)]
        == Map::<Seq<char>, nat>::empty() || m[last_node(ws)].contains_key(end_word()))
    &&& settings.start_chance >= CHANCE_SCALE && settings.max_words > 0 ==> (ws.len() > 0
        && is_real_word(ws[0]))
    &&& settings.end_chance >= CHANCE_SCALE ==> ws.len() <= 1
}

/// The words of `ws` with a single space between each two.
pub open spec fn join_words(ws: Seq<Seq<char>>) -> Seq<char>
    decreases ws.len(),
{
    if ws.len() == 0 {
        Seq::empty()
    } else if ws.len() == 1 {
        ws[0]
    } else {
        join_words(ws.drop_last()) + seq![' '] + ws.last()
    }
}

/// The words of `words` with a single space between each two.
pub fn join_with_spaces(words: &Vec<String>) -> (r: String)
    ensures
        r@ == join_words(views(words@)),
{
    let mut out = String::new();
    let mut i: usize = 0;
    while i < words.len()
        invariant
            i <= words.len(),
            out@ == join_words(views(words@).take(i as int)),
        decreases words.len() - i,
    {
        proof {
            reveal_strlit(" ");
            assert(views(words@).take(i + 1).drop_last() =~= views(words@).take(i as int));
        }
        if i > 0 {
            out.append(" ");
        }
        out.append(words[i].as_str());
        proof {
            if i == 0 {
                assert(out@ =~= views(words@).take(1)[0]);
            }
        }
        i += 1;
    }
    assert(views(words@).take(words.len() as int) =~= views(words@));
    out
}

impl ChatMarkovChain {
    /// The node that a walk at the node `current` moves to when `draw` selects its
    /// successor; `None` where the selected successor is the end sentinel.
    pub fn next_entry(&self, current: usize, draw: u128) -> (r: Option<usize>)
        requires
            self.wf(),
            current < self.entries.len(),
            draw < total(self.entries@[current as int].successors@),
        ensures
            exists|k: int|
                #[trigger] selects(self.entries@[current as int].successors@, draw as int, k) && (
                r is None <==> self.entries@[current as int].successors@[k].word@ == end_word())
                && (r matches Some(t) ==> t < self.entries.len() && self.entries@[t as int].word@
                == self.entries@[current as int].successors@[k].word@),
            r matches Some(t) ==> t < self.entries.len() && self.nodes()[self.entries@[
                current as int
            ].word@].contains_key(self.entries@[t as int].word@),
    {
        let succ = &self.entries[current].successors;
        let k = pick_successor(succ, draw);
        proof {
            lemma_stored_successor(*self, current as int, k as int);
        }
        let end = end_string();
        if succ[k].word == end {
            return None;
        }
        proof {
            lemma_assoc_dom(self.pairs(), succ@[k as int].word@);
        }
        match find_entry(&self.entries, &succ[k].word) {
            Some(t) => Some(t),
            None => {
                proof {
                    let w = succ@[k as int].word@;
                    let t = choose|t: int| 0 <= t < self.pairs().len() && self.pairs()[t].0 == w;
                    assert(self.entries@[t].word@ == w);
                }
                None
            },
        }
    }

    /// The node where a walk begins, given its two draws: the one of `candidates` at
    /// `pick_draw` where the walk may emit a word and `start_draw` falls below the start
    /// chance, else `start_index`.
    pub fn initial_index(
        settings: &WalkSettings,
        start_draw: u128,
        pick_draw: u128,
        candidates: &Vec<usize>,
        start_index: usize,
    ) -> (r: usize)
        requires
            pick_draw < candidates.len(),
        ensures
            r == initial_choice(*settings, start_draw, pick_draw, candidates@, start_index),
    {
        if settings.max_words > 0 && start_draw < settings.start_chance as u128 {
            candidates[pick_draw as usize]
        } else {
            start_index
        }
    }

    /// Draws where a walk begins: with the start chance, one of `candidates` drawn
    /// uniformly, else `start_index`.
    fn get_initial_word(
        &self,
        settings: &WalkSettings,
        rng: &mut StdRng,
        candidates: &Vec<usize>,
        start_index: usize,
    ) -> (r: usize)
        requires
            candidates.len() > 0,
        ensures
            exists|start_draw: u128, pick_draw: u128|
                #![trigger initial_choice(*settings, start_draw, pick_draw, candidates@, start_index)]
                start_draw < CHANCE_SCALE && pick_draw < candidates.len() && r == initial_choice(
                    *settings,
                    start_draw,
                    pick_draw,
                    candidates@,
                    start_index,
                ),
            settings.max_words > 0 && settings.start_chance >= CHANCE_SCALE ==> exists|k: int|
                0 <= k < candidates.len() && r == #[trigger] candidates@[k],
            settings.start_chance == 0 || settings.max_words == 0 ==> r == start_index,
    {
        let start_draw = draw_below(rng, CHANCE_SCALE as u128);
        let pick_draw = if settings.max_words > 0 && start_draw < settings.start_chance as u128 {
            draw_below(rng, candidates.len() as u128)
        } else {
            0
        };
        let r = Self::initial_index(settings, start_draw, pick_draw, candidates, start_index);
        proof {
            if settings.max_words > 0 && settings.start_chance >= CHANCE_SCALE {
                assert(r == candidates@[pick_draw as int]);
            }
        }
        r
    }

    /// One step of a walk at the node `current`, given its draws: `None` where
    /// `end_draw` falls below the end chance, else what `next_entry` gives for `pick_draw`.
    pub fn walk_step(
        &self,
        current: usize,
        settings: &WalkSettings,
        end_draw: u128,
        pick_draw: u128,
    ) -> (r: Option<usize>)
        requires
            self.wf(),
            current < self.entries.len(),
            pick_draw < total(self.entries@[current as int].successors@),
        ensures
            end_draw < settings.end_chance ==> r is None,
            end_draw >= settings.end_chance ==> exists|k: int|
                #[trigger] selects(self.entries@[current as int].successors@, pick_draw as int, k) && (
                r is None <==> self.entries@[current as int].successors@[k].word@ == end_word())
                && (r matches Some(t) ==> t < self.entries.len() && self.entries@[t as int].word@
                == self.entries@[current as int].successors@[k].word@),
            r matches Some(t) ==> t < self.entries.len() && self.nodes()[self.entries@[
                current as int
            ].word@].contains_key(self.entries@[t as int].word@),
    {
        if end_draw < settings.end_chance as u128 {
            None
        } else {
            self.next_entry(current, pick_draw)
        }
    }

    /// The nodes of real words, in order.
    fn real_entries(&self) -> (r: Vec<usize>)
        ensures
            forall|k: int|
                #![trigger r@[k]]
                0 <= k < r.len() ==> r@[k] < self.entries.len() && is_real_word(
                    self.entries@[r@[k] as int].word@,
                ),
            r.len() == 0 <==> !self.has_vocabulary(),
    {
        let start = start_string();
        let end = end_string();
        let mut r: Vec<usize> = Vec::new();
        let mut i: usize = 0;
        while i < self.entries.len()
            invariant
                i <= self.entries.len(),
                start@ == start_word(),
                end@ == end_word(),
                forall|k: int|
                    #![trigger r@[k]]
                    0 <= k < r.len() ==> r@[k] < self.entries.len() && is_real_word(
                        self.entries@[r@[k] as int].word@,
                    ),
                r.len() == 0 ==> forall|k: int| 0 <= k < i ==> !is_real_word(self.entries@[k].word@),
            decreases self.entries.len() - i,
        {
            if !(self.entries[i].word == start) && !(self.entries[i].word == end) {
                let ghost before = r@;
                assert(self.entries@[i as int].word@ != start_word());
                assert(is_real_word(self.entries@[i as int].word@));
                r.push(i);
                proof {
                    assert forall|k: int| 0 <= k < r.len() implies r@[k] < self.entries.len()
                        && is_real_word(self.entries@[r@[k] as int].word@) by {
                        if k < before.len() {
                            assert(r@[k] == before[k]);
                        } else {
                            assert(r@[k] == i);
                        }
                    }
                }
            }
            i += 1;
        }
        proof {
            if r.len() == 0 && self.has_vocabulary() {
                let w = choose|w: Seq<char>| #[trigger] self.nodes().contains_key(w) && is_real_word(w);
                lemma_assoc_dom(self.pairs(), w);
                let t = choose|t: int| 0 <= t < self.pairs().len() && self.pairs()[t].0 == w;
                assert(self.entries@[t].word@ == w);
            }
            if r.len() > 0 {
                let w = self.entries@[r@[0] as int].word@;
                assert(self.pairs()[r@[0] as int].0 == w);
                lemma_assoc_dom(self.pairs(), w);
                assert(self.nodes().contains_key(w) && is_real_word(w));
            }
        }
        r
    }

    /// A new sentence from a weighted random walk, or `None` where the chain knows no
    /// real word. The walk begins at a random real word with the start chance, else at
    /// the start sentinel; before each step it ends with the end chance, and it ends at
    /// the end sentinel, at a node without successors, or after `max_words` words.
    pub fn generate_sentence(&self, settings: &WalkSettings, rng: &mut StdRng) -> (r: Option<
        String,
    >)
        requires
            self.wf(),
        ensures
            r is Some <==> self.has_vocabulary(),
            r matches Some(s) ==> exists|ws: Seq<Seq<char>>|
                #![trigger join_words(ws)]
                walk_outcome(self.nodes(), *settings, ws) && s@ == join_words(ws),
    {
        let candidates = self.real_entries();
        if candidates.len() == 0 {
            return None;
        }
        let start = start_string();
        let start_index = match find_entry(&self.entries, &start) {
            Some(i) => i,
            None => {
                proof {
                    lemma_assoc_dom(self.pairs(), start_word());
                    let t = choose|t: int|
                        0 <= t < self.pairs().len() && self.pairs()[t].0 == start_word();
                    assert(self.entries@[t].word@ == start_word());
                }
                return None;
            },
        };
        let ghost m = self.nodes();
        let mut words: Vec<String> = Vec::new();
        let mut current = self.get_initial_word(settings, rng, &candidates, start_index);
        proof {
            if settings.max_words > 0 && settings.start_chance >= CHANCE_SCALE {
                let k = choose|k: int| 0 <= k < candidates.len() && current == #[trigger] candidates@[k];
                assert(is_real_word(self.entries@[current as int].word@));
            }
            if current != start_index {
                let (sd, pd) = choose|sd: u128, pd: u128|
                    #![trigger initial_choice(*settings, sd, pd, candidates@, start_index)]
                    sd < CHANCE_SCALE && pd < candidates.len() && current == initial_choice(
                        *settings, sd, pd, candidates@, start_index);
                assert(current == candidates@[pd as int]);
            }
        }
        if current != start_index {
            words.push(self.entries[current].word.clone());
            proof {
                assert(self.pairs()[current as int].0 == self.entries@[current as int].word@);
                lemma_assoc_dom(self.pairs(), self.entries@[current as int].word@);
                assert(views(words@) =~= seq![self.entries@[current as int].word@]);
            }
        }
        let mut done = false;
        while !done && words.len() < settings.max_words
            invariant
                self.wf(),
                m == self.nodes(),
                current < self.entries.len(),
                words.len() <= settings.max_words,
                is_walk(m, views(words@)),
                settings.start_chance == 0 ==> (words.len() > 0 ==> m[start_word()].contains_key(
                    views(words@)[0],
                )),
                settings.start_chance >= CHANCE_SCALE && settings.max_words > 0 ==> (words.len() > 0
                    && is_real_word(views(words@)[0])),
                settings.end_chance >= CHANCE_SCALE ==> words.len() <= 1 && (words.len() == 1
                    ==> settings.max_words > 0 && settings.start_chance > 0),
                done && settings.end_chance == 0 ==> (m[last_node(views(words@))] == Map::<
                    Seq<char>,
                    nat,
                >::empty() || m[last_node(views(words@))].contains_key(end_word())),
                words.len() == 0 ==> self.entries@[current as int].word@ == start_word(),
                words.len() > 0 ==> self.entries@[current as int].word@ == views(words@).last(),
            decreases settings.max_words - words.len(), if done { 0nat } else { 1nat },
        {
            let succ = &self.entries[current].successors;
            proof {
                assert(self.pairs()[current as int].0 == self.entries@[current as int].word@);
                crate::assoc::lemma_assoc_index(self.pairs(), current as int);
            }
            if succ.len() == 0 {
                proof {
                    assert(self.entries@[current as int].pairs() =~= Seq::empty());
                    assert(self.entries@[current as int]@.1 =~= Map::<Seq<char>, nat>::empty());
                }
                done = true;
                continue;
            }
            let sum = total_count(succ);
            proof {
                lemma_stored_successor(*self, current as int, 0);
                reveal_with_fuel(prefix_total, 2);
                lemma_prefix_monotone(succ@, 1, succ.len() as int);
            }
            let end_draw = draw_below(rng, CHANCE_SCALE as u128);
            let d = if end_draw < settings.end_chance as u128 {
                0
            } else {
                draw_below(rng, sum)
            };
            match self.walk_step(current, settings, end_draw, d) {
                None if end_draw < settings.end_chance as u128 => {
                    done = true;
                },
                None => {
                    proof {
                        let k = choose|k: int|
                            #[trigger] selects(
                                self.entries@[current as int].successors@,
                                d as int,
                                k,
                            );
                        let k2 = choose|k2: int|
                            #[trigger] selects(
                                self.entries@[current as int].successors@,
                                d as int,
                                k2,
                            ) && self.entries@[current as int].successors@[k2].word@ == end_word();
                        lemma_selects_unique(self.entries@[current as int].successors@, d as int, k, k2);
                        lemma_stored_successor(*self, current as int, k);
                    }
                    done = true;
                },
                Some(t) => {
                    let ghost before = views(words@);
                    let ghost w = self.entries@[t as int].word@;
                    words.push(self.entries[t].word.clone());
                    proof {
                        assert(views(words@) =~= before.push(w));
                        let k = choose|k: int|
                            #[trigger] selects(
                                self.entries@[current as int].successors@,
                                d as int,
                                k,
                            );
                        lemma_stored_successor(*self, current as int, k);
                        assert(m.contains_key(w) && w != end_word());
                    }
                    current = t;
                },
            }
        }
        let s = join_with_spaces(&words);
        Some(s)
    }
}

} // verus!
