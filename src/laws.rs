//! Properties of learning that hold for every input.
use vstd::prelude::*;

use crate::chain::{
    add_transitions, add_words, framed, has_room, is_closed, lemma_add_transition_closed, Nodes,
};
use crate::text::{drop_urls, is_space, is_url, lemma_split_len, sentence_words, split_words};

verus! {

/// The model after learning each line of `lines` in turn.
pub open spec fn learn_lines(m: Nodes, lines: Seq<Seq<char>>) -> Nodes
    decreases lines.len(),
{
    if lines.len() == 0 {
        m
    } else {
        add_words(learn_lines(m, lines.drop_last()), sentence_words(lines.last()))
    }
}

proof fn lemma_transitions_closed(m: Nodes, words: Seq<Seq<char>>, k: nat)
    requires
        is_closed(m),
    ensures
        is_closed(add_transitions(m, words, k)),
    decreases k,
{
    if k > 0 {
        lemma_transitions_closed(m, words, (k - 1) as nat);
        lemma_add_transition_closed(
            add_transitions(m, words, (k - 1) as nat),
            framed(words, k - 1),
            framed(words, k as int),
        );
    }
}

/// Whatever lines a chain learns, both sentinels stay nodes, every successor stays
/// a node and every count stays positive.
pub proof fn lemma_learning_keeps_closed(m: Nodes, lines: Seq<Seq<char>>)
    requires
        is_closed(m),
    ensures
        is_closed(learn_lines(m, lines)),
    decreases lines.len(),
{
    if lines.len() > 0 {
        lemma_learning_keeps_closed(m, lines.drop_last());
        let words = sentence_words(lines.last());
        if words.len() > 0 {
            lemma_transitions_closed(learn_lines(m, lines.drop_last()), words, words.len() + 1);
        }
    }
}

/// A line of white space alone may be learned by any chain and teaches it nothing.
pub proof fn lemma_blank_line_changes_nothing(m: Nodes, line: Seq<char>)
    requires
        line.len() < u32::MAX,
        forall|k: int| 0 <= k < line.len() ==> is_space(#[trigger] line[k]),
    ensures
        has_room(m, line),
        add_words(m, sentence_words(line)) == m,
{
    lemma_split_len(line);
    assert(split_words(line).map_values(|w: Seq<char>| crate::text::lower_of(w)) =~= Seq::empty());
}

proof fn lemma_drop_urls_keeps_no_url(ws: Seq<Seq<char>>)
    ensures
        forall|k: int| 0 <= k < drop_urls(ws).len() ==> !is_url(#[trigger] drop_urls(ws)[k]),
    decreases ws.len(),
{
    if ws.len() > 0 {
        let t = ws.drop_last();
        lemma_drop_urls_keeps_no_url(t);
        if !is_url(ws.last()) {
            let r = drop_urls(t).push(ws.last());
            assert(drop_urls(ws) == r);
            assert forall|k: int| 0 <= k < r.len() implies !is_url(#[trigger] r[k]) by {
                if k < drop_urls(t).len() {
                    assert(r[k] == drop_urls(t)[k]);
                }
            }
        }
    }
}

/// No word that a line contributes is a web address.
pub proof fn lemma_no_url_is_learned(line: Seq<char>)
    ensures
        forall|k: int|
            0 <= k < sentence_words(line).len() ==> !is_url(#[trigger] sentence_words(line)[k]),
{
    lemma_drop_urls_keeps_no_url(split_words(line).map_values(|w: Seq<char>| crate::text::lower_of(w)));
}

} // verus!
