//! Checking a chain's invariant before it is trusted or stored.
use vstd::prelude::*;

use crate::assoc::{has_key, keys_unique, lemma_assoc_dom, lemma_assoc_index};
use crate::chain::{
    end_string, end_word, find_entry, start_string, start_word, ChatMarkovChain,
};

verus! {

/// The first violation of the invariant that `validate_chain` finds.
#[derive(Debug)]
pub enum ValidationError {
    /// The start sentinel is no node.
    MissingStart { chat_id: i64 },
    /// The end sentinel is no node.
    MissingEnd { chat_id: i64 },
    /// Two nodes share a word.
    DuplicateWord { chat_id: i64, word: String },
    /// A node lists one successor twice.
    DuplicateSuccessor { chat_id: i64, word: String, successor: String },
    /// A transition has a count of zero.
    ZeroCount { chat_id: i64, word: String, successor: String },
    /// A successor that is no node.
    MissingSuccessor { chat_id: i64, word: String, successor: String },
}

impl ValidationError {
    /// The conversation of the chain that failed.
    pub open spec fn chat_id_of(&self) -> i64 {
        match self {
            ValidationError::MissingStart { chat_id } => *chat_id,
            ValidationError::MissingEnd { chat_id } => *chat_id,
            ValidationError::DuplicateWord { chat_id, .. } => *chat_id,
            ValidationError::DuplicateSuccessor { chat_id, .. } => *chat_id,
            ValidationError::ZeroCount { chat_id, .. } => *chat_id,
            ValidationError::MissingSuccessor { chat_id, .. } => *chat_id,
        }
    }
}

/// No two nodes before position `i` share a word with any later node.
pub open spec fn words_distinct_before(c: ChatMarkovChain, i: int) -> bool {
    forall|a: int, b: int|
        0 <= a < b < c.entries.len() && a < i ==> c.entries@[a].word@ != c.entries@[b].word@
}

/// The successors before position `j` of the node at `i` each have a positive count,
/// occur once and are nodes.
pub open spec fn successors_ok_before(c: ChatMarkovChain, i: int, j: int) -> bool {
    let s = c.entries@[i].successors@;
    &&& forall|a: int, b: int| 0 <= a < b < s.len() && a < j ==> s[a].word@ != s[b].word@
    &&& forall|a: int| 0 <= a < j ==> (#[trigger] s[a]).num_times > 0 && has_key(c.pairs(), s[a].word@)
}

/// The checks of the successor at `(i, j)` are reached: the sentinels are nodes, node
/// words are distinct, every earlier node passed and the earlier successors of node `i` passed.
pub open spec fn reaches_successor(c: ChatMarkovChain, i: int, j: int) -> bool {
    &&& c.nodes().contains_key(start_word())
    &&& c.nodes().contains_key(end_word())
    &&& keys_unique(c.pairs())
    &&& 0 <= i < c.entries.len()
    &&& 0 <= j < c.entries@[i].successors.len()
    &&& forall|a: int| 0 <= a < i ==> entry_ok(c, a)
    &&& successors_ok_before(c, i, j)
}

/// `e` is the first violation that the checks meet, in order: the start sentinel, the
/// end sentinel, node words pairwise (by first then second position), then each node's
/// successors in order, each for a zero count, then a later duplicate, then a missing node.
pub open spec fn reports(c: ChatMarkovChain, e: ValidationError) -> bool {
    e.chat_id_of() == c.chat_id && match e {
        ValidationError::MissingStart { .. } => !c.nodes().contains_key(start_word()),
        ValidationError::MissingEnd { .. } => c.nodes().contains_key(start_word())
            && !c.nodes().contains_key(end_word()),
        ValidationError::DuplicateWord { word, .. } => {
            &&& c.nodes().contains_key(start_word())
            &&& c.nodes().contains_key(end_word())
            &&& exists|i: int, j: int|
                #![trigger c.entries@[i], c.entries@[j]]
                0 <= i < j < c.entries.len() && words_distinct_before(c, i) && (forall|b: int|
                    i < b < j ==> c.entries@[i].word@ != c.entries@[b].word@)
                    && c.entries@[j].word@ == c.entries@[i].word@ && word@ == c.entries@[i].word@
        },
        ValidationError::ZeroCount { word, successor, .. } => exists|i: int, j: int|
            #![trigger c.entries@[i].successors@[j]]
            reaches_successor(c, i, j) && c.entries@[i].successors@[j].num_times == 0 && word@
                == c.entries@[i].word@ && successor@ == c.entries@[i].successors@[j].word@,
        ValidationError::DuplicateSuccessor { word, successor, .. } => exists|i: int, j: int|
            #![trigger c.entries@[i].successors@[j]]
            reaches_successor(c, i, j) && c.entries@[i].successors@[j].num_times > 0 && (exists|
                k: int,
            |
                j < k < c.entries@[i].successors.len() && #[trigger] c.entries@[i].successors@[k].word@
                    == c.entries@[i].successors@[j].word@) && word@ == c.entries@[i].word@
                && successor@ == c.entries@[i].successors@[j].word@,
        ValidationError::MissingSuccessor { word, successor, .. } => exists|i: int, j: int|
            #![trigger c.entries@[i].successors@[j]]
            reaches_successor(c, i, j) && c.entries@[i].successors@[j].num_times > 0 && (forall|
                k: int,
            |
                j < k < c.entries@[i].successors.len() ==> #[trigger] c.entries@[i].successors@[k].word@
                    != c.entries@[i].successors@[j].word@) && !has_key(
                c.pairs(),
                c.entries@[i].successors@[j].word@,
            ) && word@ == c.entries@[i].word@ && successor@
                == c.entries@[i].successors@[j].word@,
    }
}

/// Two reports name the same violation: the same kind, conversation, words and successor.
pub open spec fn same_report(a: ValidationError, b: ValidationError) -> bool {
    match (a, b) {
        (
            ValidationError::MissingStart { chat_id: x },
            ValidationError::MissingStart { chat_id: y },
        ) => x == y,
        (ValidationError::MissingEnd { chat_id: x }, ValidationError::MissingEnd { chat_id: y }) => x
            == y,
        (
            ValidationError::DuplicateWord { chat_id: x, word: w },
            ValidationError::DuplicateWord { chat_id: y, word: v },
        ) => x == y && w@ == v@,
        (
            ValidationError::DuplicateSuccessor { chat_id: x, word: w, successor: s },
            ValidationError::DuplicateSuccessor { chat_id: y, word: v, successor: t },
        ) => x == y && w@ == v@ && s@ == t@,
        (
            ValidationError::ZeroCount { chat_id: x, word: w, successor: s },
            ValidationError::ZeroCount { chat_id: y, word: v, successor: t },
        ) => x == y && w@ == v@ && s@ == t@,
        (
            ValidationError::MissingSuccessor { chat_id: x, word: w, successor: s },
            ValidationError::MissingSuccessor { chat_id: y, word: v, successor: t },
        ) => x == y && w@ == v@ && s@ == t@,
        _ => false,
    }
}

/// The successor at `(i, j)` passes: a positive count, no later duplicate, and a node.
pub open spec fn successor_passes(c: ChatMarkovChain, i: int, j: int) -> bool {
    let s = c.entries@[i].successors@;
    &&& s[j].num_times > 0
    &&& has_key(c.pairs(), s[j].word@)
    &&& forall|k: int| j < k < s.len() ==> s[k].word@ != s[j].word@
}

proof fn lemma_earlier_successor_passes(c: ChatMarkovChain, i: int, j: int, i2: int, j2: int)
    requires
        reaches_successor(c, i2, j2),
        0 <= i < c.entries.len(),
        0 <= j < c.entries@[i].successors.len(),
        i < i2 || (i == i2 && j < j2),
    ensures
        successor_passes(c, i, j),
{
    let s = c.entries@[i].successors@;
    if i < i2 {
        assert(entry_ok(c, i));
        assert(s[j].num_times > 0);
        assert forall|k: int| j < k < s.len() implies s[k].word@ != s[j].word@ by {
            assert(c.entries@[i].pairs()[j].0 == s[j].word@);
            assert(c.entries@[i].pairs()[k].0 == s[k].word@);
        }
    } else {
        assert(s[j].num_times > 0);
    }
}

/// The point at which a report about a successor was made.
pub open spec fn successor_report_at(c: ChatMarkovChain, e: ValidationError, i: int, j: int) -> bool {
    &&& reaches_successor(c, i, j)
    &&& !successor_passes(c, i, j)
    &&& match e {
        ValidationError::ZeroCount { word, successor, .. } => c.entries@[i].successors@[j].num_times
            == 0 && word@ == c.entries@[i].word@ && successor@ == c.entries@[i].successors@[j].word@,
        ValidationError::DuplicateSuccessor { word, successor, .. } => c.entries@[i].successors@[
            j
        ].num_times > 0 && (exists|k: int|
            j < k < c.entries@[i].successors.len() && #[trigger] c.entries@[i].successors@[k].word@
                == c.entries@[i].successors@[j].word@) && word@ == c.entries@[i].word@ && successor@
            == c.entries@[i].successors@[j].word@,
        ValidationError::MissingSuccessor { word, successor, .. } => c.entries@[i].successors@[
            j
        ].num_times > 0 && (forall|k: int|
            j < k < c.entries@[i].successors.len() ==> #[trigger] c.entries@[i].successors@[k].word@
                != c.entries@[i].successors@[j].word@) && !has_key(
            c.pairs(),
            c.entries@[i].successors@[j].word@,
        ) && word@ == c.entries@[i].word@ && successor@ == c.entries@[i].successors@[j].word@,
        _ => false,
    }
}

proof fn lemma_successor_report_point(c: ChatMarkovChain, e: ValidationError) -> (ij: (int, int))
    requires
        reports(c, e),
        e is ZeroCount || e is DuplicateSuccessor || e is MissingSuccessor,
    ensures
        successor_report_at(c, e, ij.0, ij.1),
{
    match e {
        ValidationError::ZeroCount { word, successor, .. } => {
            let (i, j) = choose|i: int, j: int|
                #![trigger c.entries@[i].successors@[j]]
                reaches_successor(c, i, j) && c.entries@[i].successors@[j].num_times == 0 && word@
                    == c.entries@[i].word@ && successor@ == c.entries@[i].successors@[j].word@;
            (i, j)
        },
        ValidationError::DuplicateSuccessor { word, successor, .. } => {
            let (i, j) = choose|i: int, j: int|
                #![trigger c.entries@[i].successors@[j]]
                reaches_successor(c, i, j) && c.entries@[i].successors@[j].num_times > 0 && (exists|
                    k: int,
                |
                    j < k < c.entries@[i].successors.len()
                        && #[trigger] c.entries@[i].successors@[k].word@
                        == c.entries@[i].successors@[j].word@) && word@ == c.entries@[i].word@
                    && successor@ == c.entries@[i].successors@[j].word@;
            let k = choose|k: int|
                j < k < c.entries@[i].successors.len()
                    && #[trigger] c.entries@[i].successors@[k].word@
                    == c.entries@[i].successors@[j].word@;
            (i, j)
        },
        ValidationError::MissingSuccessor { word, successor, .. } => {
            let (i, j) = choose|i: int, j: int|
                #![trigger c.entries@[i].successors@[j]]
                reaches_successor(c, i, j) && c.entries@[i].successors@[j].num_times > 0 && (forall|
                    k: int,
                |
                    j < k < c.entries@[i].successors.len()
                        ==> #[trigger] c.entries@[i].successors@[k].word@
                        != c.entries@[i].successors@[j].word@) && !has_key(
                    c.pairs(),
                    c.entries@[i].successors@[j].word@,
                ) && word@ == c.entries@[i].word@ && successor@
                    == c.entries@[i].successors@[j].word@;
            (i, j)
        },
        _ => (0, 0),
    }
}

/// A chain has one first violation at most: two reports on it name the same one.
pub proof fn lemma_reports_unique(c: ChatMarkovChain, a: ValidationError, b: ValidationError)
    requires
        reports(c, a),
        reports(c, b),
    ensures
        same_report(a, b),
{
    let sa = a is ZeroCount || a is DuplicateSuccessor || a is MissingSuccessor;
    let sb = b is ZeroCount || b is DuplicateSuccessor || b is MissingSuccessor;
    if sa && sb {
        let (i1, j1) = lemma_successor_report_point(c, a);
        let (i2, j2) = lemma_successor_report_point(c, b);
        if i1 < i2 || (i1 == i2 && j1 < j2) {
            lemma_earlier_successor_passes(c, i1, j1, i2, j2);
        } else if i2 < i1 || (i1 == i2 && j2 < j1) {
            lemma_earlier_successor_passes(c, i2, j2, i1, j1);
        }
    } else if sa || sb {
        let (i, j) = if sa {
            lemma_successor_report_point(c, a)
        } else {
            lemma_successor_report_point(c, b)
        };
        let other = if sa { b } else { a };
        if let ValidationError::DuplicateWord { .. } = other {
            let (x, y) = choose|x: int, y: int|
                #![trigger c.entries@[x], c.entries@[y]]
                0 <= x < y < c.entries.len() && words_distinct_before(c, x) && (forall|t: int|
                    x < t < y ==> c.entries@[x].word@ != c.entries@[t].word@)
                    && c.entries@[y].word@ == c.entries@[x].word@;
            assert(c.pairs()[x].0 == c.pairs()[y].0);
        }
    } else {
        if let ValidationError::DuplicateWord { word: w1, .. } = a {
            if let ValidationError::DuplicateWord { word: w2, .. } = b {
                let (x1, y1) = choose|x: int, y: int|
                    #![trigger c.entries@[x], c.entries@[y]]
                    0 <= x < y < c.entries.len() && words_distinct_before(c, x) && (forall|t: int|
                        x < t < y ==> c.entries@[x].word@ != c.entries@[t].word@)
                        && c.entries@[y].word@ == c.entries@[x].word@ && w1@
                        == c.entries@[x].word@;
                let (x2, y2) = choose|x: int, y: int|
                    #![trigger c.entries@[x], c.entries@[y]]
                    0 <= x < y < c.entries.len() && words_distinct_before(c, x) && (forall|t: int|
                        x < t < y ==> c.entries@[x].word@ != c.entries@[t].word@)
                        && c.entries@[y].word@ == c.entries@[x].word@ && w2@
                        == c.entries@[x].word@;
                if x1 < x2 {
                    assert(c.entries@[x1].word@ != c.entries@[y1].word@);
                } else if x2 < x1 {
                    assert(c.entries@[x2].word@ != c.entries@[y2].word@);
                }
            }
        }
    }
}

/// The node at `i` lists each successor once, with a positive count, and each is a node.
pub open spec fn entry_ok(c: ChatMarkovChain, i: int) -> bool {
    let e = c.entries@[i];
    &&& keys_unique(e.pairs())
    &&& forall|j: int|
        0 <= j < e.successors.len() ==> (#[trigger] e.successors@[j]).num_times > 0 && has_key(
            c.pairs(),
            e.successors@[j].word@,
        )
}

proof fn lemma_ok_implies_wf(c: ChatMarkovChain)
    requires
        keys_unique(c.pairs()),
        forall|i: int| 0 <= i < c.entries.len() ==> entry_ok(c, i),
        c.nodes().contains_key(start_word()),
        c.nodes().contains_key(end_word()),
    ensures
        c.wf(),
{
    let m = c.nodes();
    assert forall|i: int| 0 <= i < c.entries.len() implies #[trigger] keys_unique(
        c.entries@[i].pairs(),
    ) by {
        assert(entry_ok(c, i));
    }
    assert forall|w: Seq<char>, s: Seq<char>|
        #![trigger m[w].contains_key(s)]
        m.contains_key(w) && m[w].contains_key(s) implies m.contains_key(s) && m[w][s] > 0 by {
        lemma_assoc_dom(c.pairs(), w);
        let i = choose|i: int| 0 <= i < c.pairs().len() && c.pairs()[i].0 == w;
        lemma_assoc_index(c.pairs(), i);
        let e = c.entries@[i];
        assert(entry_ok(c, i));
        lemma_assoc_dom(e.pairs(), s);
        let j = choose|j: int| 0 <= j < e.pairs().len() && e.pairs()[j].0 == s;
        lemma_assoc_index(e.pairs(), j);
        assert(e.successors@[j].num_times > 0);
        lemma_assoc_dom(c.pairs(), s);
    }
}

/// Checks that `chain` may be walked and stored: both sentinels are nodes, no word
/// is stored twice, every count is positive and every successor is a node.
pub fn validate_chain(chain: &ChatMarkovChain) -> (r: Result<(), ValidationError>)
    ensures
        r is Ok <==> chain.wf(),
        r is Err ==> reports(*chain, r->Err_0),
        r is Err ==> r->Err_0.chat_id_of() == chain.chat_id,
        (r == Err::<(), ValidationError>(ValidationError::MissingStart { chat_id: chain.chat_id }))
            <==> !chain.nodes().contains_key(start_word()),
        (r == Err::<(), ValidationError>(ValidationError::MissingEnd { chat_id: chain.chat_id }))
            <==> (chain.nodes().contains_key(start_word()) && !chain.nodes().contains_key(
            end_word(),
        )),
        r matches Err(ValidationError::DuplicateWord { word, .. }) ==> exists|i: int, j: int|
            0 <= i < j < chain.entries.len() && chain.entries@[i].word@ == word@
                && chain.entries@[j].word@ == word@,
        r matches Err(ValidationError::DuplicateSuccessor { word, successor, .. }) ==> exists|
            i: int,
            j: int,
            k: int,
        |
            0 <= i < chain.entries.len() && chain.entries@[i].word@ == word@ && 0 <= j < k
                < chain.entries@[i].successors.len() && chain.entries@[i].successors@[j].word@
                == successor@ && chain.entries@[i].successors@[k].word@ == successor@,
        r matches Err(ValidationError::ZeroCount { word, successor, .. }) ==> exists|
            i: int,
            j: int,
        |
            0 <= i < chain.entries.len() && chain.entries@[i].word@ == word@ && 0 <= j
                < chain.entries@[i].successors.len() && chain.entries@[i].successors@[j].word@
                == successor@ && chain.entries@[i].successors@[j].num_times == 0,
        r matches Err(ValidationError::MissingSuccessor { word, successor, .. }) ==> {
            &&& chain.nodes().contains_key(word@)
            &&& chain.nodes()[word@].contains_key(successor@)
            &&& !chain.nodes().contains_key(successor@)
        },
{
    let entries = &chain.entries;
    let n = entries.len();
    let start = start_string();
    let end = end_string();
    proof {
        lemma_assoc_dom(chain.pairs(), start_word());
        lemma_assoc_dom(chain.pairs(), end_word());
    }
    match find_entry(entries, &start) {
        None => {
            return Err(ValidationError::MissingStart { chat_id: chain.chat_id });
        },
        Some(i) => {
            assert(chain.pairs()[i as int].0 == start_word());
        },
    }
    match find_entry(entries, &end) {
        None => {
            return Err(ValidationError::MissingEnd { chat_id: chain.chat_id });
        },
        Some(i) => {
            assert(chain.pairs()[i as int].0 == end_word());
        },
    }
    let mut i: usize = 0;
    while i < n
        invariant
            n == entries.len(),
            entries == chain.entries,
            i <= n,
            chain.nodes().contains_key(start_word()),
            chain.nodes().contains_key(end_word()),
            forall|a: int, b: int| 0 <= a < b < n && a < i ==> entries@[a].word@ != entries@[b].word@,
        decreases n - i,
    {
        let mut j: usize = i + 1;
        while j < n
            invariant
                n == entries.len(),
                entries == chain.entries,
                i < j <= n,
                chain.nodes().contains_key(start_word()),
                chain.nodes().contains_key(end_word()),
                forall|a: int, b: int|
                    0 <= a < b < n && a < i ==> entries@[a].word@ != entries@[b].word@,
                forall|b: int| i < b < j ==> entries@[i as int].word@ != entries@[b].word@,
            decreases n - j,
        {
            if entries[i].word == entries[j].word {
                assert(chain.pairs()[i as int].0 == chain.pairs()[j as int].0);
                return Err(
                    ValidationError::DuplicateWord {
                        chat_id: chain.chat_id,
                        word: entries[i].word.clone(),
                    },
                );
            }
            j += 1;
        }
        i += 1;
    }
    assert(keys_unique(chain.pairs()));
    let mut i: usize = 0;
    while i < n
        invariant
            n == entries.len(),
            entries == chain.entries,
            i <= n,
            chain.nodes().contains_key(start_word()),
            chain.nodes().contains_key(end_word()),
            keys_unique(chain.pairs()),
            forall|a: int| 0 <= a < i ==> entry_ok(*chain, a),
        decreases n - i,
    {
        let succ = &entries[i].successors;
        let m = succ.len();
        let ghost e = entries@[i as int];
        proof {
            lemma_assoc_index(chain.pairs(), i as int);
        }
        let mut j: usize = 0;
        while j < m
            invariant
                n == entries.len(),
                entries == chain.entries,
                i < n,
                chain.nodes().contains_key(start_word()),
                chain.nodes().contains_key(end_word()),
                e == entries@[i as int],
                succ == e.successors,
                forall|a: int| 0 <= a < i ==> entry_ok(*chain, a),
                m == succ.len(),
                j <= m,
                keys_unique(chain.pairs()),
                chain.nodes()[e.word@] == e@.1,
                chain.nodes().contains_key(e.word@),
                forall|a: int, b: int|
                    0 <= a < b < m && a < j ==> succ@[a].word@ != succ@[b].word@,
                forall|a: int|
                    0 <= a < j ==> (#[trigger] succ@[a]).num_times > 0 && has_key(
                        chain.pairs(),
                        succ@[a].word@,
                    ),
            decreases m - j,
        {
            if succ[j].num_times == 0 {
                proof {
                    assert(successors_ok_before(*chain, i as int, j as int));
                    assert(reaches_successor(*chain, i as int, j as int));
                    assert(chain.entries@[i as int].successors@[j as int].num_times == 0);
                    if keys_unique(e.pairs()) {
                        lemma_assoc_index(e.pairs(), j as int);
                        assert(chain.nodes()[e.word@][succ@[j as int].word@] == 0);
                        assert(chain.nodes()[e.word@].contains_key(succ@[j as int].word@));
                    } else {
                        assert(!keys_unique(chain.entries@[i as int].pairs()));
                    }
                }
                return Err(
                    ValidationError::ZeroCount {
                        chat_id: chain.chat_id,
                        word: entries[i].word.clone(),
                        successor: succ[j].word.clone(),
                    },
                );
            }
            assert(successors_ok_before(*chain, i as int, j as int));
            let mut k: usize = j + 1;
            while k < m
                invariant
                    n == entries.len(),
                    entries == chain.entries,
                    i < n,
                    succ == entries@[i as int].successors,
                    chain.nodes().contains_key(start_word()),
                    chain.nodes().contains_key(end_word()),
                    m == succ.len(),
                    j < k <= m,
                    keys_unique(chain.pairs()),
                    forall|a: int| 0 <= a < i ==> entry_ok(*chain, a),
                    successors_ok_before(*chain, i as int, j as int),
                    succ@[j as int].num_times > 0,
                    forall|b: int| j < b < k ==> succ@[j as int].word@ != succ@[b].word@,
                decreases m - k,
            {
                if succ[j].word == succ[k].word {
                    assert(entries@[i as int].pairs()[j as int].0 == entries@[i as int].pairs()[k as int].0);
                    assert(!keys_unique(chain.entries@[i as int].pairs()));
                    assert(reaches_successor(*chain, i as int, j as int));
                    assert(chain.entries@[i as int].successors@[k as int].word@
                        == chain.entries@[i as int].successors@[j as int].word@);
                    return Err(
                        ValidationError::DuplicateSuccessor {
                            chat_id: chain.chat_id,
                            word: entries[i].word.clone(),
                            successor: succ[j].word.clone(),
                        },
                    );
                }
                k += 1;
            }
            proof {
                lemma_assoc_dom(chain.pairs(), succ@[j as int].word@);
            }
            match find_entry(entries, &succ[j].word) {
                None => {
                    proof {
                        lemma_assoc_dom(e.pairs(), succ@[j as int].word@);
                        assert(e.pairs()[j as int].0 == succ@[j as int].word@);
                        assert(successors_ok_before(*chain, i as int, j as int));
                        assert(reaches_successor(*chain, i as int, j as int));
                        assert(chain.entries@[i as int].successors@[j as int].num_times > 0);
                    }
                    return Err(
                        ValidationError::MissingSuccessor {
                            chat_id: chain.chat_id,
                            word: entries[i].word.clone(),
                            successor: succ[j].word.clone(),
                        },
                    );
                },
                Some(t) => {
                    assert(chain.pairs()[t as int].0 == succ@[j as int].word@);
                },
            }
            j += 1;
        }
        assert(entry_ok(*chain, i as int));
        i += 1;
    }
    proof {
        lemma_ok_implies_wf(*chain);
    }
    Ok(())
}

} // verus!
