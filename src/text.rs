//! Turning a line of text into the words that the chain learns.
use vstd::prelude::*;

verus! {

/// The Unicode White_Space property, which `char::is_whitespace` tests.
pub open spec fn is_space(c: char) -> bool {
    let u = c as u32;
    (0x9 <= u <= 0xD) || u == 0x20 || u == 0x85 || u == 0xA0 || u == 0x1680 || (0x2000 <= u
        <= 0x200A) || u == 0x2028 || u == 0x2029 || u == 0x202F || u == 0x205F || u == 0x3000
}

/// What `str::to_lowercase` returns for a string.
pub uninterp spec fn lower_of(s: Seq<char>) -> Seq<char>;

/// Whether `c` has the Unicode White_Space property.
pub fn char_is_whitespace(c: char) -> (r: bool)
    ensures
        r == is_space(c),
{
    let u = c as u32;
    (0x9 <= u && u <= 0xD) || u == 0x20 || u == 0x85 || u == 0xA0 || u == 0x1680 || (0x2000 <= u
        && u <= 0x200A) || u == 0x2028 || u == 0x2029 || u == 0x202F || u == 0x205F || u == 0x3000
}

/// Relies on `str::to_lowercase`: the lowercase form of `s`, a function of its characters.
#[verifier::external_body]
fn to_lower(s: &str) -> (r: String)
    ensures
        r@ == lower_of(s@),
{
    s.to_lowercase()
}

/// The maximal runs of non-space characters of `s`, in order.
pub open spec fn split_words(s: Seq<char>) -> Seq<Seq<char>>
    decreases s.len(),
{
    if s.len() == 0 {
        Seq::empty()
    } else {
        let w = split_words(s.drop_last());
        let c = s.last();
        if is_space(c) {
            w
        } else if s.len() >= 2 && !is_space(s[s.len() - 2]) {
            w.drop_last().push(w.last().push(c))
        } else {
            w.push(seq![c])
        }
    }
}

pub open spec fn http_prefix() -> Seq<char> {
    seq!['h', 't', 't', 'p', ':', '/', '/']
}

pub open spec fn https_prefix() -> Seq<char> {
    seq!['h', 't', 't', 'p', 's', ':', '/', '/']
}

/// A word that names a web address.
pub open spec fn is_url(w: Seq<char>) -> bool {
    http_prefix().is_prefix_of(w) || https_prefix().is_prefix_of(w)
}

/// The words of `ws` that are no web address, in order.
pub open spec fn drop_urls(ws: Seq<Seq<char>>) -> Seq<Seq<char>>
    decreases ws.len(),
{
    if ws.len() == 0 {
        Seq::empty()
    } else if is_url(ws.last()) {
        drop_urls(ws.drop_last())
    } else {
        drop_urls(ws.drop_last()).push(ws.last())
    }
}

/// The words that a line contributes: split on white space, lowercased, web addresses dropped.
pub open spec fn sentence_words(s: Seq<char>) -> Seq<Seq<char>> {
    drop_urls(split_words(s).map_values(|w: Seq<char>| lower_of(w)))
}

pub open spec fn views(v: Seq<String>) -> Seq<Seq<char>> {
    v.map_values(|x: String| x@)
}

proof fn lemma_split_step(s: Seq<char>, i: int)
    requires
        0 <= i < s.len(),
    ensures
        split_words(s.take(i + 1)) == if is_space(s[i]) {
            split_words(s.take(i))
        } else if i >= 1 && !is_space(s[i - 1]) {
            split_words(s.take(i)).drop_last().push(split_words(s.take(i)).last().push(s[i]))
        } else {
            split_words(s.take(i)).push(seq![s[i]])
        },
{
    assert(s.take(i + 1).drop_last() =~= s.take(i));
}

pub proof fn lemma_split_len(s: Seq<char>)
    ensures
        split_words(s).len() <= s.len(),
        (forall|k: int| 0 <= k < s.len() ==> is_space(s[k])) ==> split_words(s).len() == 0,
    decreases s.len(),
{
    if s.len() > 0 {
        lemma_split_len(s.drop_last());
        assert forall|k: int| 0 <= k < s.len() - 1 && is_space(s[k]) implies is_space(
            s.drop_last()[k],
        ) by {}
    }
}

/// The lowercased words of `s`, split on white space.
fn split_lowercase(s: &str) -> (r: Vec<String>)
    ensures
        views(r@) == split_words(s@).map_values(|w: Seq<char>| lower_of(w)),
{
    let n = s.unicode_len();
    let mut out: Vec<String> = Vec::new();
    let ghost mut done: Seq<Seq<char>> = Seq::empty();
    let mut start: usize = 0;
    let mut in_word = false;
    let mut i: usize = 0;
    while i < n
        invariant
            n == s@.len(),
            i <= n,
            in_word ==> start < i,
            in_word ==> (start == 0 || is_space(s@[start - 1])),
            in_word ==> forall|k: int| start <= k < i ==> !is_space(#[trigger] s@[k]),
            !in_word ==> (i == 0 || is_space(s@[i - 1])),
            split_words(s@.take(i as int)) == if in_word {
                done.push(s@.subrange(start as int, i as int))
            } else {
                done
            },
            views(out@) == done.map_values(|w: Seq<char>| lower_of(w)),
        decreases n - i,
    {
        let c = s.get_char(i);
        proof {
            lemma_split_step(s@, i as int);
        }
        let space = char_is_whitespace(c);
        if space {
            if in_word {
                let w = to_lower(s.substring_char(start, i));
                proof {
                    let old_done = done;
                    done = done.push(s@.subrange(start as int, i as int));
                    assert(views(out@.push(w)) =~= views(out@).push(w@));
                    assert(done.map_values(|w: Seq<char>| lower_of(w)) =~= old_done.map_values(
                        |w: Seq<char>| lower_of(w),
                    ).push(w@));
                }
                out.push(w);
                in_word = false;
            }
        } else {
            if !in_word {
                start = i;
                in_word = true;
                proof {
                    assert(s@.subrange(start as int, i + 1) =~= seq![c]);
                }
            } else {
                proof {
                    assert(s@.subrange(start as int, i + 1) =~= s@.subrange(
                        start as int,
                        i as int,
                    ).push(c));
                }
            }
        }
        i += 1;
    }
    assert(s@.take(n as int) =~= s@);
    if in_word {
        let w = to_lower(s.substring_char(start, n));
        proof {
            let old_done = done;
            done = done.push(s@.subrange(start as int, n as int));
            assert(views(out@.push(w)) =~= views(out@).push(w@));
            assert(done.map_values(|w: Seq<char>| lower_of(w)) =~= old_done.map_values(
                |w: Seq<char>| lower_of(w),
            ).push(w@));
        }
        out.push(w);
    }
    out
}


/// Whether `w` begins with `prefix`.
pub fn has_prefix(w: &str, prefix: &str) -> (r: bool)
    ensures
        r == prefix@.is_prefix_of(w@),
{
    let n = w.unicode_len();
    let m = prefix.unicode_len();
    if m > n {
        return false;
    }
    let mut i: usize = 0;
    while i < m
        invariant
            m == prefix@.len(),
            n == w@.len(),
            m <= n,
            i <= m,
            forall|k: int| 0 <= k < i ==> prefix@[k] == w@[k],
        decreases m - i,
    {
        if prefix.get_char(i) != w.get_char(i) {
            return false;
        }
        i += 1;
    }
    true
}

/// Whether `w` names a web address.
pub fn is_url_word(w: &str) -> (r: bool)
    ensures
        r == is_url(w@),
{
    proof {
        reveal_strlit("http://");
        reveal_strlit("https://");
        assert("http://"@ =~= http_prefix());
        assert("https://"@ =~= https_prefix());
    }
    has_prefix(w, "http://") || has_prefix(w, "https://")
}

/// The words that `sentence` contributes to a chain, in order.
pub fn sentence_words_of(sentence: &str) -> (r: Vec<String>)
    ensures
        views(r@) == sentence_words(sentence@),
        r.len() <= sentence@.len(),
{
    let all = split_lowercase(sentence);
    proof {
        lemma_split_len(sentence@);
    }
    let ghost lowered = views(all@);
    let mut out: Vec<String> = Vec::new();
    let mut i: usize = 0;
    while i < all.len()
        invariant
            i <= all.len(),
            lowered == views(all@),
            views(out@) == drop_urls(lowered.take(i as int)),
            out.len() <= i,
        decreases all.len() - i,
    {
        let ghost before = out@;
        assert(lowered.take(i + 1).drop_last() =~= lowered.take(i as int));
        if !is_url_word(all[i].as_str()) {
            out.push(all[i].clone());
            assert(views(out@) =~= views(before).push(all@[i as int]@));
        }
        i += 1;
    }
    assert(lowered.take(all.len() as int) =~= lowered);
    out
}


/// The pieces of `s` between line feeds, in order; there is always at least one.
pub open spec fn line_segments(s: Seq<char>) -> Seq<Seq<char>>
    decreases s.len(),
{
    if s.len() == 0 {
        seq![Seq::empty()]
    } else {
        let w = line_segments(s.drop_last());
        if s.last() == '\n' {
            w.push(Seq::empty())
        } else {
            w.drop_last().push(w.last().push(s.last()))
        }
    }
}

proof fn lemma_segments_nonempty(s: Seq<char>)
    ensures
        line_segments(s).len() >= 1,
    decreases s.len(),
{
    if s.len() > 0 {
        lemma_segments_nonempty(s.drop_last());
    }
}

/// The pieces of `text` between line feeds, in order.
pub fn split_lines(text: &str) -> (r: Vec<String>)
    ensures
        views(r@) == line_segments(text@),
{
    let n = text.unicode_len();
    let mut out: Vec<String> = Vec::new();
    let mut start: usize = 0;
    let mut i: usize = 0;
    assert(text@.take(0) =~= Seq::<char>::empty());
    assert(views(out@) =~= Seq::<Seq<char>>::empty());
    assert(text@.subrange(0, 0) =~= Seq::<char>::empty());
    assert(line_segments(Seq::<char>::empty()) == seq![Seq::<char>::empty()]);
    assert(views(out@).push(Seq::<char>::empty()) =~= seq![Seq::<char>::empty()]);
    while i < n
        invariant
            n == text@.len(),
            start <= i <= n,
            line_segments(text@.take(i as int)) == views(out@).push(
                text@.subrange(start as int, i as int),
            ),
        decreases n - i,
    {
        let c = text.get_char(i);
        proof {
            assert(text@.take(i + 1).drop_last() =~= text@.take(i as int));
            lemma_segments_nonempty(text@.take(i as int));
        }
        if c == '\n' {
            let piece = String::from_str(text.substring_char(start, i));
            proof {
                assert(views(out@.push(piece)) =~= views(out@).push(piece@));
                assert(text@.subrange(i + 1, i + 1) =~= Seq::<char>::empty());
            }
            out.push(piece);
            start = i + 1;
        } else {
            proof {
                assert(text@.subrange(start as int, i + 1) =~= text@.subrange(
                    start as int,
                    i as int,
                ).push(c));
            }
        }
        i += 1;
    }
    assert(text@.take(n as int) =~= text@);
    let piece = String::from_str(text.substring_char(start, n));
    proof {
        assert(views(out@.push(piece)) =~= views(out@).push(piece@));
    }
    out.push(piece);
    out
}

} // verus!
