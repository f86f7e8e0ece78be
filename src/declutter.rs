use vstd::prelude::*;
use crate::text::{
    alphabetic,
    chars_equal,
    chars_of,
    equals_str,
    is_alphabetic,
    is_white_space,
    lower_of,
    lowercase,
    string_of,
    utf8_len,
    utf8_len_exceeds,
    white_space,
};

verus! {

broadcast use vstd::string::group_string_axioms;

/// Scans `s` left to right: the words completed so far and the word being read.
pub open spec fn split_state(s: Seq<char>) -> (Seq<Seq<char>>, Seq<char>)
    decreases s.len(),
{
    if s.len() == 0 {
        (seq![], seq![])
    } else {
        let (ws, cur) = split_state(s.drop_last());
        let c = s.last();
        if white_space(c) {
            if cur.len() > 0 {
                (ws.push(cur), seq![])
            } else {
                (ws, seq![])
            }
        } else {
            (ws, cur.push(c))
        }
    }
}

/// The maximal runs of non-whitespace characters of `s`, in order.
pub open spec fn words(s: Seq<char>) -> Seq<Seq<char>> {
    let (ws, cur) = split_state(s);
    if cur.len() > 0 {
        ws.push(cur)
    } else {
        ws
    }
}

pub open spec fn trim_start(w: Seq<char>) -> Seq<char>
    decreases w.len(),
{
    if w.len() > 0 && !alphabetic(w[0]) {
        trim_start(w.drop_first())
    } else {
        w
    }
}

pub open spec fn trim_end(w: Seq<char>) -> Seq<char>
    decreases w.len(),
{
    if w.len() > 0 && !alphabetic(w.last()) {
        trim_end(w.drop_last())
    } else {
        w
    }
}

/// A word with its non-alphabetic characters removed from both edges.
pub open spec fn trim_word(w: Seq<char>) -> Seq<char> {
    trim_end(trim_start(w))
}

/// Common English function words and pronouns that carry no topic.
#[verifier::opaque]
pub open spec fn stop_words() -> Seq<Seq<char>> {
    seq![
        "the"@, "a"@, "an"@, "and"@, "or"@, "but"@, "in"@, "on"@, "at"@, "to"@, "for"@,
        "of"@, "with"@, "by"@, "from"@, "as"@, "is"@, "are"@, "was"@, "were"@, "be"@,
        "been"@, "have"@, "has"@, "had"@, "do"@, "does"@, "did"@, "will"@, "would"@,
        "could"@, "should"@, "may"@, "might"@, "can"@, "this"@, "that"@, "these"@,
        "those"@, "i"@, "you"@, "he"@, "she"@, "it"@, "we"@, "they"@, "me"@, "him"@,
        "her"@, "us"@, "them"@, "my"@, "your"@, "his"@, "its"@, "our"@, "their"@,
    ]
}

/// A trimmed word is kept when it is longer than two bytes in UTF-8 and no stop word.
pub open spec fn keep_word(w: Seq<char>) -> bool {
    &&& w.len() > 0
    &&& !stop_words().contains(w)
    &&& utf8_len(w) > 2
}

/// The trimmed words that are kept, in order.
pub open spec fn kept_tokens(ws: Seq<Seq<char>>) -> Seq<Seq<char>>
    decreases ws.len(),
{
    if ws.len() == 0 {
        seq![]
    } else {
        let prev = kept_tokens(ws.drop_last());
        let t = trim_word(ws.last());
        if keep_word(t) {
            prev.push(t)
        } else {
            prev
        }
    }
}

/// The index-ready tokens of already lower-cased text.
pub open spec fn tokens_of(lowered: Seq<char>) -> Seq<Seq<char>> {
    kept_tokens(words(lowered))
}

pub open spec fn occurrences(ts: Seq<Seq<char>>, w: Seq<char>) -> nat
    decreases ts.len(),
{
    if ts.len() == 0 {
        0
    } else {
        occurrences(ts.drop_last(), w) + if ts.last() == w {
            1nat
        } else {
            0nat
        }
    }
}

/// `f` lists each distinct token once, with the number of times it occurs.
pub open spec fn is_frequency_table(f: Seq<(Seq<char>, nat)>, ts: Seq<Seq<char>>) -> bool {
    &&& forall|i: int, j: int| 0 <= i < j < f.len() ==> f[i].0 != f[j].0
    &&& forall|i: int|
        0 <= i < f.len() ==> ts.contains(#[trigger] f[i].0) && f[i].1 == occurrences(ts, f[i].0)
    &&& forall|k: int|
        #![trigger ts[k]]
        0 <= k < ts.len() ==> exists|i: int| #![trigger f[i]] 0 <= i < f.len() && f[i].0 == ts[k]
}

pub open spec fn char_views(v: Seq<Vec<char>>) -> Seq<Seq<char>> {
    v.map_values(|w: Vec<char>| w@)
}

pub open spec fn table_view(v: Seq<(String, usize)>) -> Seq<(Seq<char>, nat)> {
    v.map_values(|e: (String, usize)| (e.0@, e.1 as nat))
}

fn split_words(s: &Vec<char>) -> (r: Vec<Vec<char>>)
    ensures
        char_views(r@) == words(s@),
{
    let mut ws: Vec<Vec<char>> = Vec::new();
    let mut cur: Vec<char> = Vec::new();
    let mut k: usize = 0;
    while k < s.len()
        invariant
            0 <= k <= s@.len(),
            (char_views(ws@), cur@) == split_state(s@.take(k as int)),
        decreases s@.len() - k,
    {
        let c = s[k];
        assert(s@.take(k + 1).drop_last() =~= s@.take(k as int));
        let ghost old_ws = ws@;
        if is_white_space(c) {
            if cur.len() > 0 {
                ws.push(cur);
                assert(char_views(ws@) =~= char_views(old_ws).push(split_state(s@.take(k as int)).1));
            }
            cur = Vec::new();
        } else {
            cur.push(c);
        }
        k = k + 1;
    }
    assert(s@.take(k as int) =~= s@);
    if cur.len() > 0 {
        let ghost old_ws = ws@;
        ws.push(cur);
        assert(char_views(ws@) =~= char_views(old_ws).push(split_state(s@).1));
    }
    ws
}

proof fn lemma_trim_start_skip(w: Seq<char>, i: int)
    requires
        0 <= i <= w.len(),
        forall|t: int| 0 <= t < i ==> !alphabetic(#[trigger] w[t]),
    ensures
        trim_start(w) == trim_start(w.skip(i)),
    decreases i,
{
    if i > 0 {
        assert(w.skip(1) =~= w.drop_first());
        lemma_trim_start_skip(w.drop_first(), i - 1);
        assert(w.drop_first().skip(i - 1) =~= w.skip(i));
    } else {
        assert(w.skip(0) =~= w);
    }
}

proof fn lemma_trim_end_take(w: Seq<char>, j: int)
    requires
        0 <= j <= w.len(),
        forall|t: int| j <= t < w.len() ==> !alphabetic(#[trigger] w[t]),
    ensures
        trim_end(w) == trim_end(w.take(j)),
    decreases w.len() - j,
{
    if j < w.len() {
        assert(w.take(w.len() - 1) =~= w.drop_last());
        lemma_trim_end_take(w.drop_last(), j);
        assert(w.drop_last().take(j) =~= w.take(j));
    } else {
        assert(w.take(j) =~= w);
    }
}

fn trim_non_alphabetic(w: &Vec<char>) -> (r: Vec<char>)
    ensures
        r@ == trim_word(w@),
{
    let mut i: usize = 0;
    while i < w.len() && !is_alphabetic(w[i])
        invariant
            0 <= i <= w@.len(),
            forall|t: int| 0 <= t < i ==> !alphabetic(#[trigger] w@[t]),
        decreases w@.len() - i,
    {
        i = i + 1;
    }
    proof {
        lemma_trim_start_skip(w@, i as int);
    }
    let rest = crate::text::slice_chars(w, i, w.len());
    assert(rest@ =~= w@.skip(i as int));
    assert(trim_start(rest@) == rest@);
    let mut j: usize = rest.len();
    while j > 0 && !is_alphabetic(rest[j - 1])
        invariant
            0 <= j <= rest@.len(),
            forall|t: int| j <= t < rest@.len() ==> !alphabetic(#[trigger] rest@[t]),
        decreases j,
    {
        j = j - 1;
    }
    proof {
        lemma_trim_end_take(rest@, j as int);
    }
    let r = crate::text::slice_chars(&rest, 0, j);
    assert(r@ =~= rest@.take(j as int));
    assert(j == 0 || alphabetic(r@.last()));
    assert(trim_end(r@) == r@);
    r
}


fn stop_word_list() -> (v: Vec<&'static str>)
    ensures
        v@.map_values(|s: &str| s@) == stop_words(),
{
    let mut v: Vec<&'static str> = Vec::new();
    v.push("the");
    v.push("a");
    v.push("an");
    v.push("and");
    v.push("or");
    v.push("but");
    v.push("in");
    v.push("on");
    v.push("at");
    v.push("to");
    v.push("for");
    v.push("of");
    v.push("with");
    v.push("by");
    v.push("from");
    v.push("as");
    v.push("is");
    v.push("are");
    v.push("was");
    v.push("were");
    v.push("be");
    v.push("been");
    v.push("have");
    v.push("has");
    v.push("had");
    v.push("do");
    v.push("does");
    v.push("did");
    v.push("will");
    v.push("would");
    v.push("could");
    v.push("should");
    v.push("may");
    v.push("might");
    v.push("can");
    v.push("this");
    v.push("that");
    v.push("these");
    v.push("those");
    v.push("i");
    v.push("you");
    v.push("he");
    v.push("she");
    v.push("it");
    v.push("we");
    v.push("they");
    v.push("me");
    v.push("him");
    v.push("her");
    v.push("us");
    v.push("them");
    v.push("my");
    v.push("your");
    v.push("his");
    v.push("its");
    v.push("our");
    v.push("their");
    proof {
        reveal(stop_words);
    }
    assert(v@.map_values(|s: &str| s@) =~= stop_words());
    v
}

fn is_stop_word(w: &Vec<char>) -> (r: bool)
    ensures
        r == stop_words().contains(w@),
{
    let list = stop_word_list();
    let ghost sw = stop_words();
    let mut i: usize = 0;
    while i < list.len()
        invariant
            0 <= i <= list@.len(),
            list@.map_values(|s: &str| s@) == sw,
            sw == stop_words(),
            forall|t: int| 0 <= t < i ==> sw[t] != w@,
        decreases list@.len() - i,
    {
        assert(sw[i as int] == list@[i as int]@);
        if equals_str(w, list[i]) {
            assert(sw[i as int] == w@);
            assert(sw.contains(w@));
            return true;
        }
        i = i + 1;
    }
    assert(!sw.contains(w@)) by {
        if sw.contains(w@) {
            let t = choose|t: int| 0 <= t < sw.len() && sw[t] == w@;
            assert(sw.len() == list@.len());
        }
    }
    false
}

fn keep_token(w: &Vec<char>) -> (r: bool)
    ensures
        r == keep_word(w@),
{
    if w.len() == 0 || is_stop_word(w) {
        return false;
    }
    utf8_len_exceeds(w, 2)
}


fn tokenize(lowered: &Vec<char>) -> (r: Vec<Vec<char>>)
    ensures
        char_views(r@) == tokens_of(lowered@),
{
    let ws = split_words(lowered);
    let ghost wv = char_views(ws@);
    let mut out: Vec<Vec<char>> = Vec::new();
    let mut k: usize = 0;
    while k < ws.len()
        invariant
            0 <= k <= ws@.len(),
            wv == char_views(ws@),
            wv == words(lowered@),
            char_views(out@) == kept_tokens(wv.take(k as int)),
        decreases ws@.len() - k,
    {
        let t = trim_non_alphabetic(&ws[k]);
        assert(wv.take(k + 1).drop_last() =~= wv.take(k as int));
        assert(wv.take(k + 1).last() == ws@[k as int]@);
        if keep_token(&t) {
            let ghost before = out@;
            out.push(t);
            assert(char_views(out@) =~= char_views(before).push(t@));
        }
        k = k + 1;
    }
    assert(wv.take(k as int) =~= wv);
    out
}

pub proof fn lemma_occurrences_push(s: Seq<Seq<char>>, x: Seq<char>, w: Seq<char>)
    ensures
        occurrences(s.push(x), w) == occurrences(s, w) + if x == w {
            1nat
        } else {
            0nat
        },
{
    assert(s.push(x).drop_last() =~= s);
}

pub proof fn lemma_occurrences_absent(s: Seq<Seq<char>>, w: Seq<char>)
    requires
        !s.contains(w),
    ensures
        occurrences(s, w) == 0,
    decreases s.len(),
{
    if s.len() > 0 {
        assert(s =~= s.drop_last().push(s.last()));
        assert(!s.drop_last().contains(w)) by {
            if s.drop_last().contains(w) {
                let i = choose|i: int| 0 <= i < s.drop_last().len() && s.drop_last()[i] == w;
                assert(s[i] == w);
            }
        }
        lemma_occurrences_absent(s.drop_last(), w);
        lemma_occurrences_push(s.drop_last(), s.last(), w);
    }
}

pub open spec fn pair_view(v: Seq<(Vec<char>, usize)>) -> Seq<(Seq<char>, nat)> {
    v.map_values(|e: (Vec<char>, usize)| (e.0@, e.1 as nat))
}

fn tally(ts: &Vec<Vec<char>>) -> (f: Vec<(Vec<char>, usize)>)
    ensures
        is_frequency_table(pair_view(f@), char_views(ts@)),
{
    let ghost tv = char_views(ts@);
    let mut f: Vec<(Vec<char>, usize)> = Vec::new();
    let mut k: usize = 0;
    while k < ts.len()
        invariant
            0 <= k <= ts@.len(),
            tv == char_views(ts@),
            is_frequency_table(pair_view(f@), tv.take(k as int)),
            forall|i: int| 0 <= i < f@.len() ==> #[trigger] f@[i].1 <= k,
        decreases ts@.len() - k,
    {
        let w = &ts[k];
        let ghost pre = tv.take(k as int);
        let ghost post = tv.take(k + 1);
        let ghost wv = w@;
        assert(post =~= pre.push(wv));
        let mut j: usize = 0;
        let mut at: Option<usize> = None;
        while j < f.len()
            invariant
                0 <= j <= f@.len(),
                wv == w@,
                at is None ==> forall|t: int| 0 <= t < j ==> f@[t].0@ != wv,
                at matches Some(a) ==> a < f@.len() && f@[a as int].0@ == wv,
            decreases f@.len() - j,
        {
            if at.is_none() && chars_equal(&f[j].0, w) {
                at = Some(j);
            }
            j = j + 1;
        }
        let found = at.is_some();
        let i: usize = match at {
            Some(a) => a,
            None => 0,
        };
        let ghost old_f = pair_view(f@);
        proof {
            assert forall|x: Seq<char>| occurrences(post, x) == occurrences(pre, x) + if wv == x {
                1nat
            } else {
                0nat
            } by {
                lemma_occurrences_push(pre, wv, x);
            }
            assert forall|x: Seq<char>| post.contains(x) <==> pre.contains(x) || x == wv by {
                if post.contains(x) && x != wv {
                    let j = choose|j: int| 0 <= j < post.len() && post[j] == x;
                    assert(pre[j] == x);
                }
                if pre.contains(x) {
                    let j = choose|j: int| 0 <= j < pre.len() && pre[j] == x;
                    assert(post[j] == x);
                }
                if x == wv {
                    assert(post[k as int] == x);
                }
            }
        }
        if found {
            let c = f[i].1;
            let entry = (crate::text::slice_chars(&f[i].0, 0, f[i].0.len()), c + 1);
            assert(entry.0@ =~= wv);
            f.set(i, entry);
            proof {
                assert(pair_view(f@) =~= old_f.update(i as int, (wv, (c + 1) as nat)));
                assert(old_f[i as int].0 == wv);
                assert forall|a: int, b: int| 0 <= a < b < pair_view(f@).len() implies pair_view(f@)[a].0
                    != pair_view(f@)[b].0 by {
                    assert(old_f[a].0 != old_f[b].0);
                }
                assert forall|a: int| 0 <= a < pair_view(f@).len() implies post.contains(
                    #[trigger] pair_view(f@)[a].0,
                ) && pair_view(f@)[a].1 == occurrences(post, pair_view(f@)[a].0) by {
                    assert(pre.contains(old_f[a].0));
                    if a != i {
                        assert(old_f[a].0 != wv);
                    }
                }
                assert forall|q: int|
                    #![trigger post[q]]
                    0 <= q < post.len() implies exists|j: int|
                    #![trigger pair_view(f@)[j]]
                    0 <= j < pair_view(f@).len() && pair_view(f@)[j].0 == post[q] by {
                    if q < k {
                        assert(pre[q] == post[q]);
                        let j = choose|j: int| #![trigger old_f[j]] 0 <= j < old_f.len() && old_f[j].0 == pre[q];
                        assert(pair_view(f@)[j].0 == post[q]);
                    } else {
                        assert(pair_view(f@)[i as int].0 == post[q]);
                    }
                }
            }
        } else {
            proof {
                assert(!pre.contains(wv)) by {
                    if pre.contains(wv) {
                        let q = choose|q: int| 0 <= q < pre.len() && pre[q] == wv;
                        let j = choose|j: int| #![trigger old_f[j]] 0 <= j < old_f.len() && old_f[j].0 == pre[q];
                        assert(old_f[j].0 == f@[j].0@);
                    }
                }
                lemma_occurrences_absent(pre, wv);
            }
            let copy = crate::text::slice_chars(w, 0, w.len());
            assert(copy@ =~= wv);
            f.push((copy, 1));
            proof {
                assert(pair_view(f@) =~= old_f.push((wv, 1nat)));
                assert forall|a: int| 0 <= a < old_f.len() implies old_f[a].0 != wv by {
                    assert(old_f[a].0 == f@[a].0@);
                }
                assert forall|a: int, b: int| 0 <= a < b < pair_view(f@).len() implies pair_view(f@)[a].0
                    != pair_view(f@)[b].0 by {
                    if b < old_f.len() {
                        assert(old_f[a].0 != old_f[b].0);
                    }
                }
                assert forall|a: int| 0 <= a < pair_view(f@).len() implies post.contains(
                    #[trigger] pair_view(f@)[a].0,
                ) && pair_view(f@)[a].1 == occurrences(post, pair_view(f@)[a].0) by {
                    if a < old_f.len() {
                        assert(pre.contains(old_f[a].0));
                    }
                }
                assert forall|q: int|
                    #![trigger post[q]]
                    0 <= q < post.len() implies exists|j: int|
                    #![trigger pair_view(f@)[j]]
                    0 <= j < pair_view(f@).len() && pair_view(f@)[j].0 == post[q] by {
                    if q < k {
                        assert(pre[q] == post[q]);
                        let j = choose|j: int| #![trigger old_f[j]] 0 <= j < old_f.len() && old_f[j].0 == pre[q];
                        assert(pair_view(f@)[j].0 == post[q]);
                    } else {
                        assert(pair_view(f@)[old_f.len() as int].0 == post[q]);
                    }
                }
            }
        }
        k = k + 1;
    }
    assert(tv.take(k as int) =~= tv);
    f
}

fn to_string_table(f: &Vec<(Vec<char>, usize)>) -> (r: Vec<(String, usize)>)
    ensures
        table_view(r@) == pair_view(f@),
{
    let mut r: Vec<(String, usize)> = Vec::new();
    let mut k: usize = 0;
    while k < f.len()
        invariant
            0 <= k <= f@.len(),
            table_view(r@) == pair_view(f@).take(k as int),
        decreases f@.len() - k,
    {
        let ghost before = r@;
        let word = string_of(&f[k].0);
        r.push((word, f[k].1));
        assert(table_view(r@) =~= table_view(before).push((f@[k as int].0@, f@[k as int].1 as nat)));
        assert(pair_view(f@).take(k + 1) =~= pair_view(f@).take(k as int).push(pair_view(f@)[k as int]));
        assert(table_view(r@) =~= pair_view(f@).take(k + 1));
        k = k + 1;
    }
    assert(pair_view(f@).take(k as int) =~= pair_view(f@));
    r
}

/// Word counts of text that is already lower case.
pub fn frequency_of_lowered(lowered: &str) -> (r: Vec<(String, usize)>)
    ensures
        is_frequency_table(table_view(r@), tokens_of(lowered@)),
{
    let chars = chars_of(lowered);
    let tokens = tokenize(&chars);
    let f = tally(&tokens);
    to_string_table(&f)
}

/// Lower-cases the text, splits it on whitespace, trims non-letters from each word's edges,
/// drops stop words and words of two bytes or fewer, and counts what is left.
pub fn analyze_text_frequency(text: &str) -> (r: Vec<(String, usize)>)
    ensures
        is_frequency_table(table_view(r@), tokens_of(lower_of(text@))),
{
    let lowered = lowercase(text);
    frequency_of_lowered(lowered.as_str())
}


/// Each word of a frequency table repeated as many times as it was counted, in table order.
pub open spec fn expand_words(f: Seq<(Seq<char>, nat)>) -> Seq<Seq<char>>
    decreases f.len(),
{
    if f.len() == 0 {
        seq![]
    } else {
        expand_words(f.drop_last()) + Seq::new(f.last().1, |_i: int| f.last().0)
    }
}

/// Words separated by single spaces.
pub open spec fn join_spaces(ws: Seq<Seq<char>>) -> Seq<char>
    decreases ws.len(),
{
    if ws.len() == 0 {
        seq![]
    } else if ws.len() == 1 {
        ws[0]
    } else {
        join_spaces(ws.drop_last()) + seq![' '] + ws.last()
    }
}

/// The frequency-weighted pseudo-text that is chunked and embedded in place of the page text.
pub open spec fn weighted_text_spec(f: Seq<(Seq<char>, nat)>) -> Seq<char> {
    join_spaces(expand_words(f))
}

/// Rebuilds a text from word counts: each word repeated by its count, separated by spaces.
pub fn weighted_text(freq: &Vec<(String, usize)>) -> (r: String)
    ensures
        r@ == weighted_text_spec(table_view(freq@)),
{
    let ghost fv = table_view(freq@);
    let mut out: Vec<char> = Vec::new();
    let mut emitted = false;
    let ghost mut ws: Seq<Seq<char>> = seq![];
    let mut k: usize = 0;
    while k < freq.len()
        invariant
            0 <= k <= freq@.len(),
            fv == table_view(freq@),
            ws == expand_words(fv.take(k as int)),
            out@ == join_spaces(ws),
            emitted == (ws.len() > 0),
        decreases freq@.len() - k,
    {
        let word = chars_of(freq[k].0.as_str());
        let count = freq[k].1;
        let ghost base = ws;
        assert(fv[k as int] == (word@, count as nat));
        let mut c: usize = 0;
        assert(base + Seq::new(0, |_i: int| word@) =~= base);
        while c < count
            invariant
                0 <= c <= count,
                ws == base + Seq::new(c as nat, |_i: int| word@),
                out@ == join_spaces(ws),
                emitted == (ws.len() > 0),
            decreases count - c,
        {
            let ghost prev = ws;
            if emitted {
                out.push(' ');
            }
            crate::text::append_chars(&mut out, &word);
            proof {
                ws = ws.push(word@);
                assert(ws.drop_last() =~= prev);
                assert(out@ =~= join_spaces(ws));
                assert(base + Seq::new((c + 1) as nat, |_i: int| word@) =~= (base + Seq::new(c as nat, |_i: int| word@)).push(word@));
            }
            emitted = true;
            c = c + 1;
        }
        proof {
            assert(fv.take(k + 1).drop_last() =~= fv.take(k as int));
            assert(fv.take(k + 1).last() == (word@, count as nat));
        }
        k = k + 1;
    }
    assert(fv.take(k as int) =~= fv);
    string_of(&out)
}

} // verus!
