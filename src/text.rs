use vstd::prelude::*;

verus! {

broadcast use vstd::string::group_string_axioms;

/// The characters of `s`, in order.
pub fn chars_of(s: &str) -> (r: Vec<char>)
    ensures
        r@ == s@,
{
    let mut r: Vec<char> = Vec::new();
    for c in it: s.chars()
        invariant
            r@ == it.seq().take(it.index() as int),
            it.seq() == s@,
    {
        r.push(c);
    }
    r
}

/// Relies on `String: FromIterator<char>`: the string holds the given characters in order.
#[verifier::external_body]
pub(crate) fn string_of(v: &Vec<char>) -> (r: String)
    ensures
        r@ == v@,
{
    v.iter().collect()
}


pub open spec fn has_prefix(s: Seq<char>, p: Seq<char>) -> bool {
    p.len() <= s.len() && s.take(p.len() as int) == p
}

pub open spec fn has_suffix(s: Seq<char>, p: Seq<char>) -> bool {
    p.len() <= s.len() && s.skip(s.len() - p.len()) == p
}

pub open spec fn occurs_at(s: Seq<char>, p: Seq<char>, i: int) -> bool {
    0 <= i && i + p.len() <= s.len() && s.subrange(i, i + p.len()) == p
}

pub open spec fn has_substring(s: Seq<char>, p: Seq<char>) -> bool {
    exists|i: int| occurs_at(s, p, i)
}

/// Whether `p` occurs in `s` at position `i`.
pub fn matches_at(s: &Vec<char>, p: &Vec<char>, i: usize) -> (r: bool)
    ensures
        r == occurs_at(s@, p@, i as int),
{
    if i > s.len() || p.len() > s.len() - i {
        return false;
    }
    let n = s.len();
    let mut k: usize = 0;
    while k < p.len()
        invariant
            n == s@.len(),
            i + p@.len() <= s@.len(),
            0 <= k <= p@.len(),
            forall|t: int| 0 <= t < k ==> s@[i + t] == p@[t],
        decreases p@.len() - k,
    {
        if s[i + k] != p[k] {
            assert(s@.subrange(i as int, i + p@.len())[k as int] != p@[k as int]);
            return false;
        }
        k = k + 1;
    }
    assert(s@.subrange(i as int, i + p@.len()) =~= p@);
    true
}

pub fn starts_with(s: &Vec<char>, p: &Vec<char>) -> (r: bool)
    ensures
        r == has_prefix(s@, p@),
{
    let r = matches_at(s, p, 0);
    assert(p@.len() <= s@.len() ==> s@.subrange(0, p@.len() as int) =~= s@.take(p@.len() as int));
    r
}

pub fn ends_with(s: &Vec<char>, p: &Vec<char>) -> (r: bool)
    ensures
        r == has_suffix(s@, p@),
{
    if p.len() > s.len() {
        return false;
    }
    let r = matches_at(s, p, s.len() - p.len());
    assert(s@.subrange(s@.len() - p@.len(), s@.len() as int) =~= s@.skip(s@.len() - p@.len()));
    r
}

pub fn contains(s: &Vec<char>, p: &Vec<char>) -> (r: bool)
    ensures
        r == has_substring(s@, p@),
{
    if p.len() > s.len() {
        return false;
    }
    if p.len() == 0 {
        assert(s@.subrange(0, 0) =~= p@);
        assert(occurs_at(s@, p@, 0));
        return true;
    }
    let n = s.len();
    let last = n - p.len();
    let mut i: usize = 0;
    while i <= last
        invariant
            last < n,
            last + p@.len() == s@.len(),
            0 <= i <= last + 1,
            forall|t: int| 0 <= t < i ==> !occurs_at(s@, p@, t),
        decreases last + 1 - i,
    {
        if matches_at(s, p, i) {
            return true;
        }
        i = i + 1;
    }
    assert forall|t: int| !occurs_at(s@, p@, t) by {
        if t >= i {
        }
    }
    false
}

pub fn starts_with_str(s: &Vec<char>, p: &str) -> (r: bool)
    ensures
        r == has_prefix(s@, p@),
{
    starts_with(s, &chars_of(p))
}

pub fn ends_with_str(s: &Vec<char>, p: &str) -> (r: bool)
    ensures
        r == has_suffix(s@, p@),
{
    ends_with(s, &chars_of(p))
}

pub fn contains_str(s: &Vec<char>, p: &str) -> (r: bool)
    ensures
        r == has_substring(s@, p@),
{
    contains(s, &chars_of(p))
}

pub fn chars_equal(a: &Vec<char>, b: &Vec<char>) -> (r: bool)
    ensures
        r == (a@ == b@),
{
    if a.len() != b.len() {
        return false;
    }
    let r = matches_at(a, b, 0);
    assert(a@.subrange(0, b@.len() as int) =~= a@);
    r
}

pub fn equals_str(a: &Vec<char>, b: &str) -> (r: bool)
    ensures
        r == (a@ == b@),
{
    chars_equal(a, &chars_of(b))
}

/// A copy of the characters `v[from..to]`.
pub fn slice_chars(v: &Vec<char>, from: usize, to: usize) -> (r: Vec<char>)
    requires
        from <= to <= v@.len(),
    ensures
        r@ == v@.subrange(from as int, to as int),
{
    let mut r: Vec<char> = Vec::new();
    let mut k: usize = from;
    while k < to
        invariant
            from <= k <= to <= v@.len(),
            r@ == v@.subrange(from as int, k as int),
        decreases to - k,
    {
        r.push(v[k]);
        assert(r@ =~= v@.subrange(from as int, k + 1));
        k = k + 1;
    }
    r
}

/// Appends the characters of `p` to `out`.
pub fn push_str(out: &mut Vec<char>, p: &str)
    ensures
        final(out)@ == old(out)@ + p@,
{
    let pc = chars_of(p);
    append_chars(out, &pc);
}

pub fn append_chars(out: &mut Vec<char>, p: &Vec<char>)
    ensures
        final(out)@ == old(out)@ + p@,
{
    let ghost start = out@;
    let mut k: usize = 0;
    while k < p.len()
        invariant
            0 <= k <= p@.len(),
            out@ == start + p@.take(k as int),
        decreases p@.len() - k,
    {
        out.push(p[k]);
        assert(out@ =~= start + p@.take(k + 1));
        k = k + 1;
    }
    assert(p@.take(k as int) =~= p@);
}

/// What `str::to_lowercase` gives for a string.
pub uninterp spec fn lower_of(s: Seq<char>) -> Seq<char>;

/// Whether a character has Unicode's White_Space property, as `char::is_whitespace` says.
pub uninterp spec fn white_space(c: char) -> bool;

/// Whether a character has Unicode's Alphabetic property, as `char::is_alphabetic` says.
pub uninterp spec fn alphabetic(c: char) -> bool;

/// Relies on `str::to_lowercase`: the result depends on the characters alone.
#[verifier::external_body]
pub(crate) fn lowercase(s: &str) -> (r: String)
    ensures
        r@ == lower_of(s@),
{
    s.to_lowercase()
}

/// Relies on `char::is_whitespace`.
#[verifier::external_body]
pub(crate) fn is_white_space(c: char) -> (r: bool)
    ensures
        r == white_space(c),
{
    c.is_whitespace()
}

/// Relies on `char::is_alphabetic`.
#[verifier::external_body]
pub(crate) fn is_alphabetic(c: char) -> (r: bool)
    ensures
        r == alphabetic(c),
{
    c.is_alphabetic()
}

/// Number of bytes that UTF-8 takes for a character.
pub open spec fn utf8_width(c: char) -> nat {
    if (c as u32) < 0x80 {
        1
    } else if (c as u32) < 0x800 {
        2
    } else if (c as u32) < 0x10000 {
        3
    } else {
        4
    }
}

pub open spec fn utf8_len(w: Seq<char>) -> nat
    decreases w.len(),
{
    if w.len() == 0 {
        0
    } else {
        utf8_len(w.drop_last()) + utf8_width(w.last())
    }
}

fn char_width(c: char) -> (n: usize)
    ensures
        n == utf8_width(c),
{
    let v = c as u32;
    if v < 0x80 {
        1
    } else if v < 0x800 {
        2
    } else if v < 0x10000 {
        3
    } else {
        4
    }
}

pub fn utf8_len_exceeds(w: &Vec<char>, limit: usize) -> (r: bool)
    ensures
        r == (utf8_len(w@) > limit),
{
    let mut total: usize = 0;
    let mut k: usize = 0;
    while k < w.len()
        invariant
            0 <= k <= w@.len(),
            total == utf8_len(w@.take(k as int)),
            total <= limit,
        decreases w@.len() - k,
    {
        assert(w@.take(k + 1).drop_last() =~= w@.take(k as int));
        let cw = char_width(w[k]);
        if cw > limit - total {
            proof {
                assert(w@.take(k + 1).drop_last() =~= w@.take(k as int));
                lemma_utf8_len_prefix(w@, k + 1);
            }
            return true;
        }
        total = total + cw;
        k = k + 1;
        if total > limit {
            proof {
                lemma_utf8_len_prefix(w@, k as int);
            }
            return true;
        }
    }
    assert(w@.take(k as int) =~= w@);
    false
}

proof fn lemma_utf8_len_prefix(w: Seq<char>, k: int)
    requires
        0 <= k <= w.len(),
    ensures
        utf8_len(w.take(k)) <= utf8_len(w),
    decreases w.len() - k,
{
    if k < w.len() {
        lemma_utf8_len_prefix(w, k + 1);
        assert(w.take(k + 1).drop_last() =~= w.take(k));
    } else {
        assert(w.take(k) =~= w);
    }
}

pub open spec fn trim_ws_start(w: Seq<char>) -> Seq<char>
    decreases w.len(),
{
    if w.len() > 0 && white_space(w[0]) {
        trim_ws_start(w.drop_first())
    } else {
        w
    }
}

pub open spec fn trim_ws_end(w: Seq<char>) -> Seq<char>
    decreases w.len(),
{
    if w.len() > 0 && white_space(w.last()) {
        trim_ws_end(w.drop_last())
    } else {
        w
    }
}

/// The characters with leading and trailing whitespace removed, as `str::trim` does.
pub open spec fn trim_ws(w: Seq<char>) -> Seq<char> {
    trim_ws_end(trim_ws_start(w))
}

proof fn lemma_trim_ws_start_skip(w: Seq<char>, i: int)
    requires
        0 <= i <= w.len(),
        forall|t: int| 0 <= t < i ==> white_space(#[trigger] w[t]),
    ensures
        trim_ws_start(w) == trim_ws_start(w.skip(i)),
    decreases i,
{
    if i > 0 {
        lemma_trim_ws_start_skip(w.drop_first(), i - 1);
        assert(w.drop_first().skip(i - 1) =~= w.skip(i));
    } else {
        assert(w.skip(0) =~= w);
    }
}

proof fn lemma_trim_ws_end_take(w: Seq<char>, j: int)
    requires
        0 <= j <= w.len(),
        forall|t: int| j <= t < w.len() ==> white_space(#[trigger] w[t]),
    ensures
        trim_ws_end(w) == trim_ws_end(w.take(j)),
    decreases w.len() - j,
{
    if j < w.len() {
        lemma_trim_ws_end_take(w.drop_last(), j);
        assert(w.drop_last().take(j) =~= w.take(j));
    } else {
        assert(w.take(j) =~= w);
    }
}

pub fn trim_white_space(w: &Vec<char>) -> (r: Vec<char>)
    ensures
        r@ == trim_ws(w@),
{
    let mut i: usize = 0;
    while i < w.len() && is_white_space(w[i])
        invariant
            0 <= i <= w@.len(),
            forall|t: int| 0 <= t < i ==> white_space(#[trigger] w@[t]),
        decreases w@.len() - i,
    {
        i = i + 1;
    }
    proof {
        lemma_trim_ws_start_skip(w@, i as int);
    }
    let rest = slice_chars(w, i, w.len());
    assert(rest@ =~= w@.skip(i as int));
    let mut j: usize = rest.len();
    while j > 0 && is_white_space(rest[j - 1])
        invariant
            0 <= j <= rest@.len(),
            forall|t: int| j <= t < rest@.len() ==> white_space(#[trigger] rest@[t]),
        decreases j,
    {
        j = j - 1;
    }
    proof {
        lemma_trim_ws_end_take(rest@, j as int);
    }
    let r = slice_chars(&rest, 0, j);
    assert(r@ =~= rest@.take(j as int));
    r
}

} // verus!
