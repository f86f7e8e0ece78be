use vstd::prelude::*;
use crate::text::{chars_of, push_str, slice_chars, string_of};

verus! {

broadcast use vstd::string::group_string_axioms;

/// Characters per raw-text chunk.
pub const CHUNK_SIZE: usize = 500;

pub open spec fn chunk_count(len: nat, size: nat) -> nat {
    ((len + size - 1) as nat / size) as nat
}

/// The `i`-th chunk: `size` characters from `i * size`, fewer at the end.
pub open spec fn chunk_at(s: Seq<char>, size: nat, i: int) -> Seq<char> {
    let start = i * size;
    let end = if (i + 1) * size <= s.len() {
        (i + 1) * size
    } else {
        s.len() as int
    };
    s.subrange(start, end)
}

pub open spec fn is_chunking(s: Seq<char>, size: nat, r: Seq<Seq<char>>) -> bool {
    &&& r.len() == chunk_count(s.len(), size)
    &&& forall|i: int| 0 <= i < r.len() ==> #[trigger] r[i] == chunk_at(s, size, i)
}

pub open spec fn string_views(v: Seq<String>) -> Seq<Seq<char>> {
    v.map_values(|s: String| s@)
}

proof fn lemma_chunk_count(n: int, size: int, k: int)
    requires
        size > 0,
        n >= 0,
        k >= 0,
        k * size >= n,
        k == 0 || (k - 1) * size < n,
    ensures
        k == (n + size - 1) / size,
{
    assert(k == (n + size - 1) / size) by (nonlinear_arith)
        requires
            size > 0,
            n >= 0,
            k >= 0,
            k * size >= n,
            k == 0 || (k - 1) * size < n,
    ;
}

/// Consecutive `size`-character segments of `text`, in order; the last may be shorter.
pub fn chunk_text(text: &str, size: usize) -> (r: Vec<String>)
    requires
        size > 0,
    ensures
        is_chunking(text@, size as nat, string_views(r@)),
{
    let chars = chars_of(text);
    let n = chars.len();
    let mut r: Vec<String> = Vec::new();
    let mut start: usize = 0;
    let mut k: usize = 0;
    while start < n
        invariant
            chars@ == text@,
            n == chars@.len(),
            size > 0,
            start <= n,
            r@.len() == k,
            k <= n,
            start == (if k * size <= n { k * size } else { n as int }),
            k == 0 || (k - 1) * size < n,
            forall|i: int| 0 <= i < k ==> #[trigger] string_views(r@)[i] == chunk_at(text@, size as nat, i),
        decreases n - start,
    {
        assert(k * size == start) by (nonlinear_arith)
            requires
                start == (if k * size <= n { k * size } else { n as int }),
                start < n,
        ;
        assert(k < n) by (nonlinear_arith)
            requires
                k * size == start,
                start < n,
                size > 0,
        ;
        let end = if n - start > size {
            start + size
        } else {
            n
        };
        assert((k + 1) * size == k * size + size) by (nonlinear_arith);
        let piece = slice_chars(&chars, start, end);
        let ghost before = r@;
        r.push(string_of(&piece));
        assert(string_views(r@) =~= string_views(before).push(piece@));
        assert(piece@ == chunk_at(text@, size as nat, k as int));
        start = end;
        k = k + 1;
    }
    proof {
        assert(k * size >= n) by (nonlinear_arith)
            requires
                start == (if k * size <= n { k * size } else { n as int }),
                start >= n,
                start <= n,
                n > 0 || k == 0,
        ;
        lemma_chunk_count(n as int, size as int, k as int);
    }
    r
}

pub open spec fn digit_char(d: int) -> char {
    "0123456789"@[d]
}

/// Decimal digits of `n`, most significant first.
pub open spec fn decimal(n: nat) -> Seq<char>
    decreases n,
{
    if n < 10 {
        seq![digit_char(n as int)]
    } else {
        decimal(n / 10).push(digit_char((n % 10) as int))
    }
}

fn push_decimal(out: &mut Vec<char>, n: usize)
    ensures
        final(out)@ == old(out)@ + decimal(n as nat),
    decreases n,
{
    proof {
        reveal_strlit("0123456789");
    }
    if n >= 10 {
        push_decimal(out, n / 10);
    }
    let c = "0123456789".get_char(n % 10);
    out.push(c);
    assert(final(out)@ =~= old(out)@ + decimal(n as nat));
}

/// The type tag under which chunk `i` of a site's raw text is indexed.
pub open spec fn chunk_tag(i: nat) -> Seq<char> {
    "raw_text_chunk_"@ + decimal(i)
}

pub fn chunk_type_tag(i: usize) -> (r: String)
    ensures
        r@ == chunk_tag(i as nat),
{
    let mut out: Vec<char> = Vec::new();
    push_str(&mut out, "raw_text_chunk_");
    push_decimal(&mut out, i);
    assert(out@ =~= chunk_tag(i as nat));
    string_of(&out)
}

/// One text to embed for a site, with the type tag it is stored under.
#[derive(Debug)]
pub struct IndexEntry {
    pub field_type: String,
    pub text: String,
}

pub open spec fn entry_views(v: Seq<IndexEntry>) -> Seq<(Seq<char>, Seq<char>)> {
    v.map_values(|e: IndexEntry| (e.field_type@, e.text@))
}

pub open spec fn optional_field(tag: Seq<char>, v: Option<Seq<char>>) -> Seq<(Seq<char>, Seq<char>)> {
    match v {
        Some(t) => if t.len() > 0 {
            seq![(tag, t)]
        } else {
            seq![]
        },
        None => seq![],
    }
}

pub open spec fn chunk_entries(raw: Seq<char>) -> Seq<(Seq<char>, Seq<char>)> {
    Seq::new(
        chunk_count(raw.len(), CHUNK_SIZE as nat),
        |i: int| (chunk_tag(i as nat), chunk_at(raw, CHUNK_SIZE as nat, i)),
    )
}

/// What a site's indexing embeds: its title and description when present and non-empty,
/// then every 500-character chunk of its raw text.
pub open spec fn index_plan_spec(title: Option<Seq<char>>, description: Option<Seq<char>>, raw: Seq<char>) -> Seq<(Seq<char>, Seq<char>)> {
    optional_field("title"@, title) + optional_field("description"@, description) + chunk_entries(raw)
}

pub open spec fn opt_view(v: Option<String>) -> Option<Seq<char>> {
    match v {
        Some(s) => Some(s@),
        None => None,
    }
}

fn copy_string(s: &String) -> (r: String)
    ensures
        r@ == s@,
{
    s.as_str().to_owned()
}

fn push_optional(out: &mut Vec<IndexEntry>, tag: &str, v: &Option<String>)
    ensures
        entry_views(final(out)@) == entry_views(old(out)@) + optional_field(tag@, opt_view(*v)),
{
    match v {
        Some(t) => {
            if t.as_str().is_empty() {
                assert(entry_views(final(out)@) =~= entry_views(old(out)@) + optional_field(tag@, opt_view(*v)));
            } else {
                out.push(IndexEntry { field_type: tag.to_owned(), text: copy_string(t) });
                assert(entry_views(final(out)@) =~= entry_views(old(out)@) + optional_field(tag@, opt_view(*v)));
            }
        },
        None => {
            assert(entry_views(final(out)@) =~= entry_views(old(out)@) + optional_field(tag@, opt_view(*v)));
        },
    }
}

/// The texts to embed for one site, each with its type tag.
pub fn index_plan(title: &Option<String>, description: &Option<String>, raw_text: &str) -> (r: Vec<IndexEntry>)
    ensures
        entry_views(r@) == index_plan_spec(opt_view(*title), opt_view(*description), raw_text@),
{
    let mut out: Vec<IndexEntry> = Vec::new();
    push_optional(&mut out, "title", title);
    push_optional(&mut out, "description", description);
    let ghost head = entry_views(out@);
    let chunks = chunk_text(raw_text, CHUNK_SIZE);
    let mut i: usize = 0;
    while i < chunks.len()
        invariant
            0 <= i <= chunks@.len(),
            is_chunking(raw_text@, CHUNK_SIZE as nat, string_views(chunks@)),
            entry_views(out@) == head + chunk_entries(raw_text@).take(i as int),
        decreases chunks@.len() - i,
    {
        let tag = chunk_type_tag(i);
        let text = copy_string(&chunks[i]);
        assert(string_views(chunks@)[i as int] == chunks@[i as int]@);
        let ghost before = out@;
        out.push(IndexEntry { field_type: tag, text });
        assert(entry_views(out@) =~= entry_views(before).push((chunk_tag(i as nat), chunk_at(raw_text@, CHUNK_SIZE as nat, i as int))));
        assert(chunk_entries(raw_text@).take(i + 1) =~= chunk_entries(raw_text@).take(i as int).push(chunk_entries(raw_text@)[i as int]));
        i = i + 1;
    }
    assert(chunk_entries(raw_text@).take(i as int) =~= chunk_entries(raw_text@));
    out
}

} // verus!
