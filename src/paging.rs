use vstd::prelude::*;
use crate::text::{chars_of, has_prefix, has_suffix, slice_chars, starts_with_str, ends_with_str, string_of};

verus! {

broadcast use vstd::string::group_string_axioms;

/// Buttons per page when the request names no page size.
pub const DEFAULT_PAGE_SIZE: usize = 100;

pub open spec fn is_digit(c: char) -> bool {
    '0' <= c && c <= '9'
}

pub open spec fn digits_value(s: Seq<char>) -> int
    decreases s.len(),
{
    if s.len() == 0 {
        0
    } else {
        digits_value(s.drop_last()) * 10 + (s.last() as int - '0' as int)
    }
}

/// The characters after an optional leading `+`.
pub open spec fn digits_part(s: Seq<char>) -> Seq<char> {
    if s.len() > 0 && s[0] == '+' {
        s.drop_first()
    } else {
        s
    }
}

/// What reading `s` as a decimal `usize` gives: an optional `+`, then one or more digits whose
/// value fits.
pub open spec fn parse_usize_spec(s: Seq<char>) -> Option<usize> {
    let d = digits_part(s);
    if d.len() > 0 && (forall|i: int| 0 <= i < d.len() ==> is_digit(#[trigger] d[i]))
        && digits_value(d) <= usize::MAX {
        Some(digits_value(d) as usize)
    } else {
        None
    }
}

proof fn lemma_digits_value_monotone(d: Seq<char>, k: int)
    requires
        0 <= k <= d.len(),
        forall|i: int| 0 <= i < d.len() ==> is_digit(#[trigger] d[i]),
    ensures
        0 <= digits_value(d.take(k)) <= digits_value(d),
    decreases d.len() - k,
{
    if k < d.len() {
        lemma_digits_value_monotone(d, k + 1);
        assert(d.take(k + 1).drop_last() =~= d.take(k));
        assert(forall|i: int| 0 <= i < d.take(k).len() ==> is_digit(#[trigger] d.take(k)[i]));
        lemma_digits_value_nonneg(d.take(k));
    } else {
        assert(d.take(k) =~= d);
        lemma_digits_value_nonneg(d);
    }
}

proof fn lemma_digits_value_nonneg(d: Seq<char>)
    requires
        forall|i: int| 0 <= i < d.len() ==> is_digit(#[trigger] d[i]),
    ensures
        digits_value(d) >= 0,
    decreases d.len(),
{
    if d.len() > 0 {
        assert(forall|i: int| 0 <= i < d.drop_last().len() ==> is_digit(#[trigger] d.drop_last()[i]));
        lemma_digits_value_nonneg(d.drop_last());
    }
}

/// Reads a decimal number as a query parameter carries it.
pub fn parse_usize(s: &str) -> (r: Option<usize>)
    ensures
        r == parse_usize_spec(s@),
{
    let all = chars_of(s);
    let d = if all.len() > 0 && all[0] == '+' {
        slice_chars(&all, 1, all.len())
    } else {
        slice_chars(&all, 0, all.len())
    };
    assert(d@ =~= digits_part(s@));
    if d.len() == 0 {
        return None;
    }
    let mut v: usize = 0;
    let mut k: usize = 0;
    while k < d.len()
        invariant
            0 <= k <= d@.len(),
            d@ == digits_part(s@),
            forall|i: int| 0 <= i < k ==> is_digit(#[trigger] d@[i]),
            v == digits_value(d@.take(k as int)),
        decreases d@.len() - k,
    {
        let c = d[k];
        assert(d@.take(k + 1).drop_last() =~= d@.take(k as int));
        if !('0' <= c && c <= '9') {
            assert(!is_digit(d@[k as int]));
            assert(!(forall|i: int| 0 <= i < d@.len() ==> is_digit(#[trigger] d@[i])));
            return None;
        }
        let digit = (c as u32 - '0' as u32) as usize;
        if v > (usize::MAX - digit) / 10 {
            proof {
                assert(forall|i: int| 0 <= i < k + 1 ==> is_digit(#[trigger] d@[i]));
                assert(digits_value(d@.take(k + 1)) > usize::MAX) by (nonlinear_arith)
                    requires
                        digits_value(d@.take(k + 1)) == v * 10 + digit,
                        v > (usize::MAX - digit) / 10,
                        digit <= 9,
                ;
                if forall|i: int| 0 <= i < d@.len() ==> is_digit(#[trigger] d@[i]) {
                    lemma_digits_value_monotone(d@, k + 1);
                }
            }
            return None;
        }
        v = v * 10 + digit;
        k = k + 1;
    }
    assert(d@.take(k as int) =~= d@);
    Some(v)
}

/// Where one page of a listing starts and how it relates to the others.
#[derive(Debug, Clone, Copy, PartialEq, Eq, Structural)]
pub struct Pagination {
    pub current_page: usize,
    pub page_size: usize,
    pub offset: usize,
    pub total_pages: u64,
    pub has_previous_page: bool,
    pub has_next_page: bool,
}

/// Pages of `size` items needed for `total` items.
pub open spec fn pages_for(total: u64, size: usize) -> int {
    (total as int + size as int - 1) / size as int
}

/// Page `page` (counted from 1) of `total` items, `size` per page; no page 0, no empty pages,
/// and no offset beyond `usize`.
pub open spec fn paginate_spec(page: usize, size: usize, total: u64) -> Option<Pagination> {
    if page == 0 || size == 0 || (page - 1) * size > usize::MAX {
        None
    } else {
        Some(Pagination {
            current_page: page,
            page_size: size,
            offset: ((page - 1) * size) as usize,
            total_pages: pages_for(total, size) as u64,
            has_previous_page: page > 1,
            has_next_page: page < pages_for(total, size),
        })
    }
}

pub fn paginate(page: usize, size: usize, total: u64) -> (r: Option<Pagination>)
    ensures
        r == paginate_spec(page, size, total),
{
    if page == 0 || size == 0 {
        return None;
    }
    let before = page - 1;
    if before > usize::MAX / size {
        assert((page - 1) * size > usize::MAX) by (nonlinear_arith)
            requires
                before == page - 1,
                before > usize::MAX / size,
                size > 0,
        ;
        return None;
    }
    assert(before * size <= usize::MAX) by (nonlinear_arith)
        requires
            before <= usize::MAX / size,
            size > 0,
    ;
    let t = total as u128;
    let q: u128 = (t + size as u128 - 1) / size as u128;
    assert(q <= t) by (nonlinear_arith)
        requires
            size > 0,
            q == (t + size - 1) / size as int,
            t >= 0,
    ;
    let pages = q as u64;
    assert(pages == pages_for(total, size));
    Some(Pagination {
        current_page: page,
        page_size: size,
        offset: before * size,
        total_pages: pages,
        has_previous_page: page > 1,
        has_next_page: (page as u64) < pages,
    })
}

/// The form under which an indexed site is looked up: scheme dropped, trailing slash ensured;
/// nothing for an empty URL.
pub open spec fn indexed_lookup_spec(url: Seq<char>) -> Option<Seq<char>> {
    if url.len() == 0 {
        None
    } else {
        let a = if has_prefix(url, "http://"@) { url.skip(7) } else { url };
        let b = if has_prefix(a, "https://"@) { a.skip(8) } else { a };
        Some(if has_suffix(b, "/"@) { b } else { b.push('/') })
    }
}

pub fn indexed_lookup_key(url: &str) -> (r: Option<String>)
    ensures
        match indexed_lookup_spec(url@) {
            None => r is None,
            Some(k) => r matches Some(s) && s@ == k,
        },
{
    let u = chars_of(url);
    if u.len() == 0 {
        return None;
    }
    proof {
        reveal_strlit("http://");
        reveal_strlit("https://");
    }
    let a = if starts_with_str(&u, "http://") {
        slice_chars(&u, 7, u.len())
    } else {
        slice_chars(&u, 0, u.len())
    };
    assert(a@ =~= (if has_prefix(u@, "http://"@) { u@.skip(7) } else { u@ }));
    let mut b = if starts_with_str(&a, "https://") {
        slice_chars(&a, 8, a.len())
    } else {
        slice_chars(&a, 0, a.len())
    };
    assert(b@ =~= (if has_prefix(a@, "https://"@) { a@.skip(8) } else { a@ }));
    if !ends_with_str(&b, "/") {
        b.push('/');
    }
    Some(string_of(&b))
}

} // verus!
