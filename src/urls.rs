use vstd::prelude::*;
use crate::text::{
    chars_of,
    ends_with,
    has_prefix,
    has_suffix,
    push_str,
    slice_chars,
    starts_with_str,
    string_of,
};

verus! {

broadcast use vstd::string::group_string_axioms;

/// Extensions after which a URL names a file, so no trailing slash is added.
#[verifier::opaque]
pub open spec fn file_extensions() -> Seq<Seq<char>> {
    seq![
        "html"@, "htm"@, "php"@, "asp"@, "aspx"@, "jsp"@, "cgi"@, "pl"@, "py"@, "rb"@, "js"@,
        "css"@, "xml"@, "json"@, "txt"@, "pdf"@, "doc"@, "docx"@, "zip"@, "tar"@, "gz"@,
        "rar"@, "7z"@, "exe"@, "dmg"@, "pkg"@, "deb"@, "rpm"@,
    ]
}

fn file_extension_list() -> (v: Vec<&'static str>)
    ensures
        v@.map_values(|s: &str| s@) == file_extensions(),
{
    let mut v: Vec<&'static str> = Vec::new();
    v.push("html");
    v.push("htm");
    v.push("php");
    v.push("asp");
    v.push("aspx");
    v.push("jsp");
    v.push("cgi");
    v.push("pl");
    v.push("py");
    v.push("rb");
    v.push("js");
    v.push("css");
    v.push("xml");
    v.push("json");
    v.push("txt");
    v.push("pdf");
    v.push("doc");
    v.push("docx");
    v.push("zip");
    v.push("tar");
    v.push("gz");
    v.push("rar");
    v.push("7z");
    v.push("exe");
    v.push("dmg");
    v.push("pkg");
    v.push("deb");
    v.push("rpm");
    proof {
        reveal(file_extensions);
    }
    assert(v@.map_values(|s: &str| s@) =~= file_extensions());
    v
}

/// The URL ends in a dot followed by one of the file extensions.
pub open spec fn has_file_extension(u: Seq<char>) -> bool {
    exists|i: int|
        0 <= i < file_extensions().len() && has_suffix(u, seq!['.'] + #[trigger] file_extensions()[i])
}

pub fn ends_with_file_extension(u: &Vec<char>) -> (r: bool)
    ensures
        r == has_file_extension(u@),
{
    let list = file_extension_list();
    let ghost exts = file_extensions();
    let mut i: usize = 0;
    while i < list.len()
        invariant
            0 <= i <= list@.len(),
            list@.map_values(|s: &str| s@) == exts,
            exts == file_extensions(),
            forall|t: int| 0 <= t < i ==> !has_suffix(u@, seq!['.'] + #[trigger] exts[t]),
        decreases list@.len() - i,
    {
        let mut pat: Vec<char> = Vec::new();
        pat.push('.');
        push_str(&mut pat, list[i]);
        assert(exts[i as int] == list@[i as int]@);
        assert(pat@ =~= seq!['.'] + exts[i as int]);
        if ends_with(u, &pat) {
            return true;
        }
        i = i + 1;
    }
    assert(!has_file_extension(u@)) by {
        if has_file_extension(u@) {
            let t = choose|t: int|
                0 <= t < exts.len() && has_suffix(u@, seq!['.'] + #[trigger] exts[t]);
            assert(exts.len() == list@.len());
        }
    }
    false
}

/// The trailing-slash convention: a slash is appended unless the URL already ends in one,
/// carries a query or fragment, or names a file.
pub open spec fn canonical(u: Seq<char>) -> Seq<char> {
    if !has_suffix(u, "/"@) && !u.contains('?') && !u.contains('#') && !has_file_extension(u) {
        u.push('/')
    } else {
        u
    }
}

fn contains_char(u: &Vec<char>, c: char) -> (r: bool)
    ensures
        r == u@.contains(c),
{
    let mut i: usize = 0;
    while i < u.len()
        invariant
            0 <= i <= u@.len(),
            forall|t: int| 0 <= t < i ==> u@[t] != c,
        decreases u@.len() - i,
    {
        if u[i] == c {
            return true;
        }
        i = i + 1;
    }
    false
}

fn canonical_chars(u: &Vec<char>) -> (r: Vec<char>)
    ensures
        r@ == canonical(u@),
{
    let slash = ends_with(u, &chars_of("/"));
    let mut r = slice_chars(u, 0, u.len());
    assert(r@ =~= u@);
    if !slash && !contains_char(u, '?') && !contains_char(u, '#') && !ends_with_file_extension(u) {
        r.push('/');
    }
    r
}

/// The stored form of a site URL under the trailing-slash convention.
pub fn canonical_url(url: &str) -> (r: String)
    ensures
        r@ == canonical(url@),
{
    let u = chars_of(url);
    string_of(&canonical_chars(&u))
}

/// Where the host starts: after an `http://` or `https://` prefix.
pub open spec fn host_start(u: Seq<char>) -> int {
    if has_prefix(u, "https://"@) {
        8
    } else if has_prefix(u, "http://"@) {
        7
    } else {
        0
    }
}

pub open spec fn is_delimiter(c: char) -> bool {
    c == '/' || c == '?' || c == '#'
}

/// The first index at or after `i` that holds `/`, `?` or `#`, or the length.
pub open spec fn next_delimiter(u: Seq<char>, i: int) -> int
    decreases u.len() - i,
{
    if i >= u.len() {
        u.len() as int
    } else if is_delimiter(u[i]) {
        i
    } else {
        next_delimiter(u, i + 1)
    }
}

pub proof fn lemma_next_delimiter(u: Seq<char>, i: int)
    requires
        0 <= i <= u.len(),
    ensures
        i <= next_delimiter(u, i) <= u.len(),
    decreases u.len() - i,
{
    if i < u.len() && !is_delimiter(u[i]) {
        lemma_next_delimiter(u, i + 1);
    }
}

pub open spec fn ascii_lower_char(c: char) -> char {
    if 'A' <= c && c <= 'Z' {
        ((c as u32) + 32) as char
    } else {
        c
    }
}

pub open spec fn ascii_lower(s: Seq<char>) -> Seq<char> {
    s.map_values(|c: char| ascii_lower_char(c))
}

/// The host of a URL, lower-cased.
pub open spec fn host_of(u: Seq<char>) -> Seq<char> {
    ascii_lower(u.subrange(host_start(u), next_delimiter(u, host_start(u))))
}

/// The first path segment of a URL: what follows the host's slash up to the next delimiter.
pub open spec fn folder_of(u: Seq<char>) -> Seq<char> {
    let h = next_delimiter(u, host_start(u));
    if h < u.len() && u[h] == '/' {
        u.subrange(h + 1, next_delimiter(u, h + 1))
    } else {
        seq![]
    }
}

/// What is compared to tell URLs apart: host lower-cased, query and fragment dropped, and the
/// trailing-slash convention applied.
pub open spec fn dedup_key(u: Seq<char>) -> Seq<char> {
    let s = host_start(u);
    let h = next_delimiter(u, s);
    let base = u.take(first_query(u, h));
    canonical(u.take(s) + ascii_lower(u.subrange(s, h)) + base.skip(h))
}

/// The first index at or after `i` that holds `?` or `#`, or the length.
pub open spec fn first_query(u: Seq<char>, i: int) -> int
    decreases u.len() - i,
{
    if i >= u.len() {
        u.len() as int
    } else if u[i] == '?' || u[i] == '#' {
        i
    } else {
        first_query(u, i + 1)
    }
}

pub proof fn lemma_first_query(u: Seq<char>, i: int)
    requires
        0 <= i <= u.len(),
    ensures
        i <= first_query(u, i) <= u.len(),
    decreases u.len() - i,
{
    if i < u.len() && !(u[i] == '?' || u[i] == '#') {
        lemma_first_query(u, i + 1);
    }
}

fn host_start_exec(u: &Vec<char>) -> (r: usize)
    ensures
        r == host_start(u@),
        r <= u@.len(),
{
    if starts_with_str(u, "https://") {
        proof {
            reveal_strlit("https://");
        }
        8
    } else if starts_with_str(u, "http://") {
        proof {
            reveal_strlit("http://");
        }
        7
    } else {
        0
    }
}

fn next_delimiter_exec(u: &Vec<char>, i: usize) -> (r: usize)
    requires
        i <= u@.len(),
    ensures
        r == next_delimiter(u@, i as int),
        i <= r <= u@.len(),
{
    let mut j: usize = i;
    while j < u.len() && !(u[j] == '/' || u[j] == '?' || u[j] == '#')
        invariant
            i <= j <= u@.len(),
            next_delimiter(u@, i as int) == next_delimiter(u@, j as int),
        decreases u@.len() - j,
    {
        j = j + 1;
    }
    j
}

fn first_query_exec(u: &Vec<char>, i: usize) -> (r: usize)
    requires
        i <= u@.len(),
    ensures
        r == first_query(u@, i as int),
        i <= r <= u@.len(),
{
    let mut j: usize = i;
    while j < u.len() && !(u[j] == '?' || u[j] == '#')
        invariant
            i <= j <= u@.len(),
            first_query(u@, i as int) == first_query(u@, j as int),
        decreases u@.len() - j,
    {
        j = j + 1;
    }
    j
}

fn ascii_lower_exec(s: &Vec<char>) -> (r: Vec<char>)
    ensures
        r@ == ascii_lower(s@),
{
    let mut r: Vec<char> = Vec::new();
    let mut k: usize = 0;
    while k < s.len()
        invariant
            0 <= k <= s@.len(),
            r@ == ascii_lower(s@.take(k as int)),
        decreases s@.len() - k,
    {
        let c = s[k];
        let l = if 'A' <= c && c <= 'Z' {
            ((c as u32) + 32) as u8 as char
        } else {
            c
        };
        assert(l == ascii_lower_char(c));
        r.push(l);
        assert(r@ =~= ascii_lower(s@.take(k + 1)));
        k = k + 1;
    }
    assert(s@.take(k as int) =~= s@);
    r
}

pub fn host_chars(u: &Vec<char>) -> (r: Vec<char>)
    ensures
        r@ == host_of(u@),
{
    let s = host_start_exec(u);
    let h = next_delimiter_exec(u, s);
    ascii_lower_exec(&slice_chars(u, s, h))
}

pub fn folder_chars(u: &Vec<char>) -> (r: Vec<char>)
    ensures
        r@ == folder_of(u@),
{
    let s = host_start_exec(u);
    let h = next_delimiter_exec(u, s);
    if h < u.len() && u[h] == '/' {
        let e = next_delimiter_exec(u, h + 1);
        slice_chars(u, h + 1, e)
    } else {
        Vec::new()
    }
}

pub fn dedup_key_chars(u: &Vec<char>) -> (r: Vec<char>)
    ensures
        r@ == dedup_key(u@),
{
    let s = host_start_exec(u);
    let h = next_delimiter_exec(u, s);
    let q = first_query_exec(u, h);
    let mut key = slice_chars(u, 0, s);
    crate::text::append_chars(&mut key, &ascii_lower_exec(&slice_chars(u, s, h)));
    crate::text::append_chars(&mut key, &slice_chars(u, h, q));
    assert(u@.take(q as int).skip(h as int) =~= u@.subrange(h as int, q as int));
    assert(u@.subrange(0, s as int) =~= u@.take(s as int));
    canonical_chars(&key)
}

/// The key under which the frontier tells URLs apart.
pub fn url_dedup_key(url: &str) -> (r: String)
    ensures
        r@ == dedup_key(url@),
{
    string_of(&dedup_key_chars(&chars_of(url)))
}

} // verus!
