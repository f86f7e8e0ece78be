use vstd::prelude::*;
use crate::button::{is_image_url, is_image_url_spec};
use crate::frontier::{is_prohibited, is_prohibited_spec};
use crate::text::{
    append_chars,
    chars_equal,
    chars_of,
    has_prefix,
    has_suffix,
    lower_of,
    lowercase,
    slice_chars,
    starts_with_str,
    string_of,
};
use crate::urls::{canonical, canonical_url};

verus! {

broadcast use vstd::string::group_string_axioms;

/// A link as the page extractor reports it; the target may be missing.
#[derive(Debug, Clone)]
pub struct RawLink {
    pub href: Option<String>,
    pub text: String,
}

/// A link worth following.
#[derive(Debug, Clone)]
pub struct Link {
    pub href: String,
    pub text: String,
}

/// A button image found on a page, with the anchor it sits in, if any.
#[derive(Debug, Clone)]
pub struct ButtonRef {
    pub src: String,
    pub links_to: Option<String>,
    pub alt: Option<String>,
}

/// `s` with every leading copy of `p` removed.
pub open spec fn strip_prefix_all(s: Seq<char>, p: Seq<char>) -> Seq<char>
    decreases s.len(),
{
    if p.len() > 0 && has_prefix(s, p) {
        strip_prefix_all(s.skip(p.len() as int), p)
    } else {
        s
    }
}

/// `s` with every trailing copy of `p` removed.
pub open spec fn strip_suffix_all(s: Seq<char>, p: Seq<char>) -> Seq<char>
    decreases s.len(),
{
    if p.len() > 0 && has_suffix(s, p) {
        strip_suffix_all(s.take(s.len() - p.len()), p)
    } else {
        s
    }
}

/// What two links are compared by: scheme and outer slashes dropped, lower-cased.
pub open spec fn link_key(h: Seq<char>) -> Seq<char> {
    lower_of(
        strip_suffix_all(
            strip_prefix_all(strip_prefix_all(strip_prefix_all(h, "https://"@), "http://"@), "/"@),
            "/"@,
        ),
    )
}

pub type LinkView = (Seq<char>, Seq<char>);

pub open spec fn raw_link_view(l: RawLink) -> (Option<Seq<char>>, Seq<char>) {
    (match l.href {
        Some(h) => Some(h@),
        None => None,
    }, l.text@)
}

pub open spec fn links_view(v: Seq<Link>) -> Seq<LinkView> {
    v.map_values(|l: Link| (l.href@, l.text@))
}

/// Links with a target that is not denylisted, keeping the first of each `link_key`.
pub open spec fn distinct_links(ls: Seq<(Option<Seq<char>>, Seq<char>)>) -> Seq<LinkView>
    decreases ls.len(),
{
    if ls.len() == 0 {
        seq![]
    } else {
        let prev = distinct_links(ls.drop_last());
        let l = ls.last();
        match l.0 {
            Some(h) => if !is_prohibited_spec(h) && !prev.map_values(|p: LinkView| link_key(p.0)).contains(link_key(h)) {
                prev.push((h, l.1))
            } else {
                prev
            },
            None => prev,
        }
    }
}

/// The links of a page worth following: those without a newline in their target among the
/// distinct ones.
pub open spec fn followable_links(ls: Seq<(Option<Seq<char>>, Seq<char>)>) -> Seq<LinkView> {
    distinct_links(ls).filter(|l: LinkView| !l.0.contains('\n'))
}

fn strip_prefix_all_exec(s: &Vec<char>, p: &str) -> (r: Vec<char>)
    ensures
        r@ == strip_prefix_all(s@, p@),
{
    let pc = chars_of(p);
    let mut cur = slice_chars(s, 0, s.len());
    assert(cur@ =~= s@);
    while pc.len() > 0 && crate::text::starts_with(&cur, &pc)
        invariant
            pc@ == p@,
            strip_prefix_all(s@, p@) == strip_prefix_all(cur@, p@),
        decreases cur@.len(),
    {
        cur = slice_chars(&cur, pc.len(), cur.len());
    }
    cur
}

fn strip_suffix_all_exec(s: &Vec<char>, p: &str) -> (r: Vec<char>)
    ensures
        r@ == strip_suffix_all(s@, p@),
{
    let pc = chars_of(p);
    let mut cur = slice_chars(s, 0, s.len());
    assert(cur@ =~= s@);
    while pc.len() > 0 && crate::text::ends_with(&cur, &pc)
        invariant
            pc@ == p@,
            strip_suffix_all(s@, p@) == strip_suffix_all(cur@, p@),
        decreases cur@.len(),
    {
        cur = slice_chars(&cur, 0, cur.len() - pc.len());
    }
    cur
}

fn link_key_exec(h: &Vec<char>) -> (r: Vec<char>)
    ensures
        r@ == link_key(h@),
{
    let a = strip_prefix_all_exec(h, "https://");
    let b = strip_prefix_all_exec(&a, "http://");
    let c = strip_prefix_all_exec(&b, "/");
    let d = strip_suffix_all_exec(&c, "/");
    let lowered = lowercase(string_of(&d).as_str());
    chars_of(lowered.as_str())
}

fn contains_key(keys: &Vec<Vec<char>>, k: &Vec<char>) -> (r: bool)
    ensures
        r == keys@.map_values(|v: Vec<char>| v@).contains(k@),
{
    let ghost kv = keys@.map_values(|v: Vec<char>| v@);
    let mut i: usize = 0;
    while i < keys.len()
        invariant
            0 <= i <= keys@.len(),
            kv == keys@.map_values(|v: Vec<char>| v@),
            forall|t: int| 0 <= t < i ==> kv[t] != k@,
        decreases keys@.len() - i,
    {
        assert(kv[i as int] == keys@[i as int]@);
        if chars_equal(&keys[i], k) {
            assert(kv.contains(k@));
            return true;
        }
        i = i + 1;
    }
    assert(!kv.contains(k@)) by {
        if kv.contains(k@) {
            let t = choose|t: int| 0 <= t < kv.len() && kv[t] == k@;
            assert(kv.len() == keys@.len());
        }
    }
    false
}

fn contains_newline(s: &Vec<char>) -> (r: bool)
    ensures
        r == s@.contains('\n'),
{
    let mut i: usize = 0;
    while i < s.len()
        invariant
            0 <= i <= s@.len(),
            forall|t: int| 0 <= t < i ==> s@[t] != '\n',
        decreases s@.len() - i,
    {
        if s[i] == '\n' {
            return true;
        }
        i = i + 1;
    }
    false
}

/// Keeps the links of a page worth following: a target present and not denylisted, one link
/// per normalised target (the first), and no newline in the target.
pub fn filter_links(links: &Vec<RawLink>) -> (r: Vec<Link>)
    ensures
        links_view(r@) == followable_links(links@.map_values(|l: RawLink| raw_link_view(l))),
{
    let ghost lv = links@.map_values(|l: RawLink| raw_link_view(l));
    let mut kept: Vec<Link> = Vec::new();
    let mut keys: Vec<Vec<char>> = Vec::new();
    let mut k: usize = 0;
    while k < links.len()
        invariant
            0 <= k <= links@.len(),
            lv == links@.map_values(|l: RawLink| raw_link_view(l)),
            links_view(kept@) == distinct_links(lv.take(k as int)),
            keys@.map_values(|v: Vec<char>| v@) == links_view(kept@).map_values(|p: LinkView| link_key(p.0)),
        decreases links@.len() - k,
    {
        assert(lv.take(k + 1).drop_last() =~= lv.take(k as int));
        assert(lv.take(k + 1).last() == raw_link_view(links@[k as int]));
        match &links[k].href {
            Some(h) => {
                let hc = chars_of(h.as_str());
                if !is_prohibited(h.as_str()) {
                    let key = link_key_exec(&hc);
                    if !contains_key(&keys, &key) {
                        let ghost kb = keys@;
                        let ghost lb = kept@;
                        kept.push(Link { href: h.as_str().to_owned(), text: links[k].text.as_str().to_owned() });
                        keys.push(key);
                        assert(links_view(kept@) =~= links_view(lb).push((h@, links@[k as int].text@)));
                        assert(keys@.map_values(|v: Vec<char>| v@) =~= kb.map_values(|v: Vec<char>| v@).push(link_key(h@)));
                        assert(links_view(kept@).map_values(|p: LinkView| link_key(p.0)) =~= links_view(lb).map_values(|p: LinkView| link_key(p.0)).push(link_key(h@)));
                    }
                }
            },
            None => {},
        }
        k = k + 1;
    }
    assert(lv.take(k as int) =~= lv);
    let ghost dl = links_view(kept@);
    let ghost pred = |l: LinkView| !l.0.contains('\n');
    let mut out: Vec<Link> = Vec::new();
    let mut i: usize = 0;
    while i < kept.len()
        invariant
            0 <= i <= kept@.len(),
            dl == links_view(kept@),
            pred == (|l: LinkView| !l.0.contains('\n')),
            links_view(out@) == dl.take(i as int).filter(pred),
        decreases kept@.len() - i,
    {
        assert(dl.take(i + 1) =~= dl.take(i as int).push(dl[i as int]));
        proof {
            dl.take(i as int).lemma_filter_push(dl[i as int], pred);
        }
        assert(dl[i as int] == (kept@[i as int].href@, kept@[i as int].text@));
        if !contains_newline(&chars_of(kept[i].href.as_str())) {
            let ghost before = out@;
            out.push(Link { href: kept[i].href.as_str().to_owned(), text: kept[i].text.as_str().to_owned() });
            assert(links_view(out@) =~= links_view(before).push(dl[i as int]));
        }
        i = i + 1;
    }
    assert(dl.take(i as int) =~= dl);
    out
}

/// A link target resolved against the page it was found on: absolute targets stay as they
/// are; others are joined to the page URL with one slash and given the trailing-slash
/// convention.
pub open spec fn resolve_spec(page: Seq<char>, href: Seq<char>) -> Seq<char> {
    if has_prefix(href, "http://"@) || has_prefix(href, "https://"@) {
        href
    } else {
        canonical(strip_suffix_all(page, "/"@) + "/"@ + strip_prefix_all(href, "/"@))
    }
}

pub fn resolve_link(page_url: &str, href: &str) -> (r: String)
    ensures
        r@ == resolve_spec(page_url@, href@),
{
    let h = chars_of(href);
    if starts_with_str(&h, "http://") || starts_with_str(&h, "https://") {
        return href.to_owned();
    }
    let mut joined = strip_suffix_all_exec(&chars_of(page_url), "/");
    crate::text::push_str(&mut joined, "/");
    append_chars(&mut joined, &strip_prefix_all_exec(&h, "/"));
    canonical_url(string_of(&joined).as_str())
}

pub open spec fn opt_str_view(v: Option<String>) -> Option<Seq<char>> {
    match v {
        Some(s) => Some(s@),
        None => None,
    }
}

/// URLs a button contributes to the frontier: where its anchor points, then its source when
/// that is not an image.
pub open spec fn button_candidates(b: (Seq<char>, Option<Seq<char>>)) -> Seq<Seq<char>> {
    (match b.1 {
        Some(t) => seq![t],
        None => seq![],
    }) + if !is_image_url_spec(b.0) {
        seq![b.0]
    } else {
        seq![]
    }
}

pub open spec fn buttons_candidates(bs: Seq<(Seq<char>, Option<Seq<char>>)>) -> Seq<Seq<char>>
    decreases bs.len(),
{
    if bs.len() == 0 {
        seq![]
    } else {
        buttons_candidates(bs.drop_last()) + button_candidates(bs.last())
    }
}

pub open spec fn links_candidates(page: Seq<char>, ls: Seq<LinkView>) -> Seq<Seq<char>>
    decreases ls.len(),
{
    if ls.len() == 0 {
        seq![]
    } else {
        links_candidates(page, ls.drop_last()).push(resolve_spec(page, ls.last().0))
    }
}

pub open spec fn button_refs_view(v: Seq<ButtonRef>) -> Seq<(Seq<char>, Option<Seq<char>>)> {
    v.map_values(|b: ButtonRef| (b.src@, opt_str_view(b.links_to)))
}

pub open spec fn strings_view(v: Seq<String>) -> Seq<Seq<char>> {
    v.map_values(|s: String| s@)
}

/// Every URL a scraped page offers to the frontier, in order: from its buttons, then its
/// links resolved against the page.
pub fn page_candidates(page_url: &str, links: &Vec<Link>, buttons: &Vec<ButtonRef>) -> (r: Vec<String>)
    ensures
        strings_view(r@) == buttons_candidates(button_refs_view(buttons@)) + links_candidates(page_url@, links_view(links@)),
{
    let ghost bv = button_refs_view(buttons@);
    let mut out: Vec<String> = Vec::new();
    let mut k: usize = 0;
    while k < buttons.len()
        invariant
            0 <= k <= buttons@.len(),
            bv == button_refs_view(buttons@),
            strings_view(out@) == buttons_candidates(bv.take(k as int)),
        decreases buttons@.len() - k,
    {
        assert(bv.take(k + 1).drop_last() =~= bv.take(k as int));
        assert(bv.take(k + 1).last() == (buttons@[k as int].src@, opt_str_view(buttons@[k as int].links_to)));
        let ghost before = strings_view(out@);
        let b = &buttons[k];
        match &b.links_to {
            Some(t) => {
                out.push(t.as_str().to_owned());
            },
            None => {},
        }
        let ghost mid = strings_view(out@);
        if !is_image_url(b.src.as_str()) {
            out.push(b.src.as_str().to_owned());
        }
        assert(strings_view(out@) =~= before + button_candidates(bv[k as int]));
        k = k + 1;
    }
    assert(bv.take(k as int) =~= bv);
    let ghost head = strings_view(out@);
    let ghost lv = links_view(links@);
    let mut i: usize = 0;
    while i < links.len()
        invariant
            0 <= i <= links@.len(),
            lv == links_view(links@),
            strings_view(out@) == head + links_candidates(page_url@, lv.take(i as int)),
        decreases links@.len() - i,
    {
        assert(lv.take(i + 1).drop_last() =~= lv.take(i as int));
        assert(lv.take(i + 1).last().0 == links@[i as int].href@);
        let ghost before = strings_view(out@);
        let u = resolve_link(page_url, links[i].href.as_str());
        out.push(u);
        assert(strings_view(out@) =~= before.push(resolve_spec(page_url@, links@[i as int].href@)));
        i = i + 1;
    }
    assert(lv.take(i as int) =~= lv);
    out
}

} // verus!
