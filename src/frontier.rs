use vstd::prelude::*;
use crate::text::{chars_equal, chars_of, contains_str, has_substring};
use crate::urls::{dedup_key, dedup_key_chars, folder_chars, folder_of, host_chars, host_of};

verus! {

broadcast use vstd::string::group_string_axioms;

/// Substrings that mark a link to a non-content site or scheme (mail, social networks,
/// shorteners, code forges, archive mirrors).
#[verifier::opaque]
pub open spec fn prohibited_links() -> Seq<Seq<char>> {
    seq!["mailto:"@, "tel:"@, "itch.io"@, "archlinux.org"@, "wiki.archlinux.org"@, "osu.ppy.sh"@, "javascript:"@, "github.com"@, "gitlab.com"@, "bitbucket.org"@, "reddit.com"@, "discord.com"@, "discord.gg"@, "steamcommunity.com"@, "steamstatic.com"@, "steamcdn.net"@, "catbox.moe"@, "litterbox.catbox.moe"@, "twitch.tv"@, "youtube.com"@, "twitter.com"@, "facebook.com"@, "instagram.com"@, "reddit.com"@, "tumblr.com"@, "pinterest.com"@, "linkedin.com"@, "vimeo.com"@, "foursquare.com"@, "snapchat.com"@, "ze.wtf"@, "t.me"@, "x.com"@, "t.co"@, "g.co"@, "microsoft.com"@, "apple.com"@, "bit.ly"@, "tinyurl.com"@, "goo.gl"@, "google.com"@, "g.co"@, "archive.org"@, "ftp://"@, "bsky.app"@, "codeberg.org"@, "sourcehut.org"@, "git.sr.ht"@, "gitea.com"@, "gitee.com"@]
}

fn prohibited_link_list() -> (v: Vec<&'static str>)
    ensures
        v@.map_values(|s: &str| s@) == prohibited_links(),
{
    let mut v: Vec<&'static str> = Vec::new();
    v.push("mailto:");
    v.push("tel:");
    v.push("itch.io");
    v.push("archlinux.org");
    v.push("wiki.archlinux.org");
    v.push("osu.ppy.sh");
    v.push("javascript:");
    v.push("github.com");
    v.push("gitlab.com");
    v.push("bitbucket.org");
    v.push("reddit.com");
    v.push("discord.com");
    v.push("discord.gg");
    v.push("steamcommunity.com");
    v.push("steamstatic.com");
    v.push("steamcdn.net");
    v.push("catbox.moe");
    v.push("litterbox.catbox.moe");
    v.push("twitch.tv");
    v.push("youtube.com");
    v.push("twitter.com");
    v.push("facebook.com");
    v.push("instagram.com");
    v.push("reddit.com");
    v.push("tumblr.com");
    v.push("pinterest.com");
    v.push("linkedin.com");
    v.push("vimeo.com");
    v.push("foursquare.com");
    v.push("snapchat.com");
    v.push("ze.wtf");
    v.push("t.me");
    v.push("x.com");
    v.push("t.co");
    v.push("g.co");
    v.push("microsoft.com");
    v.push("apple.com");
    v.push("bit.ly");
    v.push("tinyurl.com");
    v.push("goo.gl");
    v.push("google.com");
    v.push("g.co");
    v.push("archive.org");
    v.push("ftp://");
    v.push("bsky.app");
    v.push("codeberg.org");
    v.push("sourcehut.org");
    v.push("git.sr.ht");
    v.push("gitea.com");
    v.push("gitee.com");
    proof {
        reveal(prohibited_links);
    }
    assert(v@.map_values(|s: &str| s@) =~= prohibited_links());
    v
}

pub open spec fn is_prohibited_spec(u: Seq<char>) -> bool {
    exists|i: int| 0 <= i < prohibited_links().len() && has_substring(u, #[trigger] prohibited_links()[i])
}

pub fn is_prohibited_chars(u: &Vec<char>) -> (r: bool)
    ensures
        r == is_prohibited_spec(u@),
{
    let list = prohibited_link_list();
    let ghost pl = prohibited_links();
    let mut i: usize = 0;
    while i < list.len()
        invariant
            0 <= i <= list@.len(),
            list@.map_values(|s: &str| s@) == pl,
            pl == prohibited_links(),
            forall|t: int| 0 <= t < i ==> !has_substring(u@, #[trigger] pl[t]),
        decreases list@.len() - i,
    {
        assert(pl[i as int] == list@[i as int]@);
        if contains_str(u, list[i]) {
            return true;
        }
        i = i + 1;
    }
    assert(!is_prohibited_spec(u@)) by {
        if is_prohibited_spec(u@) {
            let t = choose|t: int| 0 <= t < pl.len() && has_substring(u@, #[trigger] pl[t]);
            assert(pl.len() == list@.len());
        }
    }
    false
}

/// Whether the URL contains any of the denylisted substrings.
pub fn is_prohibited(url: &str) -> (r: bool)
    ensures
        r == is_prohibited_spec(url@),
{
    is_prohibited_chars(&chars_of(url))
}


/// Pages accepted per domain.
pub const DOMAIN_CAP: usize = 75;

/// Pages accepted per (domain, first path segment).
pub const FOLDER_CAP: usize = 10;

/// What became of a candidate URL handed to the frontier.
#[derive(Clone, Copy, Debug, PartialEq, Eq, Structural)]
pub enum EnqueueOutcome {
    Accepted,
    Prohibited,
    Duplicate,
    DomainFull,
    FolderFull,
    QueueFull,
}

/// One accepted URL: its dedup key, domain and first path segment.
pub type AcceptedView = (Seq<char>, Seq<char>, Seq<char>);

pub struct FrontierModel {
    /// URLs waiting to be fetched, oldest first.
    pub queue: Seq<Seq<char>>,
    /// Every URL ever accepted, in order.
    pub accepted: Seq<AcceptedView>,
    /// Dedup keys of URLs handed out and not yet done.
    pub in_flight: Seq<Seq<char>>,
    /// The high-water mark of the queue.
    pub max_queue: nat,
}

pub open spec fn accepted_keys(a: Seq<AcceptedView>) -> Seq<Seq<char>> {
    a.map_values(|e: AcceptedView| e.0)
}

pub open spec fn queue_keys(q: Seq<Seq<char>>) -> Seq<Seq<char>> {
    q.map_values(|u: Seq<char>| dedup_key(u))
}

pub open spec fn domain_count(a: Seq<AcceptedView>, d: Seq<char>) -> nat
    decreases a.len(),
{
    if a.len() == 0 {
        0
    } else {
        domain_count(a.drop_last(), d) + if a.last().1 == d {
            1nat
        } else {
            0nat
        }
    }
}

pub open spec fn folder_count(a: Seq<AcceptedView>, d: Seq<char>, f: Seq<char>) -> nat
    decreases a.len(),
{
    if a.len() == 0 {
        0
    } else {
        folder_count(a.drop_last(), d, f) + if a.last().1 == d && a.last().2 == f {
            1nat
        } else {
            0nat
        }
    }
}

/// The decision on a candidate URL, checks in order: denylist, already seen, domain cap,
/// subfolder cap, queue high-water mark.
pub open spec fn enqueue_outcome(m: FrontierModel, u: Seq<char>) -> EnqueueOutcome {
    if is_prohibited_spec(u) {
        EnqueueOutcome::Prohibited
    } else if accepted_keys(m.accepted).contains(dedup_key(u)) {
        EnqueueOutcome::Duplicate
    } else if domain_count(m.accepted, host_of(u)) >= DOMAIN_CAP {
        EnqueueOutcome::DomainFull
    } else if folder_count(m.accepted, host_of(u), folder_of(u)) >= FOLDER_CAP {
        EnqueueOutcome::FolderFull
    } else if m.queue.len() >= m.max_queue {
        EnqueueOutcome::QueueFull
    } else {
        EnqueueOutcome::Accepted
    }
}

/// The frontier after offering it `u`: an accepted URL joins the back of the queue and the
/// accepted record; anything else leaves the frontier as it was.
pub open spec fn after_enqueue(m: FrontierModel, u: Seq<char>) -> FrontierModel {
    if enqueue_outcome(m, u) == EnqueueOutcome::Accepted {
        FrontierModel {
            queue: m.queue.push(u),
            accepted: m.accepted.push((dedup_key(u), host_of(u), folder_of(u))),
            ..m
        }
    } else {
        m
    }
}

/// Handing out the oldest queued URL marks its key in flight.
pub open spec fn after_next(m: FrontierModel) -> FrontierModel {
    if m.queue.len() == 0 {
        m
    } else {
        FrontierModel {
            queue: m.queue.drop_first(),
            in_flight: m.in_flight.push(dedup_key(m.queue[0])),
            ..m
        }
    }
}

pub open spec fn is_distinct_from(a: Seq<Seq<char>>, b: Seq<Seq<char>>) -> bool {
    forall|i: int, j: int| 0 <= i < a.len() && 0 <= j < b.len() ==> a[i] != b[j]
}

/// The frontier's invariant: every key is accepted once, a URL is queued or in flight at most
/// once and never both, the queue stays under its mark, and no cap is ever exceeded.
pub open spec fn frontier_wf(m: FrontierModel) -> bool {
    &&& accepted_keys(m.accepted).no_duplicates()
    &&& queue_keys(m.queue).no_duplicates()
    &&& m.in_flight.no_duplicates()
    &&& is_distinct_from(queue_keys(m.queue), m.in_flight)
    &&& forall|i: int| 0 <= i < m.queue.len() ==> accepted_keys(m.accepted).contains(#[trigger] queue_keys(m.queue)[i])
    &&& forall|i: int| 0 <= i < m.in_flight.len() ==> accepted_keys(m.accepted).contains(#[trigger] m.in_flight[i])
    &&& m.queue.len() <= m.max_queue
    &&& forall|d: Seq<char>| #[trigger] domain_count(m.accepted, d) <= DOMAIN_CAP
    &&& forall|d: Seq<char>, f: Seq<char>| #[trigger] folder_count(m.accepted, d, f) <= FOLDER_CAP
}

/// The crawl frontier: a FIFO queue with dedup, denylist and per-domain and per-subfolder caps.
pub struct Frontier {
    queue: Vec<String>,
    accepted: Vec<(Vec<char>, Vec<char>, Vec<char>)>,
    in_flight: Vec<Vec<char>>,
    max_queue: usize,
}

pub open spec fn string_seq_view(v: Seq<String>) -> Seq<Seq<char>> {
    v.map_values(|s: String| s@)
}

pub open spec fn chars_seq_view(v: Seq<Vec<char>>) -> Seq<Seq<char>> {
    v.map_values(|s: Vec<char>| s@)
}

pub open spec fn accepted_view(v: Seq<(Vec<char>, Vec<char>, Vec<char>)>) -> Seq<AcceptedView> {
    v.map_values(|e: (Vec<char>, Vec<char>, Vec<char>)| (e.0@, e.1@, e.2@))
}

impl View for Frontier {
    type V = FrontierModel;

    closed spec fn view(&self) -> FrontierModel {
        FrontierModel {
            queue: string_seq_view(self.queue@),
            accepted: accepted_view(self.accepted@),
            in_flight: chars_seq_view(self.in_flight@),
            max_queue: self.max_queue as nat,
        }
    }
}

proof fn lemma_domain_count_push(a: Seq<AcceptedView>, e: AcceptedView, d: Seq<char>)
    ensures
        domain_count(a.push(e), d) == domain_count(a, d) + if e.1 == d {
            1nat
        } else {
            0nat
        },
{
    assert(a.push(e).drop_last() =~= a);
}

proof fn lemma_folder_count_push(a: Seq<AcceptedView>, e: AcceptedView, d: Seq<char>, f: Seq<char>)
    ensures
        folder_count(a.push(e), d, f) == folder_count(a, d, f) + if e.1 == d && e.2 == f {
            1nat
        } else {
            0nat
        },
{
    assert(a.push(e).drop_last() =~= a);
}

impl Frontier {
    pub closed spec fn wf(&self) -> bool {
        frontier_wf(self@)
    }

    /// An empty frontier whose queue holds at most `max_queue` URLs.
    pub fn new(max_queue: usize) -> (f: Self)
        ensures
            f.wf(),
            f@.queue.len() == 0,
            f@.accepted.len() == 0,
            f@.in_flight.len() == 0,
            f@.max_queue == max_queue,
    {
        let f = Frontier { queue: Vec::new(), accepted: Vec::new(), in_flight: Vec::new(), max_queue };
        proof {
            assert(f@.accepted =~= Seq::<AcceptedView>::empty());
            assert forall|d: Seq<char>| #[trigger] domain_count(f@.accepted, d) <= DOMAIN_CAP by {}
            assert forall|d: Seq<char>, g: Seq<char>| #[trigger] folder_count(f@.accepted, d, g) <= FOLDER_CAP by {}
        }
        f
    }

    pub fn queue_len(&self) -> (n: usize)
        ensures
            n == self@.queue.len(),
    {
        self.queue.len()
    }

    pub fn in_flight_len(&self) -> (n: usize)
        ensures
            n == self@.in_flight.len(),
    {
        self.in_flight.len()
    }

    /// Nothing is queued and nothing is in flight: the crawl is over.
    pub fn is_drained(&self) -> (r: bool)
        ensures
            r == (self@.queue.len() == 0 && self@.in_flight.len() == 0),
    {
        self.queue.len() == 0 && self.in_flight.len() == 0
    }

    fn is_accepted_key(&self, key: &Vec<char>) -> (r: bool)
        ensures
            r == accepted_keys(self@.accepted).contains(key@),
    {
        let ghost ak = accepted_keys(self@.accepted);
        let mut i: usize = 0;
        while i < self.accepted.len()
            invariant
                0 <= i <= self.accepted@.len(),
                ak == accepted_keys(accepted_view(self.accepted@)),
                forall|t: int| 0 <= t < i ==> ak[t] != key@,
            decreases self.accepted@.len() - i,
        {
            assert(ak[i as int] == self.accepted@[i as int].0@);
            if chars_equal(&self.accepted[i].0, key) {
                assert(ak.contains(key@));
                return true;
            }
            i = i + 1;
        }
        assert(!ak.contains(key@)) by {
            if ak.contains(key@) {
                let t = choose|t: int| 0 <= t < ak.len() && ak[t] == key@;
                assert(ak.len() == self.accepted@.len());
            }
        }
        false
    }

    /// How many accepted URLs are under `domain`, and how many under `domain` and `folder`.
    fn counts(&self, domain: &Vec<char>, folder: &Vec<char>) -> (r: (usize, usize))
        ensures
            r.0 == domain_count(self@.accepted, domain@),
            r.1 == folder_count(self@.accepted, domain@, folder@),
    {
        let ghost a = self@.accepted;
        let mut nd: usize = 0;
        let mut nf: usize = 0;
        let mut i: usize = 0;
        while i < self.accepted.len()
            invariant
                0 <= i <= self.accepted@.len(),
                a == accepted_view(self.accepted@),
                nd == domain_count(a.take(i as int), domain@),
                nf == folder_count(a.take(i as int), domain@, folder@),
                nd <= i,
                nf <= i,
            decreases self.accepted@.len() - i,
        {
            assert(a.take(i + 1).drop_last() =~= a.take(i as int));
            assert(a.take(i + 1).last() == (self.accepted@[i as int].0@, self.accepted@[i as int].1@, self.accepted@[i as int].2@));
            let same_domain = chars_equal(&self.accepted[i].1, domain);
            if same_domain {
                nd = nd + 1;
                if chars_equal(&self.accepted[i].2, folder) {
                    nf = nf + 1;
                }
            }
            i = i + 1;
        }
        assert(a.take(i as int) =~= a);
        (nd, nf)
    }

    /// Offers a candidate URL to the frontier.
    pub fn enqueue(&mut self, url: &str) -> (r: EnqueueOutcome)
        requires
            old(self).wf(),
        ensures
            final(self).wf(),
            r == enqueue_outcome(old(self)@, url@),
            final(self)@ == after_enqueue(old(self)@, url@),
    {
        let u = chars_of(url);
        if is_prohibited_chars(&u) {
            return EnqueueOutcome::Prohibited;
        }
        let key = dedup_key_chars(&u);
        if self.is_accepted_key(&key) {
            return EnqueueOutcome::Duplicate;
        }
        let domain = host_chars(&u);
        let folder = folder_chars(&u);
        let (nd, nf) = self.counts(&domain, &folder);
        if nd >= DOMAIN_CAP {
            return EnqueueOutcome::DomainFull;
        }
        if nf >= FOLDER_CAP {
            return EnqueueOutcome::FolderFull;
        }
        if self.queue.len() >= self.max_queue {
            return EnqueueOutcome::QueueFull;
        }
        let ghost m = self@;
        let ghost e: AcceptedView = (key@, domain@, folder@);
        self.queue.push(url.to_owned());
        self.accepted.push((key, domain, folder));
        proof {
            assert(self@.queue =~= m.queue.push(url@));
            assert(self@.accepted =~= m.accepted.push(e));
            assert(self@.in_flight =~= m.in_flight);
            assert(queue_keys(self@.queue) =~= queue_keys(m.queue).push(e.0));
            assert(accepted_keys(self@.accepted) =~= accepted_keys(m.accepted).push(e.0));
            assert forall|i: int| 0 <= i < self@.queue.len() implies accepted_keys(self@.accepted).contains(
                #[trigger] queue_keys(self@.queue)[i],
            ) by {
                if i < m.queue.len() {
                    let t = choose|t: int| 0 <= t < accepted_keys(m.accepted).len() && accepted_keys(m.accepted)[t] == queue_keys(m.queue)[i];
                    assert(accepted_keys(self@.accepted)[t] == queue_keys(self@.queue)[i]);
                } else {
                    assert(accepted_keys(self@.accepted)[m.accepted.len() as int] == e.0);
                }
            }
            assert forall|i: int| 0 <= i < self@.in_flight.len() implies accepted_keys(self@.accepted).contains(
                #[trigger] self@.in_flight[i],
            ) by {
                let t = choose|t: int| 0 <= t < accepted_keys(m.accepted).len() && accepted_keys(m.accepted)[t] == m.in_flight[i];
                assert(accepted_keys(self@.accepted)[t] == self@.in_flight[i]);
            }
            assert forall|i: int| 0 <= i < m.queue.len() implies queue_keys(m.queue)[i] != e.0 by {
                assert(accepted_keys(m.accepted).contains(queue_keys(m.queue)[i]));
            }
            assert forall|i: int| 0 <= i < m.in_flight.len() implies m.in_flight[i] != e.0 by {
                assert(accepted_keys(m.accepted).contains(m.in_flight[i]));
            }
            assert forall|i: int| 0 <= i < m.accepted.len() implies accepted_keys(m.accepted)[i] != e.0 by {}
            assert forall|d: Seq<char>| #[trigger] domain_count(self@.accepted, d) <= DOMAIN_CAP by {
                lemma_domain_count_push(m.accepted, e, d);
            }
            assert forall|d: Seq<char>, g: Seq<char>| #[trigger] folder_count(self@.accepted, d, g) <= FOLDER_CAP by {
                lemma_folder_count_push(m.accepted, e, d, g);
            }
        }
        EnqueueOutcome::Accepted
    }
}


/// Marking a URL done takes its key out of flight.
pub open spec fn after_done(m: FrontierModel, key: Seq<char>) -> FrontierModel {
    FrontierModel { in_flight: m.in_flight.filter(|k: Seq<char>| k != key), ..m }
}

impl Frontier {
    /// Hands out the oldest queued URL and marks it in flight.
    pub fn next_url(&mut self) -> (r: Option<String>)
        requires
            old(self).wf(),
        ensures
            final(self).wf(),
            final(self)@ == after_next(old(self)@),
            old(self)@.queue.len() == 0 <==> r is None,
            r matches Some(u) ==> u@ == old(self)@.queue[0],
    {
        if self.queue.len() == 0 {
            return None;
        }
        let ghost m = self@;
        let url = self.queue.remove(0);
        let key = dedup_key_chars(&chars_of(url.as_str()));
        self.in_flight.push(key);
        proof {
            assert(self@.queue =~= m.queue.drop_first());
            assert(self@.in_flight =~= m.in_flight.push(dedup_key(m.queue[0])));
            assert(self@.accepted =~= m.accepted);
            let k0 = queue_keys(m.queue)[0];
            assert(queue_keys(self@.queue) =~= queue_keys(m.queue).drop_first());
            assert forall|j: int| 0 <= j < m.in_flight.len() implies m.in_flight[j] != k0 by {}
            assert forall|i: int| 0 <= i < self@.queue.len() implies queue_keys(self@.queue)[i] != k0 by {
                assert(queue_keys(self@.queue)[i] == queue_keys(m.queue)[i + 1]);
            }
            assert forall|i: int| 0 <= i < self@.queue.len() implies accepted_keys(self@.accepted).contains(
                #[trigger] queue_keys(self@.queue)[i],
            ) by {
                assert(queue_keys(self@.queue)[i] == queue_keys(m.queue)[i + 1]);
            }
            assert forall|i: int| 0 <= i < self@.in_flight.len() implies accepted_keys(self@.accepted).contains(
                #[trigger] self@.in_flight[i],
            ) by {
                if i == m.in_flight.len() {
                    assert(self@.in_flight[i] == queue_keys(m.queue)[0]);
                }
            }
            assert(is_distinct_from(queue_keys(self@.queue), self@.in_flight)) by {
                assert forall|i: int, j: int| 0 <= i < queue_keys(self@.queue).len() && 0 <= j < self@.in_flight.len()
                    implies queue_keys(self@.queue)[i] != self@.in_flight[j] by {
                    assert(queue_keys(self@.queue)[i] == queue_keys(m.queue)[i + 1]);
                }
            }
        }
        Some(url)
    }

    /// Records that the fetch of `url` has ended, whatever its outcome.
    pub fn mark_done(&mut self, url: &str)
        requires
            old(self).wf(),
        ensures
            final(self).wf(),
            final(self)@ == after_done(old(self)@, dedup_key(url@)),
    {
        let key = dedup_key_chars(&chars_of(url));
        let ghost m = self@;
        let ghost pred = |k: Seq<char>| k != key@;
        let mut kept: Vec<Vec<char>> = Vec::new();
        let mut i: usize = 0;
        while i < self.in_flight.len()
            invariant
                0 <= i <= self.in_flight@.len(),
                m.in_flight == chars_seq_view(self.in_flight@),
                pred == (|k: Seq<char>| k != key@),
                chars_seq_view(kept@) == m.in_flight.take(i as int).filter(pred),
            decreases self.in_flight@.len() - i,
        {
            assert(m.in_flight.take(i + 1) =~= m.in_flight.take(i as int).push(m.in_flight[i as int]));
            proof {
                m.in_flight.take(i as int).lemma_filter_push(m.in_flight[i as int], pred);
            }
            assert(m.in_flight[i as int] == self.in_flight@[i as int]@);
            if !chars_equal(&self.in_flight[i], &key) {
                let ghost before = kept@;
                let copy = crate::text::slice_chars(&self.in_flight[i], 0, self.in_flight[i].len());
                assert(copy@ =~= m.in_flight[i as int]);
                kept.push(copy);
                assert(chars_seq_view(kept@) =~= chars_seq_view(before).push(m.in_flight[i as int]));
            }
            i = i + 1;
        }
        assert(m.in_flight.take(i as int) =~= m.in_flight);
        self.in_flight = kept;
        proof {
            let nf = m.in_flight.filter(pred);
            assert(self@.in_flight == nf);
            assert(self@.queue =~= m.queue);
            assert(self@.accepted =~= m.accepted);
            assert forall|j: int| 0 <= j < nf.len() implies m.in_flight.contains(#[trigger] nf[j]) by {
                m.in_flight.lemma_filter_contains_rev(pred, nf[j]);
            }
            lemma_filter_no_duplicates(m.in_flight, pred);
            assert forall|j: int| 0 <= j < nf.len() implies accepted_keys(m.accepted).contains(#[trigger] nf[j]) by {
                assert(m.in_flight.contains(nf[j]));
            }
            assert(is_distinct_from(queue_keys(m.queue), nf)) by {
                assert forall|i: int, j: int| 0 <= i < queue_keys(m.queue).len() && 0 <= j < nf.len()
                    implies queue_keys(m.queue)[i] != nf[j] by {
                    assert(m.in_flight.contains(nf[j]));
                }
            }
        }
    }
}

proof fn lemma_filter_no_duplicates(s: Seq<Seq<char>>, p: spec_fn(Seq<char>) -> bool)
    requires
        s.no_duplicates(),
    ensures
        s.filter(p).no_duplicates(),
    decreases s.len(),
{
    if s.len() > 0 {
        let init = s.drop_last();
        assert(s =~= init.push(s.last()));
        assert(init.no_duplicates());
        lemma_filter_no_duplicates(init, p);
        init.lemma_filter_push(s.last(), p);
        if p(s.last()) {
            assert(!init.filter(p).contains(s.last())) by {
                if init.filter(p).contains(s.last()) {
                    init.lemma_filter_contains_rev(p, s.last());
                    let t = choose|t: int| 0 <= t < init.len() && init[t] == s.last();
                    assert(s[t] == s[s.len() - 1]);
                }
            }
        }
    }
}

/// A frontier never has the same URL in flight twice.
pub proof fn lemma_in_flight_distinct(m: FrontierModel)
    requires
        frontier_wf(m),
    ensures
        m.in_flight.no_duplicates(),
{
}

/// Offering a URL whose dedup key was already accepted changes nothing: the URL can be neither
/// queued nor fetched a second time.
pub proof fn lemma_seen_url_dropped(m: FrontierModel, u: Seq<char>)
    requires
        frontier_wf(m),
        accepted_keys(m.accepted).contains(dedup_key(u)),
    ensures
        enqueue_outcome(m, u) != EnqueueOutcome::Accepted,
        after_enqueue(m, u) == m,
        after_next(after_enqueue(m, u)).in_flight.no_duplicates(),
{
    if m.queue.len() > 0 {
        let k0 = queue_keys(m.queue)[0];
        assert forall|j: int| 0 <= j < m.in_flight.len() implies m.in_flight[j] != k0 by {}
    }
}

/// Once 75 URLs of a domain were accepted, every further one is dropped; once 10 of a
/// (domain, first path segment) pair were, every further one of the pair is dropped, however
/// few the domain has.
pub proof fn lemma_caps(m: FrontierModel, u: Seq<char>)
    requires
        frontier_wf(m),
    ensures
        domain_count(m.accepted, host_of(u)) >= DOMAIN_CAP ==> after_enqueue(m, u) == m,
        folder_count(m.accepted, host_of(u), folder_of(u)) >= FOLDER_CAP ==> after_enqueue(m, u) == m,
        enqueue_outcome(m, u) == EnqueueOutcome::Accepted ==> domain_count(
            after_enqueue(m, u).accepted,
            host_of(u),
        ) == domain_count(m.accepted, host_of(u)) + 1 && folder_count(
            after_enqueue(m, u).accepted,
            host_of(u),
            folder_of(u),
        ) == folder_count(m.accepted, host_of(u), folder_of(u)) + 1,
{
    let e = (dedup_key(u), host_of(u), folder_of(u));
    lemma_domain_count_push(m.accepted, e, host_of(u));
    lemma_folder_count_push(m.accepted, e, host_of(u), folder_of(u));
}

} // verus!
