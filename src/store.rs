use vstd::prelude::*;

verus! {

broadcast use vstd::string::group_string_axioms;

/// A crawled site, keyed by its canonical URL.
#[derive(Debug)]
pub struct SiteRow {
    pub url: String,
    pub title: String,
    pub description: String,
    pub raw_text: String,
    pub button_count: usize,
}

/// An accepted button, keyed by its image bytes.
#[derive(Debug)]
pub struct ButtonRow {
    pub content: Vec<u8>,
    pub src: String,
    pub alt: Option<String>,
    pub color_tags: String,
    pub color_average: String,
}

/// A button found on a page, with the target of the anchor around it.
#[derive(Debug)]
pub struct PageButton {
    pub button: ButtonRow,
    pub links_to: Option<String>,
}

/// What one successful crawl of a page writes.
#[derive(Debug)]
pub struct PageRecord {
    pub site: SiteRow,
    pub buttons: Vec<PageButton>,
}

/// That a button appears on a site.
#[derive(Debug)]
struct ButtonLink {
    content: Vec<u8>,
    site: String,
    links_to: Option<String>,
}

pub type SiteVal = (Seq<char>, Seq<char>, Seq<char>, nat);

pub type ButtonVal = (Seq<char>, Option<Seq<char>>, Seq<char>, Seq<char>);

pub type LinkKey = (Seq<u8>, Seq<char>);

pub open spec fn opt_view(o: Option<String>) -> Option<Seq<char>> {
    match o {
        Some(s) => Some(s@),
        None => None,
    }
}

pub open spec fn site_entry(r: SiteRow) -> (Seq<char>, SiteVal) {
    (r.url@, (r.title@, r.description@, r.raw_text@, r.button_count as nat))
}

pub open spec fn button_entry(r: ButtonRow) -> (Seq<u8>, ButtonVal) {
    (r.content@, (r.src@, opt_view(r.alt), r.color_tags@, r.color_average@))
}

spec fn link_entry(l: ButtonLink) -> (LinkKey, Option<Seq<char>>) {
    ((l.content@, l.site@), opt_view(l.links_to))
}

/// The stored tables: sites by URL, buttons by content, and button-site links with the
/// anchor target first seen.
pub struct StoreModel {
    pub sites: Map<Seq<char>, SiteVal>,
    pub buttons: Map<Seq<u8>, ButtonVal>,
    pub links: Map<LinkKey, Option<Seq<char>>>,
}

/// Writes each pair in order; a later write to a key replaces the earlier one.
pub open spec fn upsert_all<K, V>(m: Map<K, V>, kvs: Seq<(K, V)>) -> Map<K, V>
    decreases kvs.len(),
{
    if kvs.len() == 0 {
        m
    } else {
        upsert_all(m, kvs.drop_last()).insert(kvs.last().0, kvs.last().1)
    }
}

/// Writes each pair in order unless its key is already present.
pub open spec fn insert_new_all<K, V>(m: Map<K, V>, kvs: Seq<(K, V)>) -> Map<K, V>
    decreases kvs.len(),
{
    if kvs.len() == 0 {
        m
    } else {
        let prev = insert_new_all(m, kvs.drop_last());
        if prev.dom().contains(kvs.last().0) {
            prev
        } else {
            prev.insert(kvs.last().0, kvs.last().1)
        }
    }
}

pub open spec fn page_buttons(p: PageRecord) -> Seq<(Seq<u8>, ButtonVal)> {
    p.buttons@.map_values(|b: PageButton| button_entry(b.button))
}

pub open spec fn page_links(p: PageRecord) -> Seq<(LinkKey, Option<Seq<char>>)> {
    p.buttons@.map_values(|b: PageButton| ((b.button.content@, p.site.url@), opt_view(b.links_to)))
}

/// Recording a page upserts its site row, upserts each of its buttons, and links each button
/// to the site unless that link exists.
pub open spec fn after_record(m: StoreModel, p: PageRecord) -> StoreModel {
    StoreModel {
        sites: m.sites.insert(site_entry(p.site).0, site_entry(p.site).1),
        buttons: upsert_all(m.buttons, page_buttons(p)),
        links: insert_new_all(m.links, page_links(p)),
    }
}

pub proof fn lemma_upsert_absorbs<K, V>(a: Map<K, V>, kvs: Seq<(K, V)>, k: K, v: V)
    ensures
        upsert_all(a.insert(k, v), kvs).insert(k, v) == upsert_all(a, kvs).insert(k, v),
    decreases kvs.len(),
{
    if kvs.len() == 0 {
        assert(a.insert(k, v).insert(k, v) =~= a.insert(k, v));
    } else {
        let init = kvs.drop_last();
        let (k2, v2) = kvs.last();
        lemma_upsert_absorbs(a, init, k, v);
        let x = upsert_all(a.insert(k, v), init);
        let y = upsert_all(a, init);
        if k2 == k {
            assert(x.insert(k2, v2).insert(k, v) =~= x.insert(k, v));
            assert(y.insert(k2, v2).insert(k, v) =~= y.insert(k, v));
        } else {
            assert(x.insert(k2, v2).insert(k, v) =~= x.insert(k, v).insert(k2, v2));
            assert(y.insert(k2, v2).insert(k, v) =~= y.insert(k, v).insert(k2, v2));
        }
    }
}

/// Upserting the same pairs twice leaves what upserting them once left.
pub proof fn lemma_upsert_all_idempotent<K, V>(m: Map<K, V>, kvs: Seq<(K, V)>)
    ensures
        upsert_all(upsert_all(m, kvs), kvs) == upsert_all(m, kvs),
    decreases kvs.len(),
{
    if kvs.len() > 0 {
        let init = kvs.drop_last();
        let (k, v) = kvs.last();
        let f = upsert_all(m, init);
        lemma_upsert_absorbs(f, init, k, v);
        lemma_upsert_all_idempotent(m, init);
    }
}

proof fn lemma_insert_new_covers<K, V>(m: Map<K, V>, kvs: Seq<(K, V)>)
    ensures
        forall|i: int| 0 <= i < kvs.len() ==> insert_new_all(m, kvs).dom().contains(#[trigger] kvs[i].0),
        forall|k: K| m.dom().contains(k) ==> insert_new_all(m, kvs).dom().contains(k),
    decreases kvs.len(),
{
    if kvs.len() > 0 {
        let init = kvs.drop_last();
        lemma_insert_new_covers(m, init);
        assert forall|i: int| 0 <= i < kvs.len() implies insert_new_all(m, kvs).dom().contains(#[trigger] kvs[i].0) by {
            if i < kvs.len() - 1 {
                assert(kvs[i] == init[i]);
            }
        }
    }
}

proof fn lemma_insert_new_present<K, V>(m: Map<K, V>, kvs: Seq<(K, V)>)
    requires
        forall|i: int| 0 <= i < kvs.len() ==> m.dom().contains(#[trigger] kvs[i].0),
    ensures
        insert_new_all(m, kvs) == m,
    decreases kvs.len(),
{
    if kvs.len() > 0 {
        let init = kvs.drop_last();
        assert forall|i: int| 0 <= i < init.len() implies m.dom().contains(#[trigger] init[i].0) by {
            assert(init[i] == kvs[i]);
        }
        lemma_insert_new_present(m, init);
        assert(m.dom().contains(kvs[kvs.len() - 1].0));
    }
}

/// Inserting-if-absent the same pairs twice leaves what doing it once left.
pub proof fn lemma_insert_new_all_idempotent<K, V>(m: Map<K, V>, kvs: Seq<(K, V)>)
    ensures
        insert_new_all(insert_new_all(m, kvs), kvs) == insert_new_all(m, kvs),
{
    lemma_insert_new_covers(m, kvs);
    lemma_insert_new_present(insert_new_all(m, kvs), kvs);
}

/// Re-crawling a page whose content has not changed writes the same rows again: recording a
/// page twice leaves the store as recording it once does.
pub proof fn lemma_record_idempotent(m: StoreModel, p: PageRecord)
    ensures
        after_record(after_record(m, p), p) == after_record(m, p),
{
    let once = after_record(m, p);
    lemma_upsert_all_idempotent(m.buttons, page_buttons(p));
    lemma_insert_new_all_idempotent(m.links, page_links(p));
    assert(once.sites.insert(site_entry(p.site).0, site_entry(p.site).1) =~= once.sites);
}


pub open spec fn keys_unique<K, V>(s: Seq<(K, V)>) -> bool {
    forall|i: int, j: int| 0 <= i < j < s.len() ==> s[i].0 != s[j].0
}

proof fn lemma_rows_dom<K, V>(s: Seq<(K, V)>, k: K)
    ensures
        upsert_all(Map::<K, V>::empty(), s).dom().contains(k) <==> exists|i: int| 0 <= i < s.len() && #[trigger] s[i].0 == k,
    decreases s.len(),
{
    if s.len() > 0 {
        let init = s.drop_last();
        lemma_rows_dom(init, k);
        if exists|i: int| 0 <= i < s.len() && #[trigger] s[i].0 == k {
            let i = choose|i: int| 0 <= i < s.len() && #[trigger] s[i].0 == k;
            if i < s.len() - 1 {
                assert(init[i] == s[i]);
            }
        }
        if exists|i: int| 0 <= i < init.len() && #[trigger] init[i].0 == k {
            let i = choose|i: int| 0 <= i < init.len() && #[trigger] init[i].0 == k;
            assert(s[i] == init[i]);
        }
    }
}

proof fn lemma_rows_update<K, V>(s: Seq<(K, V)>, j: int, kv: (K, V))
    requires
        keys_unique(s),
        0 <= j < s.len(),
        s[j].0 == kv.0,
    ensures
        upsert_all(Map::<K, V>::empty(), s.update(j, kv)) == upsert_all(Map::<K, V>::empty(), s).insert(kv.0, kv.1),
        keys_unique(s.update(j, kv)),
    decreases s.len(),
{
    let init = s.drop_last();
    let e = Map::<K, V>::empty();
    if j == s.len() - 1 {
        assert(s.update(j, kv).drop_last() =~= init);
        assert(upsert_all(e, init).insert(s.last().0, s.last().1).insert(kv.0, kv.1) =~= upsert_all(e, init).insert(kv.0, kv.1));
    } else {
        assert(keys_unique(init));
        lemma_rows_update(init, j, kv);
        assert(s.update(j, kv).drop_last() =~= init.update(j, kv));
        assert(s.update(j, kv).last() == s.last());
        assert(s.last().0 != kv.0);
        let u = upsert_all(e, init);
        assert(u.insert(kv.0, kv.1).insert(s.last().0, s.last().1) =~= u.insert(s.last().0, s.last().1).insert(kv.0, kv.1));
    }
    assert(keys_unique(s.update(j, kv))) by {
        assert forall|a: int, b: int| 0 <= a < b < s.len() implies s.update(j, kv)[a].0 != s.update(j, kv)[b].0 by {
            assert(s[a].0 != s[b].0);
        }
    }
}

proof fn lemma_rows_push<K, V>(s: Seq<(K, V)>, kv: (K, V))
    requires
        keys_unique(s),
        !upsert_all(Map::<K, V>::empty(), s).dom().contains(kv.0),
    ensures
        upsert_all(Map::<K, V>::empty(), s.push(kv)) == upsert_all(Map::<K, V>::empty(), s).insert(kv.0, kv.1),
        keys_unique(s.push(kv)),
{
    assert(s.push(kv).drop_last() =~= s);
    lemma_rows_dom(s, kv.0);
    assert forall|a: int, b: int| 0 <= a < b < s.push(kv).len() implies s.push(kv)[a].0 != s.push(kv)[b].0 by {
        if b == s.len() {
            assert(s[a].0 != kv.0);
        } else {
            assert(s[a].0 != s[b].0);
        }
    }
}

spec fn site_entries(v: Seq<SiteRow>) -> Seq<(Seq<char>, SiteVal)> {
    v.map_values(|r: SiteRow| site_entry(r))
}

spec fn button_entries(v: Seq<ButtonRow>) -> Seq<(Seq<u8>, ButtonVal)> {
    v.map_values(|r: ButtonRow| button_entry(r))
}

spec fn link_entries(v: Seq<ButtonLink>) -> Seq<(LinkKey, Option<Seq<char>>)> {
    v.map_values(|l: ButtonLink| link_entry(l))
}

/// An in-memory store of crawl results with the upsert semantics of the persisted schema.
pub struct CrawlStore {
    sites: Vec<SiteRow>,
    buttons: Vec<ButtonRow>,
    links: Vec<ButtonLink>,
}

impl View for CrawlStore {
    type V = StoreModel;

    closed spec fn view(&self) -> StoreModel {
        StoreModel {
            sites: upsert_all(Map::empty(), site_entries(self.sites@)),
            buttons: upsert_all(Map::empty(), button_entries(self.buttons@)),
            links: upsert_all(Map::empty(), link_entries(self.links@)),
        }
    }
}

fn copy_string(s: &String) -> (r: String)
    ensures
        r@ == s@,
{
    s.as_str().to_owned()
}

fn copy_opt(o: &Option<String>) -> (r: Option<String>)
    ensures
        opt_view(r) == opt_view(*o),
{
    match o {
        Some(s) => Some(copy_string(s)),
        None => None,
    }
}

fn copy_bytes(v: &Vec<u8>) -> (r: Vec<u8>)
    ensures
        r@ == v@,
{
    let mut r: Vec<u8> = Vec::new();
    let mut k: usize = 0;
    while k < v.len()
        invariant
            0 <= k <= v@.len(),
            r@ == v@.take(k as int),
        decreases v@.len() - k,
    {
        r.push(v[k]);
        assert(r@ =~= v@.take(k + 1));
        k = k + 1;
    }
    assert(v@.take(k as int) =~= v@);
    r
}

fn bytes_equal(a: &Vec<u8>, b: &Vec<u8>) -> (r: bool)
    ensures
        r == (a@ == b@),
{
    if a.len() != b.len() {
        return false;
    }
    let mut k: usize = 0;
    while k < a.len()
        invariant
            a@.len() == b@.len(),
            0 <= k <= a@.len(),
            forall|t: int| 0 <= t < k ==> a@[t] == b@[t],
        decreases a@.len() - k,
    {
        if a[k] != b[k] {
            return false;
        }
        k = k + 1;
    }
    assert(a@ =~= b@);
    true
}

fn copy_site(r: &SiteRow) -> (c: SiteRow)
    ensures
        site_entry(c) == site_entry(*r),
{
    SiteRow {
        url: copy_string(&r.url),
        title: copy_string(&r.title),
        description: copy_string(&r.description),
        raw_text: copy_string(&r.raw_text),
        button_count: r.button_count,
    }
}

fn copy_button(r: &ButtonRow) -> (c: ButtonRow)
    ensures
        button_entry(c) == button_entry(*r),
{
    ButtonRow {
        content: copy_bytes(&r.content),
        src: copy_string(&r.src),
        alt: copy_opt(&r.alt),
        color_tags: copy_string(&r.color_tags),
        color_average: copy_string(&r.color_average),
    }
}

impl CrawlStore {
    pub closed spec fn wf(&self) -> bool {
        &&& keys_unique(site_entries(self.sites@))
        &&& keys_unique(button_entries(self.buttons@))
        &&& keys_unique(link_entries(self.links@))
    }

    pub fn new() -> (s: Self)
        ensures
            s.wf(),
            s@.sites == Map::<Seq<char>, SiteVal>::empty(),
            s@.buttons == Map::<Seq<u8>, ButtonVal>::empty(),
            s@.links == Map::<LinkKey, Option<Seq<char>>>::empty(),
    {
        let s = CrawlStore { sites: Vec::new(), buttons: Vec::new(), links: Vec::new() };
        assert(site_entries(s.sites@) =~= Seq::empty());
        assert(button_entries(s.buttons@) =~= Seq::empty());
        assert(link_entries(s.links@) =~= Seq::empty());
        s
    }

    pub fn site_count(&self) -> (n: usize)
        requires
            self.wf(),
        ensures
            n == self@.sites.dom().len(),
    {
        proof {
            lemma_unique_rows_len(site_entries(self.sites@));
        }
        self.sites.len()
    }

    pub fn button_count(&self) -> (n: usize)
        requires
            self.wf(),
        ensures
            n == self@.buttons.dom().len(),
    {
        proof {
            lemma_unique_rows_len(button_entries(self.buttons@));
        }
        self.buttons.len()
    }

    pub fn link_count(&self) -> (n: usize)
        requires
            self.wf(),
        ensures
            n == self@.links.dom().len(),
    {
        proof {
            lemma_unique_rows_len(link_entries(self.links@));
        }
        self.links.len()
    }

    /// Inserts the site row, or replaces the row stored under its URL.
    pub fn upsert_site(&mut self, row: SiteRow)
        requires
            old(self).wf(),
        ensures
            final(self).wf(),
            final(self)@ == (StoreModel { sites: old(self)@.sites.insert(site_entry(row).0, site_entry(row).1), ..old(self)@ }),
    {
        let ghost es = site_entries(self.sites@);
        let mut j: usize = 0;
        while j < self.sites.len()
            invariant
                0 <= j <= self.sites@.len(),
                self.wf(),
                self.sites@ == old(self).sites@,
                self.buttons@ == old(self).buttons@,
                self.links@ == old(self).links@,
                es == site_entries(self.sites@),
                forall|t: int| 0 <= t < j ==> es[t].0 != row.url@,
            decreases self.sites@.len() - j,
        {
            if self.sites[j].url == row.url {
                proof {
                    lemma_rows_update(es, j as int, site_entry(row));
                }
                self.sites.set(j, row);
                assert(site_entries(self.sites@) =~= es.update(j as int, site_entry(row)));
                return;
            }
            j = j + 1;
        }
        proof {
            lemma_rows_dom(es, row.url@);
            lemma_rows_push(es, site_entry(row));
        }
        self.sites.push(row);
        assert(site_entries(self.sites@) =~= es.push(site_entry(row)));
    }

    /// Inserts the button row, or replaces the row stored under the same image bytes.
    pub fn upsert_button(&mut self, row: ButtonRow)
        requires
            old(self).wf(),
        ensures
            final(self).wf(),
            final(self)@ == (StoreModel { buttons: old(self)@.buttons.insert(button_entry(row).0, button_entry(row).1), ..old(self)@ }),
    {
        let ghost es = button_entries(self.buttons@);
        let mut j: usize = 0;
        while j < self.buttons.len()
            invariant
                0 <= j <= self.buttons@.len(),
                self.wf(),
                self.sites@ == old(self).sites@,
                self.buttons@ == old(self).buttons@,
                self.links@ == old(self).links@,
                es == button_entries(self.buttons@),
                forall|t: int| 0 <= t < j ==> es[t].0 != row.content@,
            decreases self.buttons@.len() - j,
        {
            if bytes_equal(&self.buttons[j].content, &row.content) {
                proof {
                    lemma_rows_update(es, j as int, button_entry(row));
                }
                self.buttons.set(j, row);
                assert(button_entries(self.buttons@) =~= es.update(j as int, button_entry(row)));
                return;
            }
            j = j + 1;
        }
        proof {
            lemma_rows_dom(es, row.content@);
            lemma_rows_push(es, button_entry(row));
        }
        self.buttons.push(row);
        assert(button_entries(self.buttons@) =~= es.push(button_entry(row)));
    }

    /// Records that the button with these bytes appears on `site`, unless that is known.
    pub fn link_button(&mut self, content: &Vec<u8>, site: &String, links_to: &Option<String>)
        requires
            old(self).wf(),
        ensures
            final(self).wf(),
            final(self)@ == (StoreModel {
                links: if old(self)@.links.dom().contains((content@, site@)) {
                    old(self)@.links
                } else {
                    old(self)@.links.insert((content@, site@), opt_view(*links_to))
                },
                ..old(self)@
            }),
    {
        let ghost es = link_entries(self.links@);
        let ghost key: LinkKey = (content@, site@);
        let mut j: usize = 0;
        while j < self.links.len()
            invariant
                0 <= j <= self.links@.len(),
                self.wf(),
                self.sites@ == old(self).sites@,
                self.buttons@ == old(self).buttons@,
                self.links@ == old(self).links@,
                es == link_entries(self.links@),
                key == (content@, site@),
                forall|t: int| 0 <= t < j ==> es[t].0 != key,
            decreases self.links@.len() - j,
        {
            if bytes_equal(&self.links[j].content, content) && self.links[j].site == *site {
                assert(es[j as int].0 == key);
                proof {
                    lemma_rows_dom(es, key);
                }
                return;
            }
            j = j + 1;
        }
        let l = ButtonLink { content: copy_bytes(content), site: copy_string(site), links_to: copy_opt(links_to) };
        proof {
            lemma_rows_dom(es, key);
            lemma_rows_push(es, link_entry(l));
        }
        self.links.push(l);
        assert(link_entries(self.links@) =~= es.push(link_entry(l)));
    }

    /// Writes what one crawl of a page found.
    pub fn record_page(&mut self, page: &PageRecord)
        requires
            old(self).wf(),
        ensures
            final(self).wf(),
            final(self)@ == after_record(old(self)@, *page),
    {
        let ghost start = self@;
        self.upsert_site(copy_site(&page.site));
        let ghost pb = page_buttons(*page);
        let ghost pl = page_links(*page);
        let mut i: usize = 0;
        while i < page.buttons.len()
            invariant
                0 <= i <= page.buttons@.len(),
                self.wf(),
                pb == page_buttons(*page),
                pl == page_links(*page),
                self@.sites == start.sites.insert(site_entry(page.site).0, site_entry(page.site).1),
                self@.buttons == upsert_all(start.buttons, pb.take(i as int)),
                self@.links == insert_new_all(start.links, pl.take(i as int)),
            decreases page.buttons@.len() - i,
        {
            let b = &page.buttons[i];
            assert(pb.take(i + 1).drop_last() =~= pb.take(i as int));
            assert(pl.take(i + 1).drop_last() =~= pl.take(i as int));
            assert(pb[i as int] == button_entry(b.button));
            assert(pl[i as int] == ((b.button.content@, page.site.url@), opt_view(b.links_to)));
            self.upsert_button(copy_button(&b.button));
            self.link_button(&b.button.content, &page.site.url, &b.links_to);
            i = i + 1;
        }
        assert(pb.take(i as int) =~= pb);
        assert(pl.take(i as int) =~= pl);
    }
}

proof fn lemma_unique_rows_len<K, V>(s: Seq<(K, V)>)
    requires
        keys_unique(s),
    ensures
        upsert_all(Map::<K, V>::empty(), s).dom().len() == s.len(),
        upsert_all(Map::<K, V>::empty(), s).dom().finite(),
    decreases s.len(),
{
    if s.len() > 0 {
        let init = s.drop_last();
        assert(keys_unique(init));
        lemma_unique_rows_len(init);
        lemma_rows_dom(init, s.last().0);
        assert(!upsert_all(Map::<K, V>::empty(), init).dom().contains(s.last().0)) by {
            if upsert_all(Map::<K, V>::empty(), init).dom().contains(s.last().0) {
                let i = choose|i: int| 0 <= i < init.len() && #[trigger] init[i].0 == s.last().0;
                assert(s[i].0 != s[s.len() - 1].0);
            }
        }
    }
}

} // verus!
