use vstd::prelude::*;
use crate::text::{chars_equal, chars_of, equals_str, slice_chars, string_of};

verus! {

broadcast use vstd::string::group_string_axioms;

/// How many matches the nearest-neighbour query retrieves.
pub const NEIGHBOURS: usize = 1000;

/// How many sites a search returns at most.
pub const RESULT_LIMIT: usize = 50;

/// Scores are in units of 1e-7: a similarity in millionths times a weight in tenths.
pub const SCORE_THRESHOLD: i128 = 3000000;

/// One nearest-neighbour match: the site, the field type of the embedding, and the cosine
/// distance in millionths.
#[derive(Debug, Clone)]
pub struct Match {
    pub site: String,
    pub field_type: String,
    pub distance_micros: i32,
}

/// A site's fused relevance.
#[derive(Debug)]
pub struct RankedSite {
    pub site: String,
    /// Sum of the weighted similarities, in units of 1e-7.
    pub score: i128,
    /// How many distinct field types contributed.
    pub matched_types: usize,
}

pub type MatchView = (Seq<char>, Seq<char>, int);

pub type GroupView = (Seq<char>, int, Seq<Seq<char>>);

pub open spec fn match_views(v: Seq<Match>) -> Seq<MatchView> {
    v.map_values(|m: Match| (m.site@, m.field_type@, m.distance_micros as int))
}

/// The weight of a field type, in tenths: title 2.0, description 1.5, anything else 1.0.
pub open spec fn type_weight(t: Seq<char>) -> int {
    if t == "title"@ {
        20
    } else if t == "description"@ {
        15
    } else {
        10
    }
}

/// A match's similarity, one minus its distance, times its type's weight.
pub open spec fn weighted(m: MatchView) -> int {
    (1000000 - m.2) * type_weight(m.1)
}

pub open spec fn group_index(gs: Seq<GroupView>, site: Seq<char>) -> int
    decreases gs.len(),
{
    if gs.len() == 0 {
        -1
    } else if group_index(gs.drop_last(), site) >= 0 {
        group_index(gs.drop_last(), site)
    } else if gs.last().0 == site {
        gs.len() - 1
    } else {
        -1
    }
}

/// Adds one match to its site's group: the weighted similarity to the total, the field type
/// to the site's distinct types.
pub open spec fn add_match(gs: Seq<GroupView>, m: MatchView) -> Seq<GroupView> {
    let j = group_index(gs, m.0);
    if j < 0 {
        gs.push((m.0, weighted(m), seq![m.1]))
    } else {
        let g = gs[j];
        gs.update(j, (g.0, g.1 + weighted(m), if g.2.contains(m.1) { g.2 } else { g.2.push(m.1) }))
    }
}

/// The matches grouped by site, in order of each site's first match.
pub open spec fn group_matches(ms: Seq<MatchView>) -> Seq<GroupView>
    decreases ms.len(),
{
    if ms.len() == 0 {
        seq![]
    } else {
        add_match(group_matches(ms.drop_last()), ms.last())
    }
}

pub open spec fn eligible(gs: Seq<GroupView>, chosen: Seq<int>, i: int) -> bool {
    gs[i].1 >= SCORE_THRESHOLD && !chosen.contains(i)
}

/// The highest-scoring group among the first `n` that reaches the threshold and is not yet
/// chosen, the earlier one on a tie; -1 if there is none.
pub open spec fn best_group(gs: Seq<GroupView>, chosen: Seq<int>, n: int) -> int
    decreases n,
{
    if n <= 0 {
        -1
    } else {
        let k = best_group(gs, chosen, n - 1);
        if eligible(gs, chosen, n - 1) && (k < 0 || gs[n - 1].1 > gs[k].1) {
            n - 1
        } else {
            k
        }
    }
}

/// Up to `k` group indices, by descending score.
pub open spec fn ranking(gs: Seq<GroupView>, k: nat) -> Seq<int>
    decreases k,
{
    if k == 0 {
        seq![]
    } else {
        let prev = ranking(gs, (k - 1) as nat);
        let b = best_group(gs, prev, gs.len() as int);
        if b < 0 {
            prev
        } else {
            prev.push(b)
        }
    }
}

/// The search result: sites whose fused score reaches 0.3, best first, at most 50.
pub open spec fn ranked_sites(ms: Seq<MatchView>) -> Seq<(Seq<char>, int, nat)> {
    let gs = group_matches(ms);
    ranking(gs, RESULT_LIMIT as nat).map_values(|i: int| (gs[i].0, gs[i].1, gs[i].2.len()))
}

pub open spec fn ranked_views(v: Seq<RankedSite>) -> Seq<(Seq<char>, int, nat)> {
    v.map_values(|r: RankedSite| (r.site@, r.score as int, r.matched_types as nat))
}

proof fn lemma_best_group_range(gs: Seq<GroupView>, chosen: Seq<int>, n: int)
    requires
        0 <= n <= gs.len(),
    ensures
        -1 <= best_group(gs, chosen, n) < n,
        best_group(gs, chosen, n) >= 0 ==> eligible(gs, chosen, best_group(gs, chosen, n)),
    decreases n,
{
    if n > 0 {
        lemma_best_group_range(gs, chosen, n - 1);
    }
}

proof fn lemma_ranking_range(gs: Seq<GroupView>, k: nat)
    ensures
        forall|t: int| 0 <= t < ranking(gs, k).len() ==> 0 <= #[trigger] ranking(gs, k)[t] < gs.len(),
        ranking(gs, k).len() <= k,
    decreases k,
{
    if k > 0 {
        lemma_ranking_range(gs, (k - 1) as nat);
        lemma_best_group_range(gs, ranking(gs, (k - 1) as nat), gs.len() as int);
    }
}

proof fn lemma_group_index(gs: Seq<GroupView>, site: Seq<char>)
    ensures
        -1 <= group_index(gs, site) < gs.len(),
        group_index(gs, site) >= 0 ==> gs[group_index(gs, site)].0 == site,
        group_index(gs, site) < 0 ==> forall|t: int| 0 <= t < gs.len() ==> #[trigger] gs[t].0 != site,
        group_index(gs, site) >= 0 ==> forall|t: int| 0 <= t < group_index(gs, site) ==> #[trigger] gs[t].0 != site,
    decreases gs.len(),
{
    if gs.len() > 0 {
        lemma_group_index(gs.drop_last(), site);
        assert forall|t: int| 0 <= t < gs.len() - 1 implies gs[t] == gs.drop_last()[t] by {}
    }
}

/// A group under construction.
struct Group {
    site: Vec<char>,
    total: i128,
    types: Vec<Vec<char>>,
}

spec fn group_view(g: Group) -> GroupView {
    (g.site@, g.total as int, g.types@.map_values(|t: Vec<char>| t@))
}

spec fn groups_view(v: Seq<Group>) -> Seq<GroupView> {
    v.map_values(|g: Group| group_view(g))
}

fn weight_of(t: &Vec<char>) -> (w: i128)
    ensures
        w == type_weight(t@),
{
    if equals_str(t, "title") {
        20
    } else if equals_str(t, "description") {
        15
    } else {
        10
    }
}

fn find_group(gs: &Vec<Group>, site: &Vec<char>) -> (r: Option<usize>)
    ensures
        match r {
            Some(j) => j as int == group_index(groups_view(gs@), site@) && j < gs@.len(),
            None => group_index(groups_view(gs@), site@) < 0,
        },
{
    let ghost gv = groups_view(gs@);
    proof {
        lemma_group_index(gv, site@);
    }
    let mut j: usize = 0;
    while j < gs.len()
        invariant
            0 <= j <= gs@.len(),
            gv == groups_view(gs@),
            -1 <= group_index(gv, site@) < gv.len(),
            group_index(gv, site@) >= 0 ==> gv[group_index(gv, site@)].0 == site@,
            group_index(gv, site@) >= 0 ==> forall|t: int| 0 <= t < group_index(gv, site@) ==> #[trigger] gv[t].0 != site@,
            group_index(gv, site@) < 0 ==> forall|t: int| 0 <= t < gv.len() ==> #[trigger] gv[t].0 != site@,
            forall|t: int| 0 <= t < j ==> #[trigger] gv[t].0 != site@,
        decreases gs@.len() - j,
    {
        assert(gv[j as int].0 == gs@[j as int].site@);
        if chars_equal(&gs[j].site, site) {
            return Some(j);
        }
        j = j + 1;
    }
    None
}

fn contains_type(types: &Vec<Vec<char>>, t: &Vec<char>) -> (r: bool)
    ensures
        r == types@.map_values(|t: Vec<char>| t@).contains(t@),
{
    let ghost tv = types@.map_values(|t: Vec<char>| t@);
    let mut i: usize = 0;
    while i < types.len()
        invariant
            0 <= i <= types@.len(),
            tv == types@.map_values(|t: Vec<char>| t@),
            forall|k: int| 0 <= k < i ==> tv[k] != t@,
        decreases types@.len() - i,
    {
        assert(tv[i as int] == types@[i as int]@);
        if chars_equal(&types[i], t) {
            assert(tv.contains(t@));
            return true;
        }
        i = i + 1;
    }
    assert(!tv.contains(t@)) by {
        if tv.contains(t@) {
            let k = choose|k: int| 0 <= k < tv.len() && tv[k] == t@;
            assert(tv.len() == types@.len());
        }
    }
    false
}

fn copy_chars(v: &Vec<char>) -> (r: Vec<char>)
    ensures
        r@ == v@,
{
    let r = slice_chars(v, 0, v.len());
    assert(r@ =~= v@);
    r
}

/// Bound on one weighted similarity in absolute value.
spec fn weighted_bound() -> int {
    42969672960
}

fn group_all(matches: &Vec<Match>) -> (gs: Vec<Group>)
    ensures
        groups_view(gs@) == group_matches(match_views(matches@)),
{
    let ghost mv = match_views(matches@);
    let mut gs: Vec<Group> = Vec::new();
    let mut k: usize = 0;
    while k < matches.len()
        invariant
            0 <= k <= matches@.len(),
            mv == match_views(matches@),
            groups_view(gs@) == group_matches(mv.take(k as int)),
            forall|i: int| 0 <= i < gs@.len() ==> -(k * weighted_bound()) <= #[trigger] gs@[i].total <= k * weighted_bound(),
        decreases matches@.len() - k,
    {
        let m = &matches[k];
        let site = chars_of(m.site.as_str());
        let ftype = chars_of(m.field_type.as_str());
        let ghost mk: MatchView = (site@, ftype@, m.distance_micros as int);
        assert(mv.take(k + 1).drop_last() =~= mv.take(k as int));
        assert(mv.take(k + 1).last() == mk);
        let w = weight_of(&ftype);
        let value: i128 = (1000000i128 - m.distance_micros as i128) * w;
        assert(value == weighted(mk));
        let ghost before = groups_view(gs@);
        match find_group(&gs, &site) {
            Some(j) => {
                let known = contains_type(&gs[j].types, &ftype);
                let old_total = gs[j].total;
                let mut g = Group { site: copy_chars(&gs[j].site), total: old_total + value, types: Vec::new() };
                let mut t: usize = 0;
                while t < gs[j].types.len()
                    invariant
                        0 <= t <= gs@[j as int].types@.len(),
                        j < gs@.len(),
                        g.site@ == gs@[j as int].site@,
                        g.total == old_total + value,
                        g.types@.map_values(|t: Vec<char>| t@) == gs@[j as int].types@.map_values(|t: Vec<char>| t@).take(t as int),
                    decreases gs@[j as int].types@.len() - t,
                {
                    let ghost tb = g.types@;
                    let c = copy_chars(&gs[j].types[t]);
                    g.types.push(c);
                    assert(g.types@.map_values(|t: Vec<char>| t@) =~= tb.map_values(|t: Vec<char>| t@).push(c@));
                    assert(gs@[j as int].types@.map_values(|t: Vec<char>| t@).take(t + 1) =~= gs@[j as int].types@.map_values(|t: Vec<char>| t@).take(t as int).push(gs@[j as int].types@[t as int]@));
                    assert(g.types@.map_values(|t: Vec<char>| t@) =~= gs@[j as int].types@.map_values(|t: Vec<char>| t@).take(t + 1));
                    t = t + 1;
                }
                assert(gs@[j as int].types@.map_values(|t: Vec<char>| t@).take(t as int) =~= gs@[j as int].types@.map_values(|t: Vec<char>| t@));
                if !known {
                    let ghost tb = g.types@;
                    g.types.push(copy_chars(&ftype));
                    assert(g.types@.map_values(|t: Vec<char>| t@) =~= tb.map_values(|t: Vec<char>| t@).push(ftype@));
                }
                gs.set(j, g);
                assert(groups_view(gs@) =~= add_match(before, mk));
            },
            None => {
                let mut types: Vec<Vec<char>> = Vec::new();
                types.push(copy_chars(&ftype));
                assert(types@.map_values(|t: Vec<char>| t@) =~= seq![ftype@]);
                gs.push(Group { site: copy_chars(&site), total: value, types });
                assert(groups_view(gs@) =~= add_match(before, mk));
            },
        }
        k = k + 1;
    }
    assert(mv.take(k as int) =~= mv);
    gs
}

fn best_group_exec(gs: &Vec<Group>, chosen: &Vec<usize>) -> (b: Option<usize>)
    ensures
        match b {
            Some(i) => i as int == best_group(groups_view(gs@), chosen@.map_values(|x: usize| x as int), gs@.len() as int),
            None => best_group(groups_view(gs@), chosen@.map_values(|x: usize| x as int), gs@.len() as int) < 0,
        },
{
    let ghost gv = groups_view(gs@);
    let ghost chv = chosen@.map_values(|x: usize| x as int);
    let mut best: Option<usize> = None;
    let mut j: usize = 0;
    while j < gs.len()
        invariant
            0 <= j <= gs@.len(),
            gv == groups_view(gs@),
            chv == chosen@.map_values(|x: usize| x as int),
            match best {
                Some(i) => i < j && i as int == best_group(gv, chv, j as int),
                None => best_group(gv, chv, j as int) < 0,
            },
        decreases gs@.len() - j,
    {
        proof {
            lemma_best_group_range(gv, chv, j as int);
        }
        assert(gv[j as int].1 == gs@[j as int].total);
        let mut taken = false;
        let mut c: usize = 0;
        while c < chosen.len()
            invariant
                0 <= c <= chosen@.len(),
                chv == chosen@.map_values(|x: usize| x as int),
                taken ==> chv.contains(j as int),
                !taken ==> forall|t: int| 0 <= t < c ==> chv[t] != j as int,
            decreases chosen@.len() - c,
        {
            if chosen[c] == j {
                assert(chv[c as int] == j as int);
                taken = true;
            }
            c = c + 1;
        }
        if gs[j].total >= SCORE_THRESHOLD && !taken {
            match best {
                Some(i) => {
                    assert(gv[i as int].1 == gs@[i as int].total);
                    if gs[j].total > gs[i].total {
                        best = Some(j);
                    }
                },
                None => {
                    best = Some(j);
                },
            }
        }
        j = j + 1;
    }
    best
}

/// Fuses nearest-neighbour matches into per-site scores: each similarity is weighted by its
/// field type, summed per site with the count of distinct types; sites under 0.3 are dropped,
/// the rest ordered best first (the site matched earlier first on a tie), at most 50.
pub fn rank_matches(matches: &Vec<Match>) -> (r: Vec<RankedSite>)
    ensures
        ranked_views(r@) == ranked_sites(match_views(matches@)),
{
    let gs = group_all(matches);
    let ghost gv = groups_view(gs@);
    let mut sel: Vec<usize> = Vec::new();
    let mut k: usize = 0;
    while k < RESULT_LIMIT
        invariant
            0 <= k <= RESULT_LIMIT,
            gv == groups_view(gs@),
            sel@.map_values(|x: usize| x as int) == ranking(gv, k as nat),
        decreases RESULT_LIMIT - k,
    {
        match best_group_exec(&gs, &sel) {
            Some(i) => {
                let ghost before = sel@;
                sel.push(i);
                assert(sel@.map_values(|x: usize| x as int) =~= before.map_values(|x: usize| x as int).push(i as int));
            },
            None => {},
        }
        k = k + 1;
    }
    let ghost top = ranking(gv, RESULT_LIMIT as nat);
    proof {
        lemma_ranking_range(gv, RESULT_LIMIT as nat);
    }
    let mut out: Vec<RankedSite> = Vec::new();
    let mut t: usize = 0;
    while t < sel.len()
        invariant
            0 <= t <= sel@.len(),
            gv == groups_view(gs@),
            sel@.map_values(|x: usize| x as int) == top,
            forall|q: int| 0 <= q < top.len() ==> 0 <= #[trigger] top[q] < gv.len(),
            ranked_views(out@) == top.take(t as int).map_values(|i: int| (gv[i].0, gv[i].1, gv[i].2.len())),
        decreases sel@.len() - t,
    {
        let i = sel[t];
        assert(top[t as int] == i as int);
        let g = &gs[i];
        assert(gv[i as int] == group_view(gs@[i as int]));
        let item = RankedSite { site: string_of(&g.site), score: g.total, matched_types: g.types.len() };
        let ghost before = out@;
        out.push(item);
        assert(ranked_views(out@) =~= ranked_views(before).push((gv[i as int].0, gv[i as int].1, gv[i as int].2.len())));
        assert(top.take(t + 1) =~= top.take(t as int).push(i as int));
        assert(ranked_views(out@) =~= top.take(t + 1).map_values(|i: int| (gv[i].0, gv[i].1, gv[i].2.len())));
        t = t + 1;
    }
    assert(top.take(t as int) =~= top);
    out
}


proof fn lemma_best_group_is_max(gs: Seq<GroupView>, chosen: Seq<int>, n: int, i: int)
    requires
        0 <= i < n <= gs.len(),
        eligible(gs, chosen, i),
    ensures
        best_group(gs, chosen, n) >= 0,
        gs[i].1 <= gs[best_group(gs, chosen, n)].1,
    decreases n,
{
    lemma_best_group_range(gs, chosen, n);
    if i < n - 1 {
        lemma_best_group_is_max(gs, chosen, n - 1, i);
        lemma_best_group_range(gs, chosen, n - 1);
    } else if n > 1 {
        lemma_best_group_range(gs, chosen, n - 1);
    }
}

proof fn lemma_ranking_prefix(gs: Seq<GroupView>, k: nat, j: nat)
    requires
        j <= k,
    ensures
        ranking(gs, j).len() <= ranking(gs, k).len(),
        forall|t: int| 0 <= t < ranking(gs, j).len() ==> #[trigger] ranking(gs, k)[t] == ranking(gs, j)[t],
    decreases k,
{
    if j < k {
        lemma_ranking_prefix(gs, (k - 1) as nat, j);
    }
}

proof fn lemma_ranking_ordered(gs: Seq<GroupView>, k: nat)
    ensures
        forall|t: int|
            0 <= t < ranking(gs, k).len() ==> #[trigger] gs[ranking(gs, k)[t]].1 >= SCORE_THRESHOLD,
        forall|a: int, b: int|
            0 <= a < b < ranking(gs, k).len() ==> gs[ranking(gs, k)[a]].1 >= gs[ranking(gs, k)[b]].1,
        forall|a: int, b: int|
            0 <= a < b < ranking(gs, k).len() ==> ranking(gs, k)[a] != ranking(gs, k)[b],
    decreases k,
{
    if k > 0 {
        let prev = ranking(gs, (k - 1) as nat);
        lemma_ranking_ordered(gs, (k - 1) as nat);
        lemma_ranking_range(gs, (k - 1) as nat);
        let b = best_group(gs, prev, gs.len() as int);
        lemma_best_group_range(gs, prev, gs.len() as int);
        if b >= 0 {
            let cur = prev.push(b);
            assert(!prev.contains(b));
            assert forall|a: int| 0 <= a < prev.len() implies gs[prev[a]].1 >= gs[b].1 by {
                if a == prev.len() - 1 && (k - 1) as nat > 0 {
                    let pp = ranking(gs, (k - 2) as nat);
                    lemma_ranking_range(gs, (k - 2) as nat);
                    lemma_ranking_prefix(gs, (k - 1) as nat, (k - 2) as nat);
                    assert(prev == pp.push(prev[a])) by {
                        assert(prev =~= pp.push(best_group(gs, pp, gs.len() as int)));
                    }
                    assert(!pp.contains(b)) by {
                        if pp.contains(b) {
                            let q = choose|q: int| 0 <= q < pp.len() && pp[q] == b;
                            assert(prev[q] == b);
                        }
                    }
                    lemma_best_group_is_max(gs, pp, gs.len() as int, b);
                } else {
                    let q = prev.len() - 1;
                    assert(a < q);
                    let pp = ranking(gs, (k - 2) as nat);
                    lemma_ranking_range(gs, (k - 2) as nat);
                    assert(prev =~= pp.push(best_group(gs, pp, gs.len() as int)));
                    assert(!pp.contains(b)) by {
                        if pp.contains(b) {
                            let r = choose|r: int| 0 <= r < pp.len() && pp[r] == b;
                            assert(prev[r] == b);
                        }
                    }
                    lemma_best_group_is_max(gs, pp, gs.len() as int, b);
                    assert(gs[prev[a]].1 >= gs[prev[q]].1);
                }
            }
        }
    }
}

/// Every site in a search result reaches the 0.3 threshold, at most 50 are returned, and
/// they come in order of non-increasing score.
pub proof fn lemma_ranked_sites_ordered(ms: Seq<MatchView>)
    ensures
        ranked_sites(ms).len() <= RESULT_LIMIT,
        forall|t: int| 0 <= t < ranked_sites(ms).len() ==> #[trigger] ranked_sites(ms)[t].1 >= SCORE_THRESHOLD,
        forall|a: int, b: int|
            0 <= a < b < ranked_sites(ms).len() ==> ranked_sites(ms)[a].1 >= ranked_sites(ms)[b].1,
{
    let gs = group_matches(ms);
    lemma_ranking_ordered(gs, RESULT_LIMIT as nat);
    lemma_ranking_range(gs, RESULT_LIMIT as nat);
    let top = ranking(gs, RESULT_LIMIT as nat);
    assert forall|t: int| 0 <= t < ranked_sites(ms).len() implies #[trigger] ranked_sites(ms)[t].1 >= SCORE_THRESHOLD by {
        assert(ranked_sites(ms)[t].1 == gs[top[t]].1);
    }
    assert forall|a: int, b: int| 0 <= a < b < ranked_sites(ms).len() implies ranked_sites(ms)[a].1 >= ranked_sites(ms)[b].1 by {
        assert(ranked_sites(ms)[a].1 == gs[top[a]].1);
        assert(ranked_sites(ms)[b].1 == gs[top[b]].1);
    }
}

} // verus!
