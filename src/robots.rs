use vstd::prelude::*;
use crate::text::{
    append_chars,
    chars_of,
    equals_str,
    has_prefix,
    lower_of,
    lowercase,
    push_str,
    slice_chars,
    starts_with_str,
    string_of,
    trim_white_space,
    trim_ws,
    utf8_len,
    utf8_len_exceeds,
};

verus! {

broadcast use vstd::string::group_string_axioms;

/// The name this crawler gives as its user agent.
pub const CRAWLER_AGENT: &'static str = "indieseas";

/// robots.txt bodies longer than this many bytes are ignored as malformed.
pub const MAX_ROBOTS_BYTES: usize = 5000;

/// One group of robots.txt rules: a user agent with its Allow and Disallow paths.
#[derive(Debug, Clone)]
pub struct RobotsRule {
    pub user_agent: String,
    pub allowed_paths: Vec<String>,
    pub disallowed_paths: Vec<String>,
}

/// The allowed and disallowed URL prefixes that apply to this crawler on one origin.
#[derive(Debug)]
pub struct RobotsResult {
    pub allowed: Vec<String>,
    pub disallowed: Vec<String>,
}

/// The URL prefixes that apply to one user agent.
#[derive(Debug, Clone)]
pub struct PathResult {
    pub allowed: Vec<String>,
    pub disallowed: Vec<String>,
}

pub type RuleView = (Seq<char>, Seq<Seq<char>>, Seq<Seq<char>>);

pub open spec fn strings_view(v: Seq<String>) -> Seq<Seq<char>> {
    v.map_values(|s: String| s@)
}

pub open spec fn rule_view(r: RobotsRule) -> RuleView {
    (r.user_agent@, strings_view(r.allowed_paths@), strings_view(r.disallowed_paths@))
}

pub open spec fn rules_view(v: Seq<RobotsRule>) -> Seq<RuleView> {
    v.map_values(|r: RobotsRule| rule_view(r))
}

/// The first index at or after `i` holding `c`, or the length.
pub open spec fn index_of_from(s: Seq<char>, c: char, i: int) -> int
    decreases s.len() - i,
{
    if i >= s.len() {
        s.len() as int
    } else if s[i] == c {
        i
    } else {
        index_of_from(s, c, i + 1)
    }
}

/// The pieces of `s` between `\n` characters.
pub open spec fn split_lines(s: Seq<char>) -> Seq<Seq<char>>
    decreases s.len(),
{
    if s.len() == 0 {
        seq![seq![]]
    } else {
        let prev = split_lines(s.drop_last());
        if s.last() == '\n' {
            prev.push(seq![])
        } else {
            prev.update(prev.len() - 1, prev.last().push(s.last()))
        }
    }
}

/// A line with its comment cut off, trimmed and lower-cased.
pub open spec fn clean_line(line: Seq<char>) -> Seq<char> {
    lower_of(trim_ws(line.take(index_of_from(line, '#', 0))))
}

pub open spec fn close_group(rules: Seq<RuleView>, cur: Option<RuleView>) -> Seq<RuleView> {
    match cur {
        Some(r) => rules.push(r),
        None => rules,
    }
}

/// One line of robots.txt applied to the groups read so far and the group being read.
pub open spec fn parse_step(st: (Seq<RuleView>, Option<RuleView>), line: Seq<char>) -> (Seq<RuleView>, Option<RuleView>) {
    let l = clean_line(line);
    let (rules, cur) = st;
    if l.len() == 0 {
        st
    } else if has_prefix(l, "user-agent:"@) {
        let ua = trim_ws(l.skip(11));
        if cur matches Some(r) && r.0 == ua {
            st
        } else {
            (close_group(rules, cur), Some((ua, seq![], seq![])))
        }
    } else if has_prefix(l, "allow:"@) {
        let p = trim_ws(l.skip(6));
        if p.len() == 0 {
            st
        } else {
            match cur {
                Some(r) => (rules, Some((r.0, r.1.push(p), r.2))),
                None => (rules, Some(("*"@, seq![p], seq![]))),
            }
        }
    } else if has_prefix(l, "disallow:"@) {
        let p = trim_ws(l.skip(9));
        if p.len() == 0 {
            st
        } else {
            match cur {
                Some(r) => (rules, Some((r.0, r.1, r.2.push(p)))),
                None => (rules, Some(("*"@, seq![], seq![p]))),
            }
        }
    } else {
        st
    }
}

pub open spec fn parse_lines(lines: Seq<Seq<char>>) -> (Seq<RuleView>, Option<RuleView>)
    decreases lines.len(),
{
    if lines.len() == 0 {
        (seq![], None)
    } else {
        parse_step(parse_lines(lines.drop_last()), lines.last())
    }
}

/// The groups of a robots.txt body, in order. A `User-agent:` line opens a group unless it
/// names the agent of the group being read; Allow and Disallow lines before any group open a
/// `*` group; other lines are ignored.
pub open spec fn parse_robots(content: Seq<char>) -> Seq<RuleView> {
    let (rules, cur) = parse_lines(split_lines(content));
    close_group(rules, cur)
}

fn split_lines_exec(s: &Vec<char>) -> (r: Vec<Vec<char>>)
    ensures
        r@.map_values(|v: Vec<char>| v@) == split_lines(s@),
{
    let mut lines: Vec<Vec<char>> = Vec::new();
    let mut cur: Vec<char> = Vec::new();
    let mut k: usize = 0;
    assert(split_lines(s@.take(0)) =~= seq![seq![]]);
    while k < s.len()
        invariant
            0 <= k <= s@.len(),
            lines@.map_values(|v: Vec<char>| v@).push(cur@) == split_lines(s@.take(k as int)),
        decreases s@.len() - k,
    {
        let c = s[k];
        assert(s@.take(k + 1).drop_last() =~= s@.take(k as int));
        let ghost prev = split_lines(s@.take(k as int));
        if c == '\n' {
            let ghost lv = lines@.map_values(|v: Vec<char>| v@);
            let done = slice_chars(&cur, 0, cur.len());
            assert(done@ =~= cur@);
            lines.push(done);
            cur = Vec::new();
            assert(lines@.map_values(|v: Vec<char>| v@) =~= lv.push(done@));
            assert(lines@.map_values(|v: Vec<char>| v@).push(cur@) =~= prev.push(seq![]));
        } else {
            let ghost lv = lines@.map_values(|v: Vec<char>| v@);
            cur.push(c);
            assert(lv.push(cur@) =~= prev.update(prev.len() - 1, prev.last().push(c)));
        }
        k = k + 1;
    }
    assert(s@.take(k as int) =~= s@);
    let ghost lv = lines@.map_values(|v: Vec<char>| v@);
    lines.push(cur);
    assert(lines@.map_values(|v: Vec<char>| v@) =~= lv.push(cur@));
    lines
}

fn cut_comment(line: &Vec<char>) -> (r: Vec<char>)
    ensures
        r@ == line@.take(index_of_from(line@, '#', 0)),
{
    let mut i: usize = 0;
    while i < line.len() && line[i] != '#'
        invariant
            0 <= i <= line@.len(),
            index_of_from(line@, '#', 0) == index_of_from(line@, '#', i as int),
        decreases line@.len() - i,
    {
        i = i + 1;
    }
    let r = slice_chars(line, 0, i);
    assert(r@ =~= line@.take(i as int));
    r
}

fn clean_line_exec(line: &Vec<char>) -> (r: Vec<char>)
    ensures
        r@ == clean_line(line@),
{
    let t = trim_white_space(&cut_comment(line));
    let lowered = lowercase(string_of(&t).as_str());
    chars_of(lowered.as_str())
}

fn copy_chars(v: &Vec<char>) -> (r: Vec<char>)
    ensures
        r@ == v@,
{
    let r = slice_chars(v, 0, v.len());
    assert(r@ =~= v@);
    r
}

fn copy_strings(v: &Vec<String>) -> (r: Vec<String>)
    ensures
        strings_view(r@) == strings_view(v@),
{
    let mut r: Vec<String> = Vec::new();
    let mut k: usize = 0;
    while k < v.len()
        invariant
            0 <= k <= v@.len(),
            strings_view(r@) == strings_view(v@).take(k as int),
        decreases v@.len() - k,
    {
        let ghost before = r@;
        r.push(v[k].as_str().to_owned());
        assert(strings_view(r@) =~= strings_view(before).push(v@[k as int]@));
        assert(strings_view(v@).take(k + 1) =~= strings_view(v@).take(k as int).push(v@[k as int]@));
        k = k + 1;
    }
    assert(strings_view(v@).take(k as int) =~= strings_view(v@));
    r
}

fn copy_rule(r: &RobotsRule) -> (c: RobotsRule)
    ensures
        rule_view(c) == rule_view(*r),
{
    RobotsRule {
        user_agent: r.user_agent.as_str().to_owned(),
        allowed_paths: copy_strings(&r.allowed_paths),
        disallowed_paths: copy_strings(&r.disallowed_paths),
    }
}

pub open spec fn opt_rule_view(r: Option<RobotsRule>) -> Option<RuleView> {
    match r {
        Some(x) => Some(rule_view(x)),
        None => None,
    }
}

fn no_strings() -> (v: Vec<String>)
    ensures
        strings_view(v@) == Seq::<Seq<char>>::empty(),
{
    let v: Vec<String> = Vec::new();
    assert(strings_view(v@) =~= Seq::<Seq<char>>::empty());
    v
}

fn one_string(p: &Vec<char>) -> (v: Vec<String>)
    ensures
        strings_view(v@) == seq![p@],
{
    let mut v: Vec<String> = Vec::new();
    v.push(string_of(p));
    assert(strings_view(v@) =~= seq![p@]);
    v
}

fn push_string(v: &mut Vec<String>, p: &Vec<char>)
    ensures
        strings_view(final(v)@) == strings_view(old(v)@).push(p@),
{
    v.push(string_of(p));
    assert(strings_view(final(v)@) =~= strings_view(old(v)@).push(p@));
}

/// Reads a robots.txt body into its groups of rules.
pub fn parse_robots_txt(content: &str) -> (r: Vec<RobotsRule>)
    ensures
        rules_view(r@) == parse_robots(content@),
{
    let lines = split_lines_exec(&chars_of(content));
    let ghost lv = lines@.map_values(|v: Vec<char>| v@);
    let mut rules: Vec<RobotsRule> = Vec::new();
    let mut cur: Option<RobotsRule> = None;
    let mut k: usize = 0;
    while k < lines.len()
        invariant
            0 <= k <= lines@.len(),
            lv == lines@.map_values(|v: Vec<char>| v@),
            (rules_view(rules@), opt_rule_view(cur)) == parse_lines(lv.take(k as int)),
        decreases lines@.len() - k,
    {
        assert(lv.take(k + 1).drop_last() =~= lv.take(k as int));
        assert(lv.take(k + 1).last() == lines@[k as int]@);
        let l = clean_line_exec(&lines[k]);
        let ghost rv = rules_view(rules@);
        if l.len() == 0 {
        } else if starts_with_str(&l, "user-agent:") {
            proof {
                reveal_strlit("user-agent:");
            }
            let tail = slice_chars(&l, 11, l.len());
            assert(tail@ =~= l@.skip(11));
            let ua = trim_white_space(&tail);
            let same = match &cur {
                Some(r) => equals_str(&ua, r.user_agent.as_str()),
                None => false,
            };
            if !same {
                match cur {
                    Some(r) => {
                        rules.push(r);
                        assert(rules_view(rules@) =~= rv.push(rule_view(r)));
                    },
                    None => {},
                }
                cur = Some(RobotsRule { user_agent: string_of(&ua), allowed_paths: no_strings(), disallowed_paths: no_strings() });
            }
        } else if starts_with_str(&l, "allow:") {
            proof {
                reveal_strlit("allow:");
            }
            let tail = slice_chars(&l, 6, l.len());
            assert(tail@ =~= l@.skip(6));
            let p = trim_white_space(&tail);
            if p.len() > 0 {
                match cur {
                    Some(r) => {
                        let mut r2 = r;
                        push_string(&mut r2.allowed_paths, &p);
                        cur = Some(r2);
                    },
                    None => {
                        cur = Some(RobotsRule { user_agent: "*".to_owned(), allowed_paths: one_string(&p), disallowed_paths: no_strings() });
                            },
                }
            }
        } else if starts_with_str(&l, "disallow:") {
            proof {
                reveal_strlit("disallow:");
            }
            let tail = slice_chars(&l, 9, l.len());
            assert(tail@ =~= l@.skip(9));
            let p = trim_white_space(&tail);
            if p.len() > 0 {
                match cur {
                    Some(r) => {
                        let mut r2 = r;
                        push_string(&mut r2.disallowed_paths, &p);
                        cur = Some(r2);
                    },
                    None => {
                        cur = Some(RobotsRule { user_agent: "*".to_owned(), allowed_paths: no_strings(), disallowed_paths: one_string(&p) });
                            },
                }
            }
        }
        k = k + 1;
    }
    assert(lv.take(k as int) =~= lv);
    let ghost rv = rules_view(rules@);
    match cur {
        Some(r) => {
            rules.push(r);
            assert(rules_view(rules@) =~= rv.push(rule_view(r)));
        },
        None => {},
    }
    rules
}


pub open spec fn remove_stars(p: Seq<char>) -> Seq<char>
    decreases p.len(),
{
    if p.len() == 0 {
        seq![]
    } else if p.last() == '*' {
        remove_stars(p.drop_last())
    } else {
        remove_stars(p.drop_last()).push(p.last())
    }
}

/// A rule path with its `*` wildcards removed and a leading `/` ensured.
pub open spec fn normalize_path(p: Seq<char>) -> Seq<char> {
    let q = remove_stars(p);
    if has_prefix(q, "/"@) {
        q
    } else {
        seq!['/'] + q
    }
}

pub open spec fn prefixed(base: Seq<char>, ps: Seq<Seq<char>>) -> Seq<Seq<char>>
    decreases ps.len(),
{
    if ps.len() == 0 {
        seq![]
    } else {
        prefixed(base, ps.drop_last()).push(base + normalize_path(ps.last()))
    }
}

/// The groups addressed to `ua`, in order.
pub open spec fn groups_for(rules: Seq<RuleView>, ua: Seq<char>) -> Seq<RuleView>
    decreases rules.len(),
{
    if rules.len() == 0 {
        seq![]
    } else if rules.last().0 == ua {
        groups_for(rules.drop_last(), ua).push(rules.last())
    } else {
        groups_for(rules.drop_last(), ua)
    }
}

/// The groups that apply to `ua`: its own, or else those of `*`.
pub open spec fn applicable_groups(rules: Seq<RuleView>, ua: Seq<char>) -> Seq<RuleView> {
    if groups_for(rules, ua).len() > 0 {
        groups_for(rules, ua)
    } else {
        groups_for(rules, "*"@)
    }
}

pub open spec fn root_of(base: Seq<char>) -> Seq<char> {
    base + "/"@
}

/// Allowed and disallowed URL prefixes from a list of groups: a group without Disallow lines
/// allows the whole origin.
pub open spec fn group_paths(groups: Seq<RuleView>, base: Seq<char>) -> (Seq<Seq<char>>, Seq<Seq<char>>)
    decreases groups.len(),
{
    if groups.len() == 0 {
        (seq![], seq![])
    } else {
        let (a, d) = group_paths(groups.drop_last(), base);
        let g = groups.last();
        if g.2.len() == 0 {
            (a.push(root_of(base)), d)
        } else {
            (a + prefixed(base, g.1), d + prefixed(base, g.2))
        }
    }
}

/// The prefixes for one (already lower-cased) agent; with no group at all, or with nothing
/// allowed and the root not disallowed, the root is allowed.
pub open spec fn agent_paths(rules: Seq<RuleView>, ua: Seq<char>, base: Seq<char>) -> (Seq<Seq<char>>, Seq<Seq<char>>) {
    let app = applicable_groups(rules, ua);
    if app.len() == 0 {
        (seq![root_of(base)], seq![])
    } else {
        let (a, d) = group_paths(app, base);
        if a.len() == 0 && !d.contains(root_of(base)) {
            (a.push(root_of(base)), d)
        } else {
            (a, d)
        }
    }
}

pub open spec fn path_result_view(p: PathResult) -> (Seq<Seq<char>>, Seq<Seq<char>>) {
    (strings_view(p.allowed@), strings_view(p.disallowed@))
}

fn remove_stars_exec(p: &Vec<char>) -> (r: Vec<char>)
    ensures
        r@ == remove_stars(p@),
{
    let mut r: Vec<char> = Vec::new();
    let mut k: usize = 0;
    while k < p.len()
        invariant
            0 <= k <= p@.len(),
            r@ == remove_stars(p@.take(k as int)),
        decreases p@.len() - k,
    {
        assert(p@.take(k + 1).drop_last() =~= p@.take(k as int));
        if p[k] != '*' {
            r.push(p[k]);
        }
        k = k + 1;
    }
    assert(p@.take(k as int) =~= p@);
    r
}

fn prefixed_path(base: &Vec<char>, p: &Vec<char>) -> (r: String)
    ensures
        r@ == base@ + normalize_path(p@),
{
    let q = remove_stars_exec(p);
    let mut out = copy_chars(base);
    if !starts_with_str(&q, "/") {
        out.push('/');
    }
    append_chars(&mut out, &q);
    assert(out@ =~= base@ + normalize_path(p@));
    string_of(&out)
}

fn push_prefixed(out: &mut Vec<String>, base: &Vec<char>, ps: &Vec<String>)
    ensures
        strings_view(final(out)@) == strings_view(old(out)@) + prefixed(base@, strings_view(ps@)),
{
    let ghost start = strings_view(out@);
    let ghost pv = strings_view(ps@);
    let mut k: usize = 0;
    while k < ps.len()
        invariant
            0 <= k <= ps@.len(),
            pv == strings_view(ps@),
            strings_view(out@) == start + prefixed(base@, pv.take(k as int)),
        decreases ps@.len() - k,
    {
        assert(pv.take(k + 1).drop_last() =~= pv.take(k as int));
        assert(pv.take(k + 1).last() == ps@[k as int]@);
        let item = prefixed_path(base, &chars_of(ps[k].as_str()));
        let ghost before = strings_view(out@);
        out.push(item);
        assert(strings_view(out@) =~= before.push(item@));
        assert(strings_view(out@) =~= start + prefixed(base@, pv.take(k + 1)));
        k = k + 1;
    }
    assert(pv.take(k as int) =~= pv);
}

fn root_string(base: &Vec<char>) -> (r: String)
    ensures
        r@ == root_of(base@),
{
    let mut out = copy_chars(base);
    push_str(&mut out, "/");
    string_of(&out)
}

fn select_groups(rules: &[RobotsRule], ua: &Vec<char>) -> (r: Vec<RobotsRule>)
    ensures
        rules_view(r@) == groups_for(rules_view(rules@), ua@),
{
    let ghost rv = rules_view(rules@);
    let mut out: Vec<RobotsRule> = Vec::new();
    let mut k: usize = 0;
    while k < rules.len()
        invariant
            0 <= k <= rules@.len(),
            rv == rules_view(rules@),
            rules_view(out@) == groups_for(rv.take(k as int), ua@),
        decreases rules@.len() - k,
    {
        assert(rv.take(k + 1).drop_last() =~= rv.take(k as int));
        assert(rv.take(k + 1).last() == rule_view(rules@[k as int]));
        if equals_str(ua, rules[k].user_agent.as_str()) {
            let ghost before = rules_view(out@);
            out.push(copy_rule(&rules[k]));
            assert(rules_view(out@) =~= before.push(rule_view(rules@[k as int])));
        }
        k = k + 1;
    }
    assert(rv.take(k as int) =~= rv);
    out
}

fn contains_string(v: &Vec<String>, x: &String) -> (r: bool)
    ensures
        r == strings_view(v@).contains(x@),
{
    let ghost sv = strings_view(v@);
    let mut i: usize = 0;
    while i < v.len()
        invariant
            0 <= i <= v@.len(),
            sv == strings_view(v@),
            forall|t: int| 0 <= t < i ==> sv[t] != x@,
        decreases v@.len() - i,
    {
        assert(sv[i as int] == v@[i as int]@);
        if equals_str(&chars_of(v[i].as_str()), x.as_str()) {
            assert(sv.contains(x@));
            return true;
        }
        i = i + 1;
    }
    assert(!sv.contains(x@)) by {
        if sv.contains(x@) {
            let t = choose|t: int| 0 <= t < sv.len() && sv[t] == x@;
            assert(sv.len() == v@.len());
        }
    }
    false
}

/// The prefixes that apply to one agent, given in lower case.
fn paths_for_agent(rules: &[RobotsRule], ua: &Vec<char>, base: &Vec<char>) -> (r: PathResult)
    ensures
        path_result_view(r) == agent_paths(rules_view(rules@), ua@, base@),
{
    let specific = select_groups(rules, ua);
    let app = if specific.len() > 0 {
        specific
    } else {
        select_groups(rules, &chars_of("*"))
    };
    let ghost av = rules_view(app@);
    let mut allowed: Vec<String> = Vec::new();
    let mut disallowed: Vec<String> = Vec::new();
    if app.len() == 0 {
        allowed.push(root_string(base));
        assert(strings_view(allowed@) =~= seq![root_of(base@)]);
        assert(strings_view(disallowed@) =~= Seq::<Seq<char>>::empty());
        return PathResult { allowed, disallowed };
    }
    assert(strings_view(allowed@) =~= Seq::<Seq<char>>::empty());
    assert(strings_view(disallowed@) =~= Seq::<Seq<char>>::empty());
    let mut k: usize = 0;
    while k < app.len()
        invariant
            0 <= k <= app@.len(),
            av == rules_view(app@),
            (strings_view(allowed@), strings_view(disallowed@)) == group_paths(av.take(k as int), base@),
        decreases app@.len() - k,
    {
        assert(av.take(k + 1).drop_last() =~= av.take(k as int));
        assert(av.take(k + 1).last() == rule_view(app@[k as int]));
        if app[k].disallowed_paths.len() == 0 {
            let ghost before = strings_view(allowed@);
            allowed.push(root_string(base));
            assert(strings_view(allowed@) =~= before.push(root_of(base@)));
        } else {
            push_prefixed(&mut allowed, base, &app[k].allowed_paths);
            push_prefixed(&mut disallowed, base, &app[k].disallowed_paths);
        }
        k = k + 1;
    }
    assert(av.take(k as int) =~= av);
    let root = root_string(base);
    if allowed.len() == 0 && !contains_string(&disallowed, &root) {
        let ghost before = strings_view(allowed@);
        allowed.push(root);
        assert(strings_view(allowed@) =~= before.push(root_of(base@)));
    }
    PathResult { allowed, disallowed }
}

pub open spec fn agent_results_view(v: Seq<(String, PathResult)>) -> Seq<(Seq<char>, (Seq<Seq<char>>, Seq<Seq<char>>))> {
    v.map_values(|e: (String, PathResult)| (e.0@, path_result_view(e.1)))
}

/// For each given user agent, lower-cased, the URL prefixes on `base_url` that apply to it.
pub fn get_allowed_paths(rules: &[RobotsRule], user_agents: &[&str], base_url: &str) -> (r: Vec<(String, PathResult)>)
    ensures
        agent_results_view(r@) == Seq::new(
            user_agents@.len(),
            |i: int| (lower_of(user_agents@[i]@), agent_paths(rules_view(rules@), lower_of(user_agents@[i]@), base_url@)),
        ),
{
    let base = chars_of(base_url);
    let mut out: Vec<(String, PathResult)> = Vec::new();
    let mut k: usize = 0;
    while k < user_agents.len()
        invariant
            0 <= k <= user_agents@.len(),
            base@ == base_url@,
            agent_results_view(out@) == Seq::new(
                k as nat,
                |i: int| (lower_of(user_agents@[i]@), agent_paths(rules_view(rules@), lower_of(user_agents@[i]@), base_url@)),
            ),
        decreases user_agents@.len() - k,
    {
        let ua = lowercase(user_agents[k]);
        let paths = paths_for_agent(rules, &chars_of(ua.as_str()), &base);
        let ghost before = agent_results_view(out@);
        let ghost entry = (ua@, path_result_view(paths));
        assert(ua@ == lower_of(user_agents@[k as int]@));
        out.push((ua, paths));
        assert(agent_results_view(out@) =~= before.push(entry));
        assert(agent_results_view(out@) =~= Seq::new(
            (k + 1) as nat,
            |i: int| (lower_of(user_agents@[i]@), agent_paths(rules_view(rules@), lower_of(user_agents@[i]@), base_url@)),
        ));
        k = k + 1;
    }
    out
}


/// Whether a fetched robots.txt body is read at all: it must be non-empty and at most 5000
/// bytes long.
pub open spec fn usable_body(content: Seq<char>) -> bool {
    content.len() > 0 && utf8_len(content) <= MAX_ROBOTS_BYTES
}

/// What `check_robots_txt` reports for a response: nothing unless the status was a success
/// and the body usable, else the prefixes of the `*` agent followed by those of this crawler.
pub open spec fn robots_result_spec(success: bool, content: Seq<char>, origin: Seq<char>) -> Option<(Seq<Seq<char>>, Seq<Seq<char>>)> {
    if !success || !usable_body(content) {
        None
    } else {
        let rules = parse_robots(content);
        let w = agent_paths(rules, lower_of("*"@), origin);
        let c = agent_paths(rules, lower_of(CRAWLER_AGENT@), origin);
        Some((w.0 + c.0, w.1 + c.1))
    }
}

fn concat_strings(a: &Vec<String>, b: &Vec<String>) -> (r: Vec<String>)
    ensures
        strings_view(r@) == strings_view(a@) + strings_view(b@),
{
    let mut r = copy_strings(a);
    let mut k: usize = 0;
    while k < b.len()
        invariant
            0 <= k <= b@.len(),
            strings_view(r@) == strings_view(a@) + strings_view(b@).take(k as int),
        decreases b@.len() - k,
    {
        let ghost before = strings_view(r@);
        r.push(b[k].as_str().to_owned());
        assert(strings_view(r@) =~= before.push(b@[k as int]@));
        assert(strings_view(b@).take(k + 1) =~= strings_view(b@).take(k as int).push(b@[k as int]@));
        k = k + 1;
    }
    assert(strings_view(b@).take(k as int) =~= strings_view(b@));
    r
}

/// Turns a robots.txt response on `origin` into the prefixes that apply to this crawler.
pub fn robots_result(success: bool, content: &str, origin: &str) -> (r: Option<RobotsResult>)
    ensures
        match robots_result_spec(success, content@, origin@) {
            None => r is None,
            Some((a, d)) => r matches Some(x) && strings_view(x.allowed@) == a && strings_view(x.disallowed@) == d,
        },
{
    let body = chars_of(content);
    if !success || body.len() == 0 || utf8_len_exceeds(&body, MAX_ROBOTS_BYTES) {
        return None;
    }
    let rules = parse_robots_txt(content);
    let mut agents: Vec<&str> = Vec::new();
    agents.push("*");
    agents.push(CRAWLER_AGENT);
    assert(agents@.len() == 2);
    let paths = get_allowed_paths(rules.as_slice(), agents.as_slice(), origin);
    assert(agent_results_view(paths@).len() == 2);
    assert(paths@.len() == 2);
    assert(agent_results_view(paths@)[0] == (paths@[0].0@, path_result_view(paths@[0].1)));
    assert(agent_results_view(paths@)[1] == (paths@[1].0@, path_result_view(paths@[1].1)));
    let allowed = concat_strings(&paths[0].1.allowed, &paths[1].1.allowed);
    let disallowed = concat_strings(&paths[0].1.disallowed, &paths[1].1.disallowed);
    Some(RobotsResult { allowed, disallowed })
}

/// This crawler may fetch from an origin unless the groups that apply to it disallow the root.
pub open spec fn robots_allow_spec(content: Seq<char>) -> bool {
    !agent_paths(parse_robots(content), CRAWLER_AGENT@, seq![]).1.contains("/"@)
}

/// Whether a robots.txt body lets this crawler fetch from its origin.
pub fn robots_allows(content: &str) -> (r: bool)
    ensures
        r == robots_allow_spec(content@),
{
    let rules = parse_robots_txt(content);
    let paths = paths_for_agent(rules.as_slice(), &chars_of(CRAWLER_AGENT), &Vec::new());
    let root = "/".to_owned();
    assert(Seq::<char>::empty() + "/"@ =~= "/"@);
    !contains_string(&paths.disallowed, &root)
}

/// What fetching an origin's robots.txt gave.
#[derive(Debug)]
pub enum RobotsFetch {
    /// The request failed: timeout, refused connection, unreadable body.
    Unreachable,
    /// The server answered with a status other than success (a missing file).
    Missing,
    /// The server answered with success and this body.
    Body(String),
}

/// Whether the site may be crawled, and whether that answer may be remembered for the site.
#[derive(Debug, Clone, Copy, PartialEq, Eq, Structural)]
pub struct RobotsVerdict {
    pub allowed: bool,
    pub cache: bool,
}

/// A failed fetch allows the crawl without remembering it, so the site is checked again on a
/// later visit; a missing or unusable file allows everything; a usable one decides.
pub open spec fn robots_verdict_spec(fetch: RobotsFetch) -> RobotsVerdict {
    match fetch {
        RobotsFetch::Unreachable => RobotsVerdict { allowed: true, cache: false },
        RobotsFetch::Missing => RobotsVerdict { allowed: true, cache: true },
        RobotsFetch::Body(b) => RobotsVerdict {
            allowed: !usable_body(b@) || robots_allow_spec(b@),
            cache: true,
        },
    }
}

pub fn robots_verdict(fetch: &RobotsFetch) -> (v: RobotsVerdict)
    ensures
        v == robots_verdict_spec(*fetch),
{
    match fetch {
        RobotsFetch::Unreachable => RobotsVerdict { allowed: true, cache: false },
        RobotsFetch::Missing => RobotsVerdict { allowed: true, cache: true },
        RobotsFetch::Body(b) => {
            let body = chars_of(b.as_str());
            let usable = body.len() > 0 && !utf8_len_exceeds(&body, MAX_ROBOTS_BYTES);
            let allowed = !usable || robots_allows(b.as_str());
            RobotsVerdict { allowed, cache: true }
        },
    }
}

} // verus!
