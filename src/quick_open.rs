use vstd::prelude::*;
use crate::score::{calculate_score, classes_of, window_score};
use crate::text::chars_of;
use crate::window::{locate_window, window_of};
use crate::workspace::{dedup, dedup_paths, lemma_dedup_distinct, parts_view, same_path};

verus! {

/// One ranked match: the path relative to the workspace root, its score,
/// and the match window `[match_start, match_end)` over the file name.
#[derive(Debug)]
pub struct FuzzyResult {
    pub result_name: String,
    pub score: usize,
    pub match_start: usize,
    pub match_end: usize,
}

/// A match as plain values.
pub struct MatchView {
    pub name: Seq<char>,
    pub score: int,
    pub start: int,
    pub end: int,
}

impl View for FuzzyResult {
    type V = MatchView;

    open spec fn view(&self) -> MatchView {
        MatchView {
            name: self.result_name@,
            score: self.score as int,
            start: self.match_start as int,
            end: self.match_end as int,
        }
    }
}

/// Two results are the same entry when they name the same path.
impl PartialEq for FuzzyResult {
    fn eq(&self, other: &FuzzyResult) -> (r: bool) {
        self.result_name == other.result_name
    }
}

impl vstd::std_specs::cmp::PartialEqSpecImpl for FuzzyResult {
    open spec fn obeys_eq_spec() -> bool {
        true
    }

    open spec fn eq_spec(&self, other: &FuzzyResult) -> bool {
        self.result_name@ == other.result_name@
    }
}

/// Components joined by `/`.
pub open spec fn join_parts(parts: Seq<Seq<char>>) -> Seq<char>
    decreases parts.len(),
{
    if parts.len() == 0 {
        Seq::empty()
    } else if parts.len() == 1 {
        parts[0]
    } else {
        join_parts(parts.drop_last()) + seq!['/'] + parts.last()
    }
}

/// The path `p` relative to `root`, if it lies strictly below it.
pub open spec fn relative_path(root: Seq<Seq<char>>, p: Seq<Seq<char>>) -> Option<Seq<char>> {
    if root.len() < p.len() && p.take(root.len() as int) == root {
        Some(join_parts(p.skip(root.len() as int)))
    } else {
        None
    }
}

/// What a candidate path yields for query `q`: its relative path, and the
/// score and window of the query in its file name.
pub open spec fn candidate_match(q: Seq<char>, root: Seq<Seq<char>>, p: Seq<Seq<char>>) -> Option<MatchView> {
    match relative_path(root, p) {
        None => None,
        Some(rel) => match window_of(q, p.last()) {
            None => None,
            Some(w) => Some(
                MatchView {
                    name: rel,
                    score: window_score(q, p.last(), classes_of(p.last()), w.0, w.1),
                    start: w.0,
                    end: w.1,
                },
            ),
        },
    }
}

pub open spec fn has_name(rs: Seq<MatchView>, name: Seq<char>) -> bool {
    exists|i: int| 0 <= i < rs.len() && (#[trigger] rs[i]).name == name
}

/// No two results share a path.
pub open spec fn names_distinct(rs: Seq<MatchView>) -> bool {
    forall|i: int, j: int| 0 <= i < j < rs.len() ==> (#[trigger] rs[i]).name != (#[trigger] rs[j]).name
}

/// `m` replaces the result with its path, or is added at the end.
pub open spec fn upsert(rs: Seq<MatchView>, m: MatchView) -> Seq<MatchView> {
    if has_name(rs, m.name) {
        rs.update(choose|i: int| 0 <= i < rs.len() && (#[trigger] rs[i]).name == m.name, m)
    } else {
        rs.push(m)
    }
}

/// A matching pass so far: the retained results, and how many scores were
/// computed and their sum, for the running mean.
pub struct Pass {
    pub results: Seq<MatchView>,
    pub count: int,
    pub total: int,
}

/// One candidate's outcome added to a pass: a scored match is retained when
/// its score is at least the mean of the scores computed before it.
pub open spec fn pass_step(pass: Pass, m: Option<MatchView>) -> Pass {
    match m {
        None => pass,
        Some(m) => Pass {
            results: if m.score * pass.count >= pass.total {
                upsert(pass.results, m)
            } else {
                pass.results
            },
            count: pass.count + 1,
            total: pass.total + m.score,
        },
    }
}

/// The pass of query `q` over the candidates `items`, in order.
pub open spec fn run_pass(q: Seq<char>, root: Seq<Seq<char>>, items: Seq<Seq<Seq<char>>>) -> Pass
    decreases items.len(),
{
    if items.len() == 0 {
        Pass { results: Seq::empty(), count: 0, total: 0 }
    } else {
        pass_step(run_pass(q, root, items.drop_last()), candidate_match(q, root, items.last()))
    }
}

pub proof fn lemma_upsert_distinct(rs: Seq<MatchView>, m: MatchView)
    requires
        names_distinct(rs),
    ensures
        names_distinct(upsert(rs, m)),
        has_name(upsert(rs, m), m.name),
{
    if has_name(rs, m.name) {
        let i = choose|i: int| 0 <= i < rs.len() && (#[trigger] rs[i]).name == m.name;
        assert(upsert(rs, m)[i] == m);
    } else {
        assert(upsert(rs, m)[rs.len() as int] == m);
    }
}

pub proof fn lemma_pass_distinct(q: Seq<char>, root: Seq<Seq<char>>, items: Seq<Seq<Seq<char>>>)
    ensures
        names_distinct(run_pass(q, root, items).results),
        run_pass(q, root, items).count >= 0,
    decreases items.len(),
{
    if items.len() > 0 {
        lemma_pass_distinct(q, root, items.drop_last());
        let p = run_pass(q, root, items.drop_last());
        if let Some(m) = candidate_match(q, root, items.last()) {
            lemma_upsert_distinct(p.results, m);
        }
    }
}

/// An empty query matches nothing, so a pass with it retains no result,
/// whatever the root and the candidates.
pub proof fn lemma_empty_query_no_results(root: Seq<Seq<char>>, items: Seq<Seq<Seq<char>>>)
    ensures
        run_pass(Seq::empty(), root, items).results.len() == 0,
    decreases items.len(),
{
    if items.len() > 0 {
        lemma_empty_query_no_results(root, items.drop_last());
        assert(candidate_match(Seq::empty(), root, items.last()) is None);
    }
}

/// The path `p` relative to `root`, joined by `/`, if it lies strictly
/// below `root`.
pub fn relative_path_of(root: &Vec<String>, p: &Vec<String>) -> (r: Option<String>)
    ensures
        r matches Some(s) ==> relative_path(parts_view(root@), parts_view(p@)) == Some(s@),
        r is None ==> relative_path(parts_view(root@), parts_view(p@)) is None,
{
    let ghost rv = parts_view(root@);
    let ghost pv = parts_view(p@);
    let rl = root.len();
    if rl >= p.len() {
        return None;
    }
    let mut i: usize = 0;
    while i < rl
        invariant
            rl == root@.len(),
            rl < p@.len(),
            i <= rl,
            rv == parts_view(root@),
            pv == parts_view(p@),
            forall|k: int| 0 <= k < i ==> root@[k]@ == p@[k]@,
        decreases rl - i,
    {
        if root[i] != p[i] {
            assert(pv.take(rl as int)[i as int] != rv[i as int]);
            return None;
        }
        i = i + 1;
    }
    assert(pv.take(rl as int) =~= rv);
    let mut out = String::new();
    let mut k: usize = rl;
    proof {
        reveal_strlit("/");
    }
    while k < p.len()
        invariant
            rl == root@.len(),
            rl <= k <= p@.len(),
            pv == parts_view(p@),
            out@ == join_parts(pv.subrange(rl as int, k as int)),
            "/"@ == seq!['/'],
        decreases p.len() - k,
    {
        let ghost before = pv.subrange(rl as int, k as int);
        if k > rl {
            out.append("/");
        }
        out.append(p[k].as_str());
        k = k + 1;
        let ghost after = pv.subrange(rl as int, k as int);
        assert(after.drop_last() =~= before);
        assert(after.last() == p@[k - 1]@);
        if k - 1 == rl {
            assert(before.len() == 0);
            assert(out@ =~= after[0]);
        } else {
            assert(out@ =~= join_parts(before) + seq!['/'] + after.last());
        }
    }
    assert(pv.subrange(rl as int, p@.len() as int) =~= pv.skip(rl as int));
    Some(out)
}

/// Locates `pattern` in `text` and scores the window: `(score, start, end)`,
/// or `None` where the pattern is empty or does not occur.
pub fn fuzzy_match(pattern: &str, text: &str) -> (r: Option<(usize, usize, usize)>)
    ensures
        r matches Some(m) ==> window_of(pattern@, text@) == Some((m.1 as int, m.2 as int))
            && m.0 as int == window_score(pattern@, text@, classes_of(text@), m.1 as int, m.2 as int),
        r is None ==> window_of(pattern@, text@) is None,
{
    let q = chars_of(pattern);
    let t = chars_of(text);
    match locate_window(&q, &t) {
        None => None,
        Some((s, e)) => {
            let sc = calculate_score(&q, &t, s, e);
            Some((sc, s, e))
        },
    }
}

/// The views of a list of results.
pub open spec fn results_view(rs: Seq<FuzzyResult>) -> Seq<MatchView> {
    rs.map_values(|r: FuzzyResult| r@)
}

/// Puts `m` in place of the result with the same path, or at the end.
pub fn upsert_result(results: &mut Vec<FuzzyResult>, m: FuzzyResult)
    requires
        names_distinct(results_view(old(results)@)),
    ensures
        results_view(final(results)@) == upsert(results_view(old(results)@), m@),
{
    let ghost ov = results_view(results@);
    let mut j: usize = 0;
    while j < results.len()
        invariant
            j <= results@.len(),
            results@ == old(results)@,
            ov == results_view(results@),
            ov == results_view(old(results)@),
            names_distinct(ov),
            forall|k: int| 0 <= k < j ==> ov[k].name != m@.name,
        decreases results.len() - j,
    {
        if results[j].result_name == m.result_name {
            let ghost mv = m@;
            results.set(j, m);
            proof {
                assert(ov[j as int].name == mv.name);
                let c = choose|i: int| 0 <= i < ov.len() && (#[trigger] ov[i]).name == mv.name;
                assert(names_distinct(ov));
                if c < j {
                    assert(ov[c].name != ov[j as int].name);
                } else if c > j {
                    assert(ov[j as int].name != ov[c].name);
                }
                assert(results_view(results@) =~= ov.update(j as int, mv));
            }
            return;
        }
        j = j + 1;
    }
    let ghost mv = m@;
    results.push(m);
    assert(!has_name(ov, mv.name));
    assert(results_view(results@) =~= ov.push(mv));
}

/// `a` comes strictly before `b` in lexical order of character codes.
pub open spec fn lex_lt(a: Seq<char>, b: Seq<char>) -> bool
    decreases a.len(),
{
    if a.len() == 0 {
        b.len() > 0
    } else if b.len() == 0 {
        false
    } else if a[0] != b[0] {
        a[0] < b[0]
    } else {
        lex_lt(a.drop_first(), b.drop_first())
    }
}

/// `x` is listed before `y`: a higher score first, then the lexically
/// smaller path.
pub open spec fn ranks_before(x: MatchView, y: MatchView) -> bool {
    x.score > y.score || (x.score == y.score && lex_lt(x.name, y.name))
}

/// Every result is listed before the next.
pub open spec fn is_ranked(rs: Seq<MatchView>) -> bool {
    forall|i: int| 0 <= i < rs.len() - 1 ==> ranks_before(#[trigger] rs[i], rs[i + 1])
}

/// Two different paths are ordered one way or the other.
pub proof fn lemma_lex_total(a: Seq<char>, b: Seq<char>)
    requires
        a != b,
    ensures
        lex_lt(a, b) || lex_lt(b, a),
    decreases a.len(),
{
    if a.len() > 0 && b.len() > 0 {
        if a[0] == b[0] {
            if a.drop_first() == b.drop_first() {
                assert(a =~= b.drop_first().insert(0, a[0]));
                assert(b =~= b.drop_first().insert(0, b[0]));
            }
            lemma_lex_total(a.drop_first(), b.drop_first());
        }
    } else if a.len() == 0 && b.len() == 0 {
        assert(a =~= b);
    }
}

/// Whether path `a` comes lexically before path `b`.
pub fn name_before(a: &String, b: &String) -> (r: bool)
    ensures
        r == lex_lt(a@, b@),
{
    let x = chars_of(a.as_str());
    let y = chars_of(b.as_str());
    let mut i: usize = 0;
    assert(x@.skip(0) =~= x@);
    assert(y@.skip(0) =~= y@);
    while i < x.len() && i < y.len()
        invariant
            x@ == a@,
            y@ == b@,
            i <= x@.len(),
            i <= y@.len(),
            lex_lt(a@, b@) == lex_lt(x@.skip(i as int), y@.skip(i as int)),
        decreases x.len() - i,
    {
        assert(x@.skip(i as int)[0] == x@[i as int]);
        assert(y@.skip(i as int)[0] == y@[i as int]);
        if x[i] != y[i] {
            return x[i] < y[i];
        }
        assert(x@.skip(i as int).drop_first() =~= x@.skip(i + 1));
        assert(y@.skip(i as int).drop_first() =~= y@.skip(i + 1));
        i = i + 1;
    }
    i < y.len()
}

/// Whether result `x` is listed before result `y`.
pub fn ranked_before(x: &FuzzyResult, y: &FuzzyResult) -> (r: bool)
    ensures
        r == ranks_before(x@, y@),
{
    x.score > y.score || (x.score == y.score && name_before(&x.result_name, &y.result_name))
}

/// The state of quick open: the workspace root, the candidate files found
/// under it, and the results of the last query.
pub struct QuickOpen {
    pub root: Option<Vec<String>>,
    pub workspace_items: Vec<Vec<String>>,
    pub current_fuzzy_results: Vec<FuzzyResult>,
}

impl QuickOpen {
    /// The root's components; no root yet reads as the top-most directory.
    pub open spec fn root_parts(&self) -> Seq<Seq<char>> {
        match self.root {
            Some(r) => parts_view(r@),
            None => Seq::empty(),
        }
    }

    pub open spec fn items_view(&self) -> Seq<Seq<Seq<char>>> {
        self.workspace_items@.map_values(|p: Vec<String>| parts_view(p@))
    }

    pub open spec fn results(&self) -> Seq<MatchView> {
        results_view(self.current_fuzzy_results@)
    }

    /// Candidates appear once each, only once a root is known, and results
    /// hold each path once.
    pub open spec fn wf(&self) -> bool {
        &&& self.items_view().no_duplicates()
        &&& self.root is None ==> self.workspace_items@.len() == 0
        &&& names_distinct(self.results())
    }

    pub fn new() -> (r: QuickOpen)
        ensures
            r.root is None,
            r.workspace_items@.len() == 0,
            r.current_fuzzy_results@.len() == 0,
            r.wf(),
    {
        QuickOpen { root: None, workspace_items: Vec::new(), current_fuzzy_results: Vec::new() }
    }

    /// Whether `root` differs from the root the candidates were found under.
    pub fn needs_reindex(&self, root: &Vec<String>) -> (r: bool)
        ensures
            r == !(self.root matches Some(cur) && parts_view(cur@) == parts_view(root@)),
    {
        match &self.root {
            None => true,
            Some(cur) => !same_path(cur, root),
        }
    }

    /// Takes `root` as the workspace root. Where it differs from the current
    /// one, the candidates become `found` without repeats, in order of
    /// discovery; where it is the same, nothing changes. Returns whether the
    /// candidates were replaced.
    pub fn initialize_workspace_matches(&mut self, root: Vec<String>, found: Vec<Vec<String>>) -> (r: bool)
        requires
            old(self).wf(),
        ensures
            r == !(old(self).root matches Some(cur) && parts_view(cur@) == parts_view(root@)),
            r ==> final(self).root_parts() == parts_view(root@) && final(self).root is Some
                && final(self).items_view() == dedup(found@.map_values(|p: Vec<String>| parts_view(p@))),
            !r ==> *final(self) == *old(self),
            final(self).current_fuzzy_results == old(self).current_fuzzy_results,
            final(self).wf(),
    {
        if !self.needs_reindex(&root) {
            return false;
        }
        let items = dedup_paths(found);
        proof {
            lemma_dedup_distinct(found@.map_values(|p: Vec<String>| parts_view(p@)));
        }
        self.root = Some(root);
        self.workspace_items = items;
        true
    }

    /// Matches `query` against the file name of every candidate, in order,
    /// and keeps each scored match whose score is at least the mean of the
    /// scores computed before it, one result per relative path.
    pub fn initiate_fuzzy_match(&mut self, query: &str)
        requires
            old(self).wf(),
        ensures
            final(self).root == old(self).root,
            final(self).workspace_items == old(self).workspace_items,
            final(self).results() == run_pass(query@, old(self).root_parts(), old(self).items_view()).results,
            final(self).wf(),
    {
        let ghost rv = self.root_parts();
        let ghost iv = self.items_view();
        let empty: Vec<String> = Vec::new();
        let root: &Vec<String> = match &self.root {
            Some(r) => r,
            None => &empty,
        };
        assert(parts_view(root@) == rv) by {
            if self.root is None {
                assert(parts_view(root@) =~= rv);
            }
        }
        let mut results: Vec<FuzzyResult> = Vec::new();
        let mut count: u128 = 0;
        let mut total: u128 = 0;
        let mut i: usize = 0;
        assert(iv.take(0) =~= Seq::<Seq<Seq<char>>>::empty());
        assert(results_view(results@) =~= Seq::<MatchView>::empty());
        while i < self.workspace_items.len()
            invariant
                i <= self.workspace_items@.len(),
                iv == self.items_view(),
                parts_view(root@) == rv,
                results_view(results@) == run_pass(query@, rv, iv.take(i as int)).results,
                count as int == run_pass(query@, rv, iv.take(i as int)).count,
                total as int == run_pass(query@, rv, iv.take(i as int)).total,
                count <= i,
                total <= count * 0xffff_ffff_ffff_ffff,
            decreases self.workspace_items.len() - i,
        {
            proof {
                lemma_pass_distinct(query@, rv, iv.take(i as int));
                assert(iv.take(i + 1).drop_last() =~= iv.take(i as int));
                assert(iv.take(i + 1).last() == parts_view(self.workspace_items@[i as int]@));
                assert(usize::MAX <= 0xffff_ffff_ffff_ffff);
            }
            let p = &self.workspace_items[i];
            if let Some(rel) = relative_path_of(root, p) {
                let name = &p[p.len() - 1];
                assert(parts_view(p@).last() == name@);
                if let Some((sc, start, end)) = fuzzy_match(query, name.as_str()) {
                    let m = FuzzyResult { result_name: rel, score: sc, match_start: start, match_end: end };
                    assert((sc as int) * (count as int) <= 0xffff_ffff_ffff_ffff * 0xffff_ffff_ffff_ffff)
                        by (nonlinear_arith)
                        requires
                            sc <= 0xffff_ffff_ffff_ffff,
                            count <= 0xffff_ffff_ffff_ffff,
                    ;
                    if (sc as u128) * count >= total {
                        upsert_result(&mut results, m);
                    }
                    count = count + 1;
                    total = total + sc as u128;
                }
            }
            i = i + 1;
        }
        assert(iv.take(i as int) =~= iv);
        proof {
            lemma_pass_distinct(query@, rv, iv);
        }
        self.current_fuzzy_results = results;
    }

    /// Orders the results of the last query: higher scores first, equal
    /// scores by path.
    pub fn get_quick_open_results(&mut self) -> (r: &Vec<FuzzyResult>)
        requires
            old(self).wf(),
        ensures
            final(self).root == old(self).root,
            final(self).workspace_items == old(self).workspace_items,
            final(self).results().to_multiset() == old(self).results().to_multiset(),
            is_ranked(final(self).results()),
            final(self).wf(),
            r@ == final(self).current_fuzzy_results@,
    {
        broadcast use vstd::seq_lib::group_to_multiset_ensures;

        let ghost orig = self.results();
        let mut src: Vec<FuzzyResult> = Vec::new();
        std::mem::swap(&mut src, &mut self.current_fuzzy_results);
        let mut out: Vec<FuzzyResult> = Vec::new();
        assert(results_view(out@) =~= Seq::<MatchView>::empty());
        assert(results_view(out@).to_multiset().add(results_view(src@).to_multiset())
            =~= orig.to_multiset());
        while src.len() > 0
            invariant
                results_view(out@).to_multiset().add(results_view(src@).to_multiset())
                    == orig.to_multiset(),
                names_distinct(results_view(out@)),
                names_distinct(results_view(src@)),
                forall|i: int, j: int|
                    0 <= i < out@.len() && 0 <= j < src@.len() ==> out@[i].result_name@
                        != src@[j].result_name@,
                is_ranked(results_view(out@)),
            decreases src.len(),
        {
            let ghost sv = results_view(src@);
            let ghost ov = results_view(out@);
            let x = src.pop().unwrap();
            let ghost xv = x@;
            assert(sv =~= results_view(src@).push(xv));
            let mut pos: usize = 0;
            while pos < out.len() && !ranked_before(&x, &out[pos])
                invariant
                    pos <= out@.len(),
                    ov == results_view(out@),
                    xv == x@,
                    forall|k: int| 0 <= k < pos ==> !ranks_before(xv, #[trigger] ov[k]),
                decreases out.len() - pos,
            {
                assert(ov[pos as int] == out@[pos as int]@);
                pos = pos + 1;
            }
            proof {
                if pos > 0 {
                    let k = pos - 1;
                    assert(!ranks_before(xv, ov[k as int]));
                    assert(ov[k as int].name != xv.name);
                    lemma_lex_total(ov[k as int].name, xv.name);
                }
            }
            out.insert(pos, x);
            proof {
                let nv = results_view(out@);
                assert(nv =~= ov.insert(pos as int, xv));
                vstd::seq_lib::to_multiset_build(results_view(src@), xv);
                vstd::seq_lib::to_multiset_insert(ov, pos as int, xv);
                assert(nv.to_multiset().add(results_view(src@).to_multiset()) =~= orig.to_multiset());
                assert(forall|k: int| 0 <= k < pos ==> nv[k] == ov[k]);
                assert(nv[pos as int] == xv);
                assert(forall|k: int| pos < k < nv.len() ==> nv[k] == ov[k - 1]);
                assert forall|i: int| 0 <= i < nv.len() - 1 implies ranks_before(#[trigger] nv[i], nv[i + 1]) by {
                    if i + 1 < pos {
                    } else if i + 1 == pos {
                    } else if i == pos {
                    } else {
                        assert(ranks_before(ov[i - 1], ov[i]));
                    }
                }
                assert forall|i: int, j: int| 0 <= i < j < nv.len() implies (#[trigger] nv[i]).name
                    != (#[trigger] nv[j]).name by {
                    if i == pos {
                        assert(out@[j].result_name@ == nv[j].name);
                    } else if j == pos {
                        assert(out@[i].result_name@ == nv[i].name);
                    } else {
                        let i0 = if i < pos { i } else { i - 1 };
                        let j0 = if j < pos { j } else { j - 1 };
                        assert(nv[i] == ov[i0] && nv[j] == ov[j0]);
                    }
                }
                assert(names_distinct(results_view(src@))) by {
                    assert forall|i: int, j: int| 0 <= i < j < src@.len() implies (#[trigger] results_view(src@)[i]).name
                        != (#[trigger] results_view(src@)[j]).name by {
                        assert(results_view(src@)[i] == sv[i] && results_view(src@)[j] == sv[j]);
                    }
                }
                assert forall|i: int, j: int| 0 <= i < out@.len() && 0 <= j < src@.len() implies out@[i].result_name@
                    != src@[j].result_name@ by {
                    assert(src@[j]@ == sv[j]);
                    assert(sv[sv.len() - 1] == xv);
                    assert(sv[j].name != sv[sv.len() - 1].name);
                    if i == pos {
                    } else if i < pos {
                        assert(out@[i]@ == ov[i]);
                    } else {
                        assert(out@[i]@ == ov[i - 1]);
                    }
                }
            }
        }
        self.current_fuzzy_results = out;
        &self.current_fuzzy_results
    }
} // impl QuickOpen

} // verus!
