//! The prerequisite graph of a database: deduplicated dependencies, weighted
//! dependent edges, and detection of prerequisite cycles.
use vstd::prelude::*;
use crate::db::first_dup;
use crate::graph::{find_cycle, graph_of, graph_wf, has_edge, is_cycle, Graph};
use crate::model::{ids_of, quest_ids, Quest, QuestDatabase};
use crate::parser::{contains_id, opt_view};
use crate::quest_id::QuestId;

verus! {

/// `s` is `xor` in any mix of ASCII case.
pub open spec fn is_xor_text(s: Seq<char>) -> bool {
    &&& s.len() == 3
    &&& (s[0] == 'X' || s[0] == 'x')
    &&& (s[1] == 'O' || s[1] == 'o')
    &&& (s[2] == 'R' || s[2] == 'r')
}

/// A quest whose logic is XOR: it adds no prerequisite edges.
pub open spec fn is_xor_quest(q: Quest) -> bool {
    q.properties is Some && opt_view(q.properties->0.quest_logic) is Some && is_xor_text(
        opt_view(q.properties->0.quest_logic)->0,
    )
}

/// The ids of `s` in order, without repeats and without those of `base`.
pub open spec fn dedup_after(base: Seq<u64>, s: Seq<u64>) -> Seq<u64>
    decreases s.len(),
{
    if s.len() == 0 {
        Seq::empty()
    } else {
        let r = dedup_after(base, s.drop_last());
        if base.contains(s.last()) || r.contains(s.last()) {
            r
        } else {
            r.push(s.last())
        }
    }
}

/// The prerequisites of `q` that each carry weight one: its required list,
/// or its plain list when that is empty, without repeats.
pub open spec fn required_deps(q: Quest) -> Seq<u64> {
    if is_xor_quest(q) {
        Seq::empty()
    } else if q.required_prerequisites@.len() > 0 {
        dedup_after(Seq::empty(), ids_of(q.required_prerequisites@))
    } else {
        dedup_after(Seq::empty(), ids_of(q.prerequisites@))
    }
}

/// The optional prerequisites of `q`, which share a weight of one, without
/// repeats and without the required ones.
pub open spec fn optional_deps(q: Quest) -> Seq<u64> {
    if is_xor_quest(q) {
        Seq::empty()
    } else {
        dedup_after(required_deps(q), ids_of(q.optional_prerequisites@))
    }
}

/// An edge from a prerequisite to a quest that depends on it, of weight
/// `1 / group_size`.
#[derive(Debug, Clone, Copy, PartialEq, Eq)]
pub struct DependencyEdge {
    pub prerequisite: QuestId,
    pub dependent: QuestId,
    pub group_size: usize,
}

/// An edge as the model holds it: prerequisite, dependent, group size.
pub type EdgeView = (u64, u64, nat);

pub open spec fn edge_views(es: Seq<DependencyEdge>) -> Seq<EdgeView> {
    es.map_values(|e: DependencyEdge| (e.prerequisite@, e.dependent@, e.group_size as nat))
}

/// The edges that `q` contributes: one of size one from each required
/// prerequisite, then one from each optional prerequisite with the size of
/// the optional group.
pub open spec fn quest_edges(q: Quest) -> Seq<EdgeView> {
    required_deps(q).map_values(|p: u64| (p, q.id@, 1nat)) + optional_deps(q).map_values(
        |p: u64| (p, q.id@, optional_deps(q).len()),
    )
}

/// The edges of all of `quests`, quest by quest.
pub open spec fn all_edges(quests: Seq<Quest>) -> Seq<EdgeView>
    decreases quests.len(),
{
    if quests.len() == 0 {
        Seq::empty()
    } else {
        all_edges(quests.drop_last()) + quest_edges(quests.last())
    }
}

/// Whether `s` is `xor` in any mix of ASCII case.
fn is_xor_logic(s: &str) -> (r: bool)
    ensures
        r == is_xor_text(s@),
{
    if s.unicode_len() != 3 {
        return false;
    }
    let a = s.get_char(0);
    let b = s.get_char(1);
    let c = s.get_char(2);
    (a == 'X' || a == 'x') && (b == 'O' || b == 'o') && (c == 'R' || c == 'r')
}

/// Whether the logic of `q` is XOR.
pub fn quest_is_xor(q: &Quest) -> (r: bool)
    ensures
        r == is_xor_quest(*q),
{
    match &q.properties {
        Some(p) => match &p.quest_logic {
            Some(l) => is_xor_logic(l.as_str()),
            None => false,
        },
        None => false,
    }
}

/// The ids of `s` in order, without repeats and without those of `base`.
fn dedup_ids(base: &Vec<QuestId>, s: &Vec<QuestId>) -> (r: Vec<QuestId>)
    ensures
        ids_of(r@) == dedup_after(ids_of(base@), ids_of(s@)),
{
    let ghost sv = ids_of(s@);
    let mut out: Vec<QuestId> = Vec::new();
    let mut i: usize = 0;
    assert(sv.take(0) =~= Seq::<u64>::empty());
    assert(ids_of(out@) =~= Seq::<u64>::empty());
    while i < s.len()
        invariant
            i <= s.len(),
            sv == ids_of(s@),
            ids_of(out@) == dedup_after(ids_of(base@), sv.take(i as int)),
        decreases s.len() - i,
    {
        let ghost before = ids_of(out@);
        assert(sv.take(i + 1).drop_last() =~= sv.take(i as int));
        assert(sv.take(i + 1).last() == s[i as int]@);
        if !contains_id(base, s[i]) && !contains_id(&out, s[i]) {
            out.push(s[i]);
            assert(ids_of(out@) =~= before.push(s[i as int]@));
        }
        i = i + 1;
    }
    assert(sv.take(s.len() as int) =~= sv);
    out
}

/// The required and the optional prerequisites of `q` as the graph uses
/// them: none for an XOR quest, otherwise without repeats.
pub fn quest_dependencies(q: &Quest) -> (r: (Vec<QuestId>, Vec<QuestId>))
    ensures
        ids_of(r.0@) == required_deps(*q),
        ids_of(r.1@) == optional_deps(*q),
{
    if quest_is_xor(q) {
        let a: Vec<QuestId> = Vec::new();
        let b: Vec<QuestId> = Vec::new();
        assert(ids_of(a@) =~= Seq::<u64>::empty());
        assert(ids_of(b@) =~= Seq::<u64>::empty());
        return (a, b);
    }
    let empty: Vec<QuestId> = Vec::new();
    assert(ids_of(empty@) =~= Seq::<u64>::empty());
    let required = if q.required_prerequisites.len() > 0 {
        dedup_ids(&empty, &q.required_prerequisites)
    } else {
        dedup_ids(&empty, &q.prerequisites)
    };
    let optional = dedup_ids(&required, &q.optional_prerequisites);
    (required, optional)
}

/// The weighted dependent edges of every quest of `db`, quest by quest.
pub fn dependency_edges(db: &QuestDatabase) -> (r: Vec<DependencyEdge>)
    ensures
        edge_views(r@) == all_edges(db.quests@),
{
    let ghost qs = db.quests@;
    let mut out: Vec<DependencyEdge> = Vec::new();
    let mut i: usize = 0;
    assert(qs.take(0) =~= Seq::<Quest>::empty());
    assert(edge_views(out@) =~= Seq::<EdgeView>::empty());
    while i < db.quests.len()
        invariant
            i <= db.quests.len(),
            qs == db.quests@,
            edge_views(out@) == all_edges(qs.take(i as int)),
        decreases db.quests.len() - i,
    {
        let q = &db.quests[i];
        let ghost before = edge_views(out@);
        assert(qs.take(i + 1).drop_last() =~= qs.take(i as int));
        assert(qs.take(i + 1).last() == *q);
        let (required, optional) = quest_dependencies(q);
        let ghost req = required_deps(*q);
        let ghost opt = optional_deps(*q);
        let mut k: usize = 0;
        while k < required.len()
            invariant
                k <= required.len(),
                ids_of(required@) == req,
                edge_views(out@) == before + req.take(k as int).map_values(
                    |p: u64| (p, q.id@, 1nat),
                ),
            decreases required.len() - k,
        {
            let ghost prev = edge_views(out@);
            out.push(DependencyEdge { prerequisite: required[k], dependent: q.id, group_size: 1 });
            assert(req[k as int] == required[k as int]@);
            assert(edge_views(out@) =~= prev.push((required[k as int]@, q.id@, 1nat)));
            assert(req.take(k + 1).map_values(|p: u64| (p, q.id@, 1nat)) =~= req.take(
                k as int,
            ).map_values(|p: u64| (p, q.id@, 1nat)).push((req[k as int], q.id@, 1nat)));
            k = k + 1;
        }
        assert(req.take(required.len() as int) =~= req);
        let ghost mid = edge_views(out@);
        let size = optional.len();
        assert(size == opt.len());
        let mut k: usize = 0;
        while k < optional.len()
            invariant
                k <= optional.len(),
                size == optional.len(),
                ids_of(optional@) == opt,
                edge_views(out@) == mid + opt.take(k as int).map_values(
                    |p: u64| (p, q.id@, opt.len()),
                ),
            decreases optional.len() - k,
        {
            let ghost prev = edge_views(out@);
            out.push(
                DependencyEdge { prerequisite: optional[k], dependent: q.id, group_size: size },
            );
            assert(opt[k as int] == optional[k as int]@);
            assert(edge_views(out@) =~= prev.push((optional[k as int]@, q.id@, opt.len())));
            assert(opt.take(k + 1).map_values(|p: u64| (p, q.id@, opt.len())) =~= opt.take(
                k as int,
            ).map_values(|p: u64| (p, q.id@, opt.len())).push((opt[k as int], q.id@, opt.len())));
            k = k + 1;
        }
        assert(opt.take(optional.len() as int) =~= opt);
        assert(edge_views(out@) =~= all_edges(qs.take(i + 1)));
        i = i + 1;
    }
    assert(qs.take(db.quests.len() as int) =~= qs);
    out
}

/// The position of the first `x` in `s`, or `-1`.
pub open spec fn first_index(s: Seq<u64>, x: u64) -> int
    decreases s.len(),
{
    if s.len() == 0 {
        -1
    } else if s[0] == x {
        0
    } else {
        let r = first_index(s.drop_first(), x);
        if r < 0 {
            -1
        } else {
            r + 1
        }
    }
}

proof fn lemma_first_index(s: Seq<u64>, x: u64)
    ensures
        s.contains(x) ==> 0 <= first_index(s, x) < s.len() && s[first_index(s, x)] == x,
        !s.contains(x) ==> first_index(s, x) == -1,
    decreases s.len(),
{
    if s.len() > 0 {
        lemma_first_index(s.drop_first(), x);
        if s[0] != x {
            if s.contains(x) {
                let k = choose|k: int| 0 <= k < s.len() && s[k] == x;
                assert(s.drop_first()[k - 1] == x);
            }
            if s.drop_first().contains(x) {
                let k = choose|k: int| 0 <= k < s.drop_first().len() && s.drop_first()[k] == x;
                assert(s[k + 1] == x);
            }
        }
    }
}

/// The prerequisites of `q` that take part in cycle detection.
pub open spec fn succ_ids(q: Quest) -> Seq<u64> {
    required_deps(q) + optional_deps(q)
}

/// The positions in `quests` of the ids of `ids` that name a quest, in order.
pub open spec fn succ_indices(quests: Seq<Quest>, ids: Seq<u64>) -> Seq<usize>
    decreases ids.len(),
{
    if ids.len() == 0 {
        Seq::empty()
    } else {
        let r = succ_indices(quests, ids.drop_last());
        let p = first_index(quest_ids(quests), ids.last());
        if p >= 0 {
            r.push(p as usize)
        } else {
            r
        }
    }
}

/// The graph on positions of `quests`: an edge from each quest to each of
/// its prerequisites that is in `quests`.
pub open spec fn prereq_graph(quests: Seq<Quest>) -> Graph {
    Seq::new(quests.len(), |i: int| succ_indices(quests, succ_ids(quests[i])))
}

/// The quest `a` lists the quest `b` of `quests` as a prerequisite.
pub open spec fn prereq_edge(quests: Seq<Quest>, a: u64, b: u64) -> bool {
    exists|i: int|
        0 <= i < quests.len() && #[trigger] quests[i].id@ == a && succ_ids(quests[i]).contains(b)
            && quest_ids(quests).contains(b)
}

/// `c` is a cycle of quest ids along prerequisite edges.
pub open spec fn is_prereq_cycle(quests: Seq<Quest>, c: Seq<u64>) -> bool {
    &&& c.len() > 0
    &&& forall|k: int| 0 <= k < c.len() - 1 ==> #[trigger] prereq_edge(quests, c[k], c[k + 1])
    &&& prereq_edge(quests, c.last(), c[0])
}

proof fn lemma_succ_indices(quests: Seq<Quest>, ids: Seq<u64>)
    requires
        quests.len() <= usize::MAX,
    ensures
        forall|y: usize| #[trigger] succ_indices(quests, ids).contains(y) ==> exists|b: u64|
            ids.contains(b) && first_index(quest_ids(quests), b) == y as int,
        forall|b: u64| #[trigger] ids.contains(b) && first_index(quest_ids(quests), b) >= 0
            ==> succ_indices(quests, ids).contains(first_index(quest_ids(quests), b) as usize),
        forall|y: usize| #[trigger] succ_indices(quests, ids).contains(y) ==> y < quests.len(),
    decreases ids.len(),
{
    let qids = quest_ids(quests);
    if ids.len() > 0 {
        let d = ids.drop_last();
        lemma_succ_indices(quests, d);
        let r = succ_indices(quests, d);
        let p = first_index(qids, ids.last());
        lemma_first_index(qids, ids.last());
        assert forall|y: usize| #[trigger] succ_indices(quests, ids).contains(y) implies exists|b: u64|
            ids.contains(b) && first_index(qids, b) == y as int by {
            if r.contains(y) {
                let b = choose|b: u64| d.contains(b) && first_index(qids, b) == y as int;
                let k = choose|k: int| 0 <= k < d.len() && d[k] == b;
                assert(ids[k] == b);
                assert(ids.contains(b) && first_index(qids, b) == y as int);
            } else {
                let full = succ_indices(quests, ids);
                let t = choose|t: int| 0 <= t < full.len() && full[t] == y;
                if p >= 0 {
                    if t < r.len() {
                        assert(full[t] == r[t]);
                    }
                    assert(t == r.len());
                    assert(y == p as usize);
                    assert(qids.contains(ids.last()));
                    assert(p < qids.len());
                    assert(qids.len() == quests.len());
                    assert(y as int == p);
                } else {
                    assert(full[t] == r[t]);
                }
                assert(ids[ids.len() - 1] == ids.last());
                assert(ids.contains(ids.last()) && first_index(qids, ids.last()) == y as int);
            }
        }
        assert forall|b: u64| #[trigger] ids.contains(b) && first_index(qids, b) >= 0 implies succ_indices(
            quests,
            ids,
        ).contains(first_index(qids, b) as usize) by {
            let k = choose|k: int| 0 <= k < ids.len() && ids[k] == b;
            if k < ids.len() - 1 {
                assert(d[k] == b);
                assert(d.contains(b));
                assert(r.contains(first_index(qids, b) as usize));
                let t = choose|t: int| 0 <= t < r.len() && r[t] == first_index(qids, b) as usize;
                if p >= 0 {
                    assert(r.push(p as usize)[t] == r[t]);
                }
            } else {
                assert(r.push(p as usize)[r.len() as int] == p as usize);
            }
        }
        assert forall|y: usize| #[trigger] succ_indices(quests, ids).contains(y) implies y < quests.len() by {
            if !r.contains(y) {
                let t = choose|t: int| 0 <= t < succ_indices(quests, ids).len() && succ_indices(quests, ids)[t] == y;
                assert(t == r.len());
            }
        }
    }
}

/// The positions in `quests` of the ids of `ids` that name a quest.
fn indices_of(quests: &Vec<Quest>, ids: &Vec<QuestId>) -> (r: Vec<usize>)
    ensures
        r@ == succ_indices(quests@, ids_of(ids@)),
{
    let ghost qids = quest_ids(quests@);
    let ghost iv = ids_of(ids@);
    let mut out: Vec<usize> = Vec::new();
    let mut i: usize = 0;
    assert(iv.take(0) =~= Seq::<u64>::empty());
    while i < ids.len()
        invariant
            i <= ids.len(),
            qids == quest_ids(quests@),
            iv == ids_of(ids@),
            out@ == succ_indices(quests@, iv.take(i as int)),
        decreases ids.len() - i,
    {
        assert(iv.take(i + 1).drop_last() =~= iv.take(i as int));
        assert(iv.take(i + 1).last() == ids[i as int]@);
        let id = ids[i];
        let mut k: usize = 0;
        while k < quests.len() && quests[k].id.as_u64() != id.as_u64()
            invariant
                k <= quests.len(),
                qids == quest_ids(quests@),
                forall|t: int| 0 <= t < k ==> qids[t] != id@,
            decreases quests.len() - k,
        {
            k = k + 1;
        }
        proof {
            lemma_first_index(qids, id@);
            if k < quests.len() {
                assert(qids[k as int] == id@);
                let p = first_index(qids, id@);
                if p < k {
                    assert(qids[p] != id@);
                }
                if p > k {
                    lemma_first_index_min(qids, id@, k as int);
                }
            } else {
                if qids.contains(id@) {
                    let t = choose|t: int| 0 <= t < qids.len() && qids[t] == id@;
                }
            }
        }
        if k < quests.len() {
            out.push(k);
        }
        i = i + 1;
    }
    assert(iv.take(ids.len() as int) =~= iv);
    out
}

proof fn lemma_first_index_min(s: Seq<u64>, x: u64, k: int)
    requires
        0 <= k < s.len(),
        s[k] == x,
    ensures
        0 <= first_index(s, x) <= k,
    decreases s.len(),
{
    if s[0] != x {
        lemma_first_index_min(s.drop_first(), x, k - 1);
    }
}

/// The prerequisite graph of `db` on the positions of its quests.
fn prereq_adjacency(db: &QuestDatabase) -> (r: Vec<Vec<usize>>)
    ensures
        graph_of(&r) == prereq_graph(db.quests@),
        graph_wf(graph_of(&r)),
{
    let ghost qs = db.quests@;
    let mut adj: Vec<Vec<usize>> = Vec::new();
    let mut i: usize = 0;
    while i < db.quests.len()
        invariant
            i <= db.quests.len(),
            qs == db.quests@,
            adj.len() == i,
            forall|t: int| 0 <= t < i ==> (#[trigger] adj[t])@ == succ_indices(qs, succ_ids(qs[t])),
        decreases db.quests.len() - i,
    {
        let (required, optional) = quest_dependencies(&db.quests[i]);
        let mut all = required;
        let ghost rv = ids_of(all@);
        let mut opt = optional;
        let ghost ov = ids_of(opt@);
        all.append(&mut opt);
        assert(ids_of(all@) =~= rv + ov);
        adj.push(indices_of(&db.quests, &all));
        i = i + 1;
    }
    proof {
        assert(graph_of(&adj) =~= prereq_graph(qs));
        assert forall|x: int, j: int| 0 <= x < graph_of(&adj).len() && 0 <= j < graph_of(&adj)[x].len()
            implies #[trigger] graph_of(&adj)[x][j] < graph_of(&adj).len() by {
            lemma_succ_indices(qs, succ_ids(qs[x]));
            assert(succ_indices(qs, succ_ids(qs[x])).contains(graph_of(&adj)[x][j]));
        }
    }
    adj
}

proof fn lemma_unique(s: Seq<u64>, i: int, j: int)
    requires
        first_dup(s) < 0,
        0 <= i < j < s.len(),
    ensures
        s[i] != s[j],
    decreases s.len(),
{
    if j < s.len() - 1 {
        assert(s.drop_last()[i] == s[i]);
        assert(s.drop_last()[j] == s[j]);
        lemma_unique(s.drop_last(), i, j);
    } else {
        assert(s.drop_last()[i] == s[i]);
        if s[i] == s[j] {
            assert(s.drop_last().contains(s.last()));
        }
    }
}

/// A cycle of prerequisites among the quests of `db`, if there is one.
///
/// The search is depth-first over the quests in order; the cycle runs from
/// the quest that closed it, along the search path, to the quest whose
/// prerequisite reached back. XOR quests take no part, and prerequisites
/// that name no quest of `db` are passed over.
pub fn find_prerequisite_cycle(db: &QuestDatabase) -> (r: Option<Vec<QuestId>>)
    requires
        first_dup(quest_ids(db.quests@)) < 0,
    ensures
        r is Some ==> is_prereq_cycle(db.quests@, ids_of(r->0@)),
        r is None ==> forall|c: Seq<u64>| !#[trigger] is_prereq_cycle(db.quests@, c),
{
    let ghost qs = db.quests@;
    let ghost qids = quest_ids(qs);
    assert(qs.len() == db.quests.len());
    let adj = prereq_adjacency(db);
    let ghost g = graph_of(&adj);
    match find_cycle(&adj) {
        Some(c) => {
            let mut out: Vec<QuestId> = Vec::new();
            let mut k: usize = 0;
            while k < c.len()
                invariant
                    k <= c.len(),
                    g == prereq_graph(qs),
                    graph_wf(g),
                    is_cycle(g, c@),
                    qs == db.quests@,
                    out.len() == k,
                    forall|t: int| 0 <= t < k ==> (#[trigger] out[t]) == qs[c[t] as int].id,
                decreases c.len() - k,
            {
                assert(c[k as int] < g.len()) by {
                    if k < c.len() - 1 {
                        assert(has_edge(g, c[k as int] as int, c[k + 1] as int));
                    } else {
                        assert(has_edge(g, c@.last() as int, c[0] as int));
                    }
                }
                out.push(db.quests[c[k]].id);
                k = k + 1;
            }
            proof {
                let iv = ids_of(out@);
                assert forall|x: usize, y: usize| has_edge(g, x as int, y as int) implies prereq_edge(qs, qs[x as int].id@, qs[y as int].id@) by {
                    lemma_succ_indices(qs, succ_ids(qs[x as int]));
                    let b = choose|b: u64| succ_ids(qs[x as int]).contains(b) && first_index(qids, b) == y as int;
                    lemma_first_index(qids, b);
                    assert(qids[y as int] == b);
                }
                assert forall|t: int| 0 <= t < iv.len() - 1 implies #[trigger] prereq_edge(qs, iv[t], iv[t + 1]) by {
                    assert(has_edge(g, c[t] as int, c[t + 1] as int));
                    assert(iv[t] == qs[c[t] as int].id@);
                    assert(iv[t + 1] == qs[c[t + 1] as int].id@);
                }
                assert(has_edge(g, c@.last() as int, c[0] as int));
                assert(iv.last() == qs[c@.last() as int].id@);
            }
            Some(out)
        },
        None => {
            proof {
                assert forall|c: Seq<u64>| !#[trigger] is_prereq_cycle(qs, c) by {
                    if is_prereq_cycle(qs, c) {
                        let ic = c.map_values(|x: u64| first_index(qids, x) as usize);
                        assert forall|a: u64, b: u64| prereq_edge(qs, a, b) implies has_edge(g, first_index(qids, a), first_index(qids, b)) by {
                            let i = choose|i: int| 0 <= i < qs.len() && #[trigger] qs[i].id@ == a && succ_ids(qs[i]).contains(b) && qids.contains(b);
                            assert(qids[i] == a);
                            assert(qids.contains(a));
                            lemma_first_index(qids, a);
                            lemma_first_index(qids, b);
                            let p = first_index(qids, a);
                            if p != i {
                                if p < i {
                                    lemma_unique(qids, p, i);
                                } else {
                                    lemma_unique(qids, i, p);
                                }
                            }
                            lemma_succ_indices(qs, succ_ids(qs[i]));
                        }
                        assert forall|k: int| 0 <= k < ic.len() - 1 implies #[trigger] has_edge(g, ic[k] as int, ic[k + 1] as int) by {
                            assert(prereq_edge(qs, c[k], c[k + 1]));
                            lemma_first_index(qids, c[k]);
                            lemma_first_index(qids, c[k + 1]);
                        }
                        lemma_first_index(qids, c.last());
                        lemma_first_index(qids, c[0]);
                        assert(ic.last() == first_index(qids, c.last()) as usize);
                        assert(is_cycle(g, ic));
                    }
                }
            }
            None
        },
    }
}

/// A quest whose logic is XOR adds no edge: it gives no weight to any of
/// its prerequisites and takes no part in cycle detection.
pub proof fn lemma_xor_adds_nothing(q: Quest)
    requires
        is_xor_quest(q),
    ensures
        quest_edges(q).len() == 0,
        succ_ids(q).len() == 0,
{
}

/// The optional prerequisites of a quest share one unit of weight: each
/// required edge has group size one, and each optional edge has the number
/// of distinct optional prerequisites as its group size.
pub proof fn lemma_optional_weight_split(q: Quest)
    ensures
        quest_edges(q).len() == required_deps(q).len() + optional_deps(q).len(),
        forall|i: int| 0 <= i < required_deps(q).len() ==> (#[trigger] quest_edges(q)[i]).2 == 1,
        forall|i: int|
            required_deps(q).len() <= i < quest_edges(q).len() ==> (#[trigger] quest_edges(
                q,
            )[i]).2 == optional_deps(q).len(),
        forall|i: int|
            required_deps(q).len() <= i < quest_edges(q).len() ==> (#[trigger] quest_edges(
                q,
            )[i]).0 == optional_deps(q)[i - required_deps(q).len()],
{
    let r = required_deps(q).map_values(|p: u64| (p, q.id@, 1nat));
    let o = optional_deps(q).map_values(|p: u64| (p, q.id@, optional_deps(q).len()));
    assert forall|i: int| 0 <= i < required_deps(q).len() implies (#[trigger] quest_edges(q)[i]).2 == 1 by {
        assert(quest_edges(q)[i] == r[i]);
    }
    assert forall|i: int| required_deps(q).len() <= i < quest_edges(q).len() implies (#[trigger] quest_edges(q)[i]).2
        == optional_deps(q).len() by {
        assert(quest_edges(q)[i] == o[i - r.len()]);
    }
    assert forall|i: int| required_deps(q).len() <= i < quest_edges(q).len() implies (#[trigger] quest_edges(q)[i]).0
        == optional_deps(q)[i - required_deps(q).len()] by {
        assert(quest_edges(q)[i] == o[i - r.len()]);
    }
}

} // verus!
