//! Grouping parsed log entries by fingerprint: which entries share a
//! fingerprint, in what order, and which raw query serves as the example.
//! The duration figures of each group are rolled up by the caller from
//! the member entries.

use vstd::prelude::*;

use crate::fingerprint::{flatten_chars, flatten_spec, normalize_chars, normalize_spec};
use crate::parser::LogEntry;
use crate::text::{chars_of, string_of};

verus! {

/// `a` sorts strictly before `b` by code points, as `String`'s `Ord` does.
pub open spec fn lex_lt(a: Seq<char>, b: Seq<char>) -> bool
    decreases a.len(),
{
    if a.len() == 0 {
        b.len() > 0
    } else if b.len() == 0 {
        false
    } else if a[0] != b[0] {
        (a[0] as int) < (b[0] as int)
    } else {
        lex_lt(a.drop_first(), b.drop_first())
    }
}

pub proof fn lemma_lex_lt_irreflexive(a: Seq<char>)
    ensures
        !lex_lt(a, a),
    decreases a.len(),
{
    if a.len() > 0 {
        lemma_lex_lt_irreflexive(a.drop_first());
    }
}

pub proof fn lemma_lex_lt_total(a: Seq<char>, b: Seq<char>)
    ensures
        a == b || lex_lt(a, b) || lex_lt(b, a),
    decreases a.len(),
{
    if a.len() > 0 && b.len() > 0 && a[0] == b[0] {
        lemma_lex_lt_total(a.drop_first(), b.drop_first());
        if a.drop_first() == b.drop_first() {
            assert(a =~= seq![a[0]] + a.drop_first());
            assert(b =~= seq![b[0]] + b.drop_first());
        }
    } else if a.len() == 0 && b.len() == 0 {
        assert(a =~= b);
    } else if a.len() > 0 && b.len() > 0 {
        assert((a[0] as int) != (b[0] as int));
    }
}

pub proof fn lemma_lex_lt_transitive(a: Seq<char>, b: Seq<char>, c: Seq<char>)
    requires
        lex_lt(a, b),
        lex_lt(b, c),
    ensures
        lex_lt(a, c),
    decreases a.len(),
{
    if a.len() > 0 && b.len() > 0 && c.len() > 0 && a[0] == b[0] && b[0] == c[0] {
        lemma_lex_lt_transitive(a.drop_first(), b.drop_first(), c.drop_first());
    }
}

fn lex_lt_exec(a: &Vec<char>, b: &Vec<char>) -> (r: bool)
    ensures
        r == lex_lt(a@, b@),
{
    let mut k: usize = 0;
    assert(a@.skip(0) =~= a@ && b@.skip(0) =~= b@);
    while k < a.len() && k < b.len() && a[k] == b[k]
        invariant
            k <= a.len(),
            k <= b.len(),
            lex_lt(a@, b@) == lex_lt(a@.skip(k as int), b@.skip(k as int)),
        decreases a.len() - k,
    {
        assert(a@.skip(k as int).drop_first() =~= a@.skip(k + 1));
        assert(b@.skip(k as int).drop_first() =~= b@.skip(k + 1));
        k += 1;
    }
    if k == a.len() {
        k < b.len()
    } else if k == b.len() {
        false
    } else {
        a[k] < b[k]
    }
}

/// The entries that share one fingerprint.
pub struct QueryGroup {
    pub fingerprint: String,
    /// The first raw query seen with this fingerprint, flattened to one line.
    pub example: String,
    /// How many entries have this fingerprint.
    pub count: u64,
    /// The indices of those entries, in increasing order.
    pub members: Vec<usize>,
}

pub struct QueryGroupView {
    pub fingerprint: Seq<char>,
    pub example: Seq<char>,
    pub count: u64,
    pub members: Seq<usize>,
}

impl View for QueryGroup {
    type V = QueryGroupView;

    open spec fn view(&self) -> QueryGroupView {
        QueryGroupView {
            fingerprint: self.fingerprint@,
            example: self.example@,
            count: self.count,
            members: self.members@,
        }
    }
}

/// The queries of `entries`.
pub open spec fn queries(entries: Seq<LogEntry>) -> Seq<Seq<char>> {
    entries.map_values(|e: LogEntry| e.query@)
}

/// `g` is the group of fingerprint `g.fingerprint` among the first `n`
/// queries of `qs`: its members are exactly the indices below `n` of the
/// queries with that fingerprint, in increasing order, the count is their
/// number, and the example is the first of them, flattened.
pub open spec fn group_ok(qs: Seq<Seq<char>>, n: int, g: QueryGroupView) -> bool {
    &&& g.members.len() > 0
    &&& g.count == g.members.len()
    &&& forall|j: int, k: int| 0 <= j < k < g.members.len() ==> g.members[j] < g.members[k]
    &&& forall|j: int|
        0 <= j < g.members.len() ==> #[trigger] g.members[j] < n && normalize_spec(
            qs[g.members[j] as int],
        ) == g.fingerprint
    &&& forall|i: int|
        0 <= i < n && normalize_spec(#[trigger] qs[i]) == g.fingerprint ==> g.members.contains(
            i as usize,
        )
    &&& g.example == flatten_spec(qs[g.members[0] as int])
}

/// The groups of the first `n` queries of `qs`: one per fingerprint that
/// occurs, sorted by fingerprint.
pub open spec fn groups_ok(qs: Seq<Seq<char>>, n: int, gs: Seq<QueryGroupView>) -> bool {
    &&& forall|a: int, b: int|
        0 <= a < b < gs.len() ==> lex_lt(#[trigger] gs[a].fingerprint, #[trigger] gs[b].fingerprint)
    &&& forall|a: int| 0 <= a < gs.len() ==> group_ok(qs, n, #[trigger] gs[a])
    &&& forall|i: int|
        0 <= i < n ==> exists|a: int|
            0 <= a < gs.len() && #[trigger] gs[a].fingerprint == normalize_spec(#[trigger] qs[i])
}


/// Where `fp` goes among the sorted fingerprints `fps`: the first position
/// whose fingerprint does not sort before it, and whether it is `fp`.
fn find_position(fps: &Vec<Vec<char>>, fp: &Vec<char>) -> (r: (usize, bool))
    requires
        forall|a: int, b: int| 0 <= a < b < fps.len() ==> lex_lt(#[trigger] fps@[a]@, #[trigger] fps@[b]@),
    ensures
        r.0 <= fps.len(),
        forall|a: int| 0 <= a < r.0 ==> lex_lt(#[trigger] fps@[a]@, fp@),
        r.1 <==> (r.0 < fps.len() && fps@[r.0 as int]@ == fp@),
        !r.1 && r.0 < fps.len() ==> lex_lt(fp@, fps@[r.0 as int]@),
{
    let mut lo: usize = 0;
    let mut hi: usize = fps.len();
    while lo < hi
        invariant
            lo <= hi <= fps.len(),
            forall|a: int, b: int| 0 <= a < b < fps.len() ==> lex_lt(#[trigger] fps@[a]@, #[trigger] fps@[b]@),
            forall|a: int| 0 <= a < lo ==> lex_lt(#[trigger] fps@[a]@, fp@),
            forall|a: int| hi <= a < fps.len() ==> !lex_lt(#[trigger] fps@[a]@, fp@),
        decreases hi - lo,
    {
        let mid = lo + (hi - lo) / 2;
        if lex_lt_exec(&fps[mid], fp) {
            assert forall|a: int| 0 <= a < mid + 1 implies lex_lt(#[trigger] fps@[a]@, fp@) by {
                if a < mid {
                    lemma_lex_lt_transitive(fps@[a]@, fps@[mid as int]@, fp@);
                }
            }
            lo = mid + 1;
        } else {
            assert forall|a: int| mid <= a < fps.len() implies !lex_lt(#[trigger] fps@[a]@, fp@) by {
                if a > mid {
                    lemma_lex_lt_total(fps@[mid as int]@, fp@);
                    if lex_lt(fps@[a]@, fp@) {
                        if fps@[mid as int]@ == fp@ {
                            lemma_lex_lt_transitive(fp@, fps@[a]@, fp@);
                        } else {
                            lemma_lex_lt_transitive(fp@, fps@[mid as int]@, fps@[a]@);
                            lemma_lex_lt_transitive(fp@, fps@[a]@, fp@);
                        }
                        lemma_lex_lt_irreflexive(fp@);
                    }
                }
            }
            hi = mid;
        }
    }
    let p = lo;
    if p < fps.len() {
        let after = lex_lt_exec(fp, &fps[p]);
        proof {
            lemma_lex_lt_total(fps@[p as int]@, fp@);
            if after {
                lemma_lex_lt_irreflexive(fp@);
            }
        }
        (p, !after)
    } else {
        (p, false)
    }
}

proof fn lemma_sorted_distinct(gs: Seq<QueryGroupView>, a: int, b: int)
    requires
        forall|x: int, y: int|
            0 <= x < y < gs.len() ==> lex_lt(
                #[trigger] gs[x].fingerprint,
                #[trigger] gs[y].fingerprint,
            ),
        0 <= a < gs.len(),
        0 <= b < gs.len(),
        a != b,
    ensures
        gs[a].fingerprint != gs[b].fingerprint,
{
    if gs[a].fingerprint == gs[b].fingerprint {
        lemma_lex_lt_irreflexive(gs[a].fingerprint);
    }
}

/// A group stays the group of its fingerprint when a query with another
/// fingerprint is added.
proof fn lemma_group_unaffected(qs: Seq<Seq<char>>, i: usize, h: QueryGroupView)
    requires
        i < qs.len(),
        group_ok(qs, i as int, h),
        h.fingerprint != normalize_spec(qs[i as int]),
    ensures
        group_ok(qs, i + 1, h),
{
    assert forall|k: int|
        0 <= k < i + 1 && normalize_spec(#[trigger] qs[k]) == h.fingerprint implies h.members.contains(
        k as usize,
    ) by {
        if k == i {
            assert(false);
        }
    }
    assert forall|j: int| 0 <= j < h.members.len() implies #[trigger] h.members[j] < i + 1
        && normalize_spec(qs[h.members[j] as int]) == h.fingerprint by {
        assert(h.members[j] < i);
    }
}

/// The group of a fingerprint gains query `i` when `i` has it.
#[verifier::spinoff_prover]
proof fn lemma_group_grows(qs: Seq<Seq<char>>, i: usize, old: QueryGroupView, g: QueryGroupView)
    requires
        i < qs.len(),
        group_ok(qs, i as int, old),
        old.fingerprint == normalize_spec(qs[i as int]),
        g.fingerprint == old.fingerprint,
        g.example == old.example,
        g.members == old.members.push(i),
        g.count == g.members.len(),
    ensures
        group_ok(qs, i + 1, g),
{
    let n = old.members.len() as int;
    assert(g.members[n] == i);
    assert(g.members[0] == old.members[0]);
    assert forall|j: int, k: int| 0 <= j < k < g.members.len() implies g.members[j]
        < g.members[k] by {
        assert(g.members[j] == old.members[j]);
        assert(old.members[j] < i);
        if k < n {
            assert(g.members[k] == old.members[k]);
        }
    }
    assert forall|j: int| 0 <= j < g.members.len() implies #[trigger] g.members[j] < i + 1
        && normalize_spec(qs[g.members[j] as int]) == g.fingerprint by {
        if j < n {
            assert(g.members[j] == old.members[j]);
            assert(old.members[j] < i);
        }
    }
    assert forall|k: int|
        0 <= k < i + 1 && normalize_spec(#[trigger] qs[k]) == g.fingerprint implies g.members.contains(
        k as usize,
    ) by {
        if k < i {
            assert(old.members.contains(k as usize));
            let x = choose|x: int| 0 <= x < old.members.len() && old.members[x] == k as usize;
            assert(g.members[x] == k as usize);
        } else {
            assert(g.members[n] == k as usize);
        }
    }
}

/// A new group holding query `i` alone, when no earlier query has its
/// fingerprint.
proof fn lemma_group_new(qs: Seq<Seq<char>>, i: usize, g: QueryGroupView)
    requires
        i < qs.len(),
        forall|k: int| 0 <= k < i ==> normalize_spec(#[trigger] qs[k]) != g.fingerprint,
        g.fingerprint == normalize_spec(qs[i as int]),
        g.example == flatten_spec(qs[i as int]),
        g.members == seq![i],
        g.count == 1,
    ensures
        group_ok(qs, i + 1, g),
{
    assert forall|k: int|
        0 <= k < i + 1 && normalize_spec(#[trigger] qs[k]) == g.fingerprint implies g.members.contains(
        k as usize,
    ) by {
        assert(k == i);
        assert(g.members[0] == k as usize);
    }
}

/// Adding query `i` to the existing group at `p`.
#[verifier::spinoff_prover]
proof fn lemma_add_to_group(
    qs: Seq<Seq<char>>,
    i: usize,
    gs: Seq<QueryGroupView>,
    p: int,
    g: QueryGroupView,
)
    requires
        i < qs.len(),
        groups_ok(qs, i as int, gs),
        0 <= p < gs.len(),
        gs[p].fingerprint == normalize_spec(qs[i as int]),
        g.fingerprint == gs[p].fingerprint,
        g.example == gs[p].example,
        g.members == gs[p].members.push(i),
        g.count == g.members.len(),
    ensures
        groups_ok(qs, i + 1, gs.update(p, g)),
{
    let gs2 = gs.update(p, g);
    assert forall|a: int| 0 <= a < gs2.len() implies group_ok(qs, i + 1, #[trigger] gs2[a]) by {
        assert(group_ok(qs, i as int, gs[a]));
        if a == p {
            lemma_group_grows(qs, i, gs[p], g);
        } else {
            lemma_sorted_distinct(gs, a, p);
            lemma_group_unaffected(qs, i, gs[a]);
        }
    }
    assert forall|k: int| 0 <= k < i + 1 implies exists|a: int|
        0 <= a < gs2.len() && #[trigger] gs2[a].fingerprint == normalize_spec(#[trigger] qs[k]) by {
        if k == i {
            assert(gs2[p].fingerprint == normalize_spec(qs[k]));
        } else {
            let a = choose|a: int|
                0 <= a < gs.len() && #[trigger] gs[a].fingerprint == normalize_spec(qs[k]);
            assert(gs2[a].fingerprint == gs[a].fingerprint);
        }
    }
}

/// Inserting the new group of query `i` at `p` keeps the fingerprints sorted.
proof fn lemma_insert_sorted(gs: Seq<QueryGroupView>, p: int, g: QueryGroupView)
    requires
        forall|x: int, y: int|
            0 <= x < y < gs.len() ==> lex_lt(
                #[trigger] gs[x].fingerprint,
                #[trigger] gs[y].fingerprint,
            ),
        0 <= p <= gs.len(),
        forall|a: int| 0 <= a < p ==> lex_lt(#[trigger] gs[a].fingerprint, g.fingerprint),
        p < gs.len() ==> lex_lt(g.fingerprint, gs[p].fingerprint),
    ensures
        forall|x: int, y: int|
            0 <= x < y < gs.insert(p, g).len() ==> lex_lt(
                #[trigger] gs.insert(p, g)[x].fingerprint,
                #[trigger] gs.insert(p, g)[y].fingerprint,
            ),
        forall|b: int| 0 <= b < gs.len() ==> #[trigger] gs[b].fingerprint != g.fingerprint,
{
    let gs2 = gs.insert(p, g);
    assert forall|b: int| 0 <= b < gs.len() implies #[trigger] gs[b].fingerprint != g.fingerprint by {
        lemma_lex_lt_irreflexive(g.fingerprint);
        if b > p {
            lemma_lex_lt_transitive(g.fingerprint, gs[p].fingerprint, gs[b].fingerprint);
        }
    }
    assert forall|x: int, y: int| 0 <= x < y < gs2.len() implies lex_lt(
        #[trigger] gs2[x].fingerprint,
        #[trigger] gs2[y].fingerprint,
    ) by {
        if y < p {
            assert(gs2[x] == gs[x] && gs2[y] == gs[y]);
        } else if y == p {
            assert(gs2[x] == gs[x]);
        } else if x == p {
            assert(gs2[y] == gs[y - 1]);
            if y - 1 > p {
                lemma_lex_lt_transitive(g.fingerprint, gs[p].fingerprint, gs[y - 1].fingerprint);
            }
        } else if x < p {
            assert(gs2[x] == gs[x] && gs2[y] == gs[y - 1]);
        } else {
            assert(gs2[x] == gs[x - 1] && gs2[y] == gs[y - 1]);
        }
    }
}

/// Starting a new group for query `i` at position `p`.
#[verifier::spinoff_prover]
proof fn lemma_new_group(qs: Seq<Seq<char>>, i: usize, gs: Seq<QueryGroupView>, p: int, g: QueryGroupView)
    requires
        i < qs.len(),
        groups_ok(qs, i as int, gs),
        0 <= p <= gs.len(),
        forall|a: int| 0 <= a < p ==> lex_lt(#[trigger] gs[a].fingerprint, g.fingerprint),
        p < gs.len() ==> lex_lt(g.fingerprint, gs[p].fingerprint),
        g.fingerprint == normalize_spec(qs[i as int]),
        g.example == flatten_spec(qs[i as int]),
        g.members == seq![i],
        g.count == 1,
    ensures
        groups_ok(qs, i + 1, gs.insert(p, g)),
{
    let gs2 = gs.insert(p, g);
    lemma_insert_sorted(gs, p, g);
    assert forall|k: int| 0 <= k < i implies normalize_spec(#[trigger] qs[k]) != g.fingerprint by {
        let b = choose|b: int| 0 <= b < gs.len() && #[trigger] gs[b].fingerprint == normalize_spec(qs[k]);
        assert(gs[b].fingerprint != g.fingerprint);
    }
    lemma_group_new(qs, i, g);
    assert forall|a: int| 0 <= a < gs2.len() implies group_ok(qs, i + 1, #[trigger] gs2[a]) by {
        if a != p {
            let b = if a < p {
                a
            } else {
                a - 1
            };
            assert(gs2[a] == gs[b]);
            assert(group_ok(qs, i as int, gs[b]));
            assert(gs[b].fingerprint != g.fingerprint);
            lemma_group_unaffected(qs, i, gs[b]);
        }
    }
    assert forall|k: int| 0 <= k < i + 1 implies exists|a: int|
        0 <= a < gs2.len() && #[trigger] gs2[a].fingerprint == normalize_spec(#[trigger] qs[k]) by {
        if k == i {
            assert(gs2[p].fingerprint == normalize_spec(qs[k]));
        } else {
            let a = choose|a: int|
                0 <= a < gs.len() && #[trigger] gs[a].fingerprint == normalize_spec(qs[k]);
            if a < p {
                assert(gs2[a] == gs[a]);
            } else {
                assert(gs2[a + 1] == gs[a]);
            }
        }
    }
}

/// The number of entries that the groups `gs` hold between them.
pub open spec fn total_count(gs: Seq<QueryGroupView>) -> int
    decreases gs.len(),
{
    if gs.len() == 0 {
        0
    } else {
        gs[0].members.len() + total_count(gs.drop_first())
    }
}

proof fn lemma_total_count_update(gs: Seq<QueryGroupView>, p: int, g: QueryGroupView)
    requires
        0 <= p < gs.len(),
    ensures
        total_count(gs.update(p, g)) == total_count(gs) - gs[p].members.len() + g.members.len(),
    decreases gs.len(),
{
    if p > 0 {
        assert(gs.update(p, g).drop_first() =~= gs.drop_first().update(p - 1, g));
        lemma_total_count_update(gs.drop_first(), p - 1, g);
    } else {
        assert(gs.update(p, g).drop_first() =~= gs.drop_first());
    }
}

proof fn lemma_total_count_insert(gs: Seq<QueryGroupView>, p: int, g: QueryGroupView)
    requires
        0 <= p <= gs.len(),
    ensures
        total_count(gs.insert(p, g)) == total_count(gs) + g.members.len(),
    decreases gs.len(),
{
    if p > 0 {
        assert(gs.insert(p, g).drop_first() =~= gs.drop_first().insert(p - 1, g));
        lemma_total_count_insert(gs.drop_first(), p - 1, g);
    } else {
        assert(gs.insert(p, g).drop_first() =~= gs);
    }
}

/// The groups and their fingerprints agree, and are the groups of the
/// first `n` queries of `qs`.
spec fn state_ok(qs: Seq<Seq<char>>, n: int, groups: Seq<QueryGroup>, fps: Seq<Vec<char>>) -> bool {
    &&& fps.len() == groups.len()
    &&& forall|a: int| 0 <= a < fps.len() ==> (#[trigger] fps[a])@ == groups[a]@.fingerprint
    &&& groups_ok(qs, n, groups.map_values(|g: QueryGroup| g@))
    &&& total_count(groups.map_values(|g: QueryGroup| g@)) == n
}

/// Adds query `i` to the group at `p`, which holds the queries with its
/// fingerprint.
#[verifier::spinoff_prover]
fn add_to_group(
    groups: &mut Vec<QueryGroup>,
    fps: &Vec<Vec<char>>,
    p: usize,
    i: usize,
    Ghost(qs): Ghost<Seq<Seq<char>>>,
)
    requires
        i < qs.len(),
        state_ok(qs, i as int, old(groups)@, fps@),
        p < old(groups)@.len(),
        old(groups)@[p as int]@.fingerprint == normalize_spec(qs[i as int]),
    ensures
        state_ok(qs, i + 1, final(groups)@, fps@),
{
    let ghost gs = groups@.map_values(|g: QueryGroup| g@);
    let ghost old_groups = groups@;
    let mut g = groups.remove(p);
    g.members.push(i);
    g.count = g.members.len() as u64;
    assert(g@.members == gs[p as int].members.push(i));
    groups.insert(p, g);
    proof {
        lemma_add_to_group(qs, i, gs, p as int, g@);
        lemma_total_count_update(gs, p as int, g@);
        assert(groups@.map_values(|g: QueryGroup| g@) =~= gs.update(p as int, g@));
        assert forall|a: int| 0 <= a < fps.len() implies (#[trigger] fps@[a])@
            == groups@[a]@.fingerprint by {
            assert(fps@[a]@ == old_groups[a]@.fingerprint);
            assert(gs[a] == old_groups[a]@);
        }
    }
}

/// Adds query `i`, whose characters are `q` and whose fingerprint is `fp`,
/// as a group of its own at `p`, the place of `fp` in the sorted
/// fingerprints.
#[verifier::spinoff_prover]
fn add_new_group(
    groups: &mut Vec<QueryGroup>,
    fps: &mut Vec<Vec<char>>,
    q: &Vec<char>,
    fp: Vec<char>,
    p: usize,
    i: usize,
    Ghost(qs): Ghost<Seq<Seq<char>>>,
)
    requires
        i < qs.len(),
        q@ == qs[i as int],
        fp@ == normalize_spec(qs[i as int]),
        state_ok(qs, i as int, old(groups)@, old(fps)@),
        p <= old(fps)@.len(),
        forall|a: int| 0 <= a < p ==> lex_lt(#[trigger] old(fps)@[a]@, fp@),
        p < old(fps)@.len() ==> lex_lt(fp@, old(fps)@[p as int]@),
    ensures
        state_ok(qs, i + 1, final(groups)@, final(fps)@),
{
    let ghost old_fps = fps@;
    assert forall|a: int| 0 <= a < p implies lex_lt(#[trigger] groups@[a]@.fingerprint, fp@) by {
        assert(old_fps[a]@ == groups@[a]@.fingerprint);
    }
    if p < fps.len() {
        assert(old_fps[p as int]@ == groups@[p as int]@.fingerprint);
    }
    let example = string_of(&flatten_chars(q));
    let fingerprint = string_of(&fp);
    let mut members: Vec<usize> = Vec::new();
    members.push(i);
    let g = QueryGroup { fingerprint, example, count: 1, members };
    assert(g@.members =~= seq![i]);
    let ghost old_groups = groups@;
    proof {
        lemma_state_new_group(qs, i, old_groups, old_fps, p as int, g, fp);
    }
    groups.insert(p, g);
    fps.insert(p, fp);
}

proof fn lemma_state_new_group(
    qs: Seq<Seq<char>>,
    i: usize,
    groups: Seq<QueryGroup>,
    fps: Seq<Vec<char>>,
    p: int,
    g: QueryGroup,
    fp: Vec<char>,
)
    requires
        i < qs.len(),
        state_ok(qs, i as int, groups, fps),
        fp@ == g@.fingerprint,
        0 <= p <= groups.len(),
        forall|a: int| 0 <= a < p ==> lex_lt(#[trigger] groups[a]@.fingerprint, g@.fingerprint),
        p < groups.len() ==> lex_lt(g@.fingerprint, groups[p]@.fingerprint),
        g@.fingerprint == normalize_spec(qs[i as int]),
        g@.example == flatten_spec(qs[i as int]),
        g@.members == seq![i],
        g@.count == 1,
    ensures
        state_ok(qs, i + 1, groups.insert(p, g), fps.insert(p, fp)),
{
    let gs = groups.map_values(|g: QueryGroup| g@);
    assert forall|a: int| 0 <= a < p implies lex_lt(#[trigger] gs[a].fingerprint, g@.fingerprint) by {
        assert(gs[a] == groups[a]@);
    }
    if p < groups.len() {
        assert(gs[p] == groups[p]@);
    }
    lemma_new_group(qs, i, gs, p, g@);
    lemma_total_count_insert(gs, p, g@);
    assert(groups.insert(p, g).map_values(|g: QueryGroup| g@) =~= gs.insert(p, g@));
    let fps2 = fps.insert(p, fp);
    assert forall|a: int| 0 <= a < fps2.len() implies (#[trigger] fps2[a])@
        == groups.insert(p, g)[a]@.fingerprint by {
        if a < p {
            assert(fps[a]@ == groups[a]@.fingerprint);
        } else if a > p {
            assert(fps[a - 1]@ == groups[a - 1]@.fingerprint);
        }
    }
}

/// Adds query `i`, whose characters are `q`, to the groups of the queries
/// before it.
fn add_query(
    groups: &mut Vec<QueryGroup>,
    fps: &mut Vec<Vec<char>>,
    q: &Vec<char>,
    i: usize,
    Ghost(qs): Ghost<Seq<Seq<char>>>,
)
    requires
        i < qs.len(),
        q@ == qs[i as int],
        state_ok(qs, i as int, old(groups)@, old(fps)@),
    ensures
        state_ok(qs, i + 1, final(groups)@, final(fps)@),
{
    let ghost gs = groups@.map_values(|g: QueryGroup| g@);
    let ghost old_fps = fps@;
    let fp = normalize_chars(q);
    assert forall|a: int, b: int| 0 <= a < b < fps.len() implies lex_lt(
        #[trigger] fps@[a]@,
        #[trigger] fps@[b]@,
    ) by {
        assert(old_fps[a]@ == gs[a].fingerprint && old_fps[b]@ == gs[b].fingerprint);
    }
    let (p, found) = find_position(fps, &fp);
    if found {
        assert(old_fps[p as int]@ == groups@[p as int]@.fingerprint);
        add_to_group(groups, fps, p, i, Ghost(qs));
    } else {
        add_new_group(groups, fps, q, fp, p, i, Ghost(qs));
    }
}

/// Group `entries` by fingerprint. The groups come sorted by fingerprint
/// text; callers sort them into whatever presentation order they want.
/// Between them the groups hold every entry once.
pub fn aggregate(entries: &[LogEntry]) -> (r: Vec<QueryGroup>)
    ensures
        groups_ok(queries(entries@), entries@.len() as int, r@.map_values(|g: QueryGroup| g@)),
        total_count(r@.map_values(|g: QueryGroup| g@)) == entries@.len(),
{
    let ghost qs = queries(entries@);
    let mut groups: Vec<QueryGroup> = Vec::new();
    let mut fps: Vec<Vec<char>> = Vec::new();
    let mut i: usize = 0;
    assert(groups@.map_values(|g: QueryGroup| g@) =~= seq![]);
    assert(total_count(Seq::<QueryGroupView>::empty()) == 0);
    while i < entries.len()
        invariant
            i <= entries.len(),
            qs == queries(entries@),
            qs.len() == entries@.len(),
            state_ok(qs, i as int, groups@, fps@),
        decreases entries.len() - i,
    {
        let q = chars_of(entries[i].query.as_str());
        assert(q@ == qs[i as int]);
        add_query(&mut groups, &mut fps, &q, i, Ghost(qs));
        i += 1;
    }
    groups
}

} // verus!
