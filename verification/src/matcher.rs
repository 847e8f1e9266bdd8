//! Fuzzy matching of a query against a target text.
//!
//! A query matches a target when its characters appear, in order but not
//! necessarily contiguously, inside the target, compared case-insensitively.
//! The matcher picks the leftmost such embedding and scores it by how many
//! adjacent query characters landed on adjacent target characters, so that
//! compact matches rank above scattered ones and an exact match of the whole
//! target attains the highest score possible for its query.

use vstd::prelude::*;

use crate::chars::{lower, lower_char, usize_view};

verus! {

/// The position of the first character at or after `from` in `t` that equals
/// `c` under case folding.
pub open spec fn first_match_at(t: Seq<char>, c: char, from: int) -> Option<int>
    decreases t.len() - from,
{
    if from < 0 || from >= t.len() {
        None
    } else if lower(t[from]) == lower(c) {
        Some(from)
    } else {
        first_match_at(t, c, from + 1)
    }
}

/// The leftmost embedding of `q` into `t` at or after position `from`:
/// each query character is matched, case-insensitively, at the earliest
/// target position still available.
pub open spec fn leftmost_embedding(t: Seq<char>, q: Seq<char>, from: int) -> Option<Seq<int>>
    decreases q.len(),
{
    if q.len() == 0 {
        Some(Seq::empty())
    } else {
        match first_match_at(t, q[0], from) {
            None => None,
            Some(j) => match leftmost_embedding(t, q.skip(1), j + 1) {
                None => None,
                Some(rest) => Some(seq![j] + rest),
            },
        }
    }
}

/// Whether `q` fuzzy-matches `t`: its characters occur in `t`, in order,
/// case-insensitively.
pub open spec fn fuzzy_matches(t: Seq<char>, q: Seq<char>) -> bool {
    leftmost_embedding(t, q, 0) is Some
}

/// The positions the matcher consumed in `t` for query `q`.
pub open spec fn match_positions(t: Seq<char>, q: Seq<char>) -> Seq<int> {
    leftmost_embedding(t, q, 0)->Some_0
}

/// The score of an embedding: the number of adjacent pairs, i.e. of query
/// characters that landed directly after their predecessor.
pub open spec fn embedding_score(m: Seq<int>) -> int
    decreases m.len(),
{
    if m.len() < 2 {
        0
    } else {
        embedding_score(m.drop_last()) + if m[m.len() - 2] + 1 == m[m.len() - 1] {
            1int
        } else {
            0int
        }
    }
}

/// The score `q` attains against `t` (meaningful when `fuzzy_matches(t, q)`).
pub open spec fn match_score(t: Seq<char>, q: Seq<char>) -> int {
    embedding_score(match_positions(t, q))
}

/// `m` embeds `q` into `t` starting no earlier than `from`: strictly
/// increasing positions within bounds whose characters agree with the query
/// under case folding.
pub open spec fn is_embedding(t: Seq<char>, q: Seq<char>, from: int, m: Seq<int>) -> bool {
    &&& m.len() == q.len()
    &&& forall|k: int| 0 <= k < m.len() ==> from <= #[trigger] m[k] < t.len()
    &&& forall|k: int| 0 <= k < m.len() - 1 ==> #[trigger] m[k] < m[k + 1]
    &&& forall|k: int| 0 <= k < m.len() ==> lower(t[#[trigger] m[k]]) == lower(q[k])
}

/// The embedding the matcher returns is an embedding in the declarative
/// sense.
pub proof fn lemma_leftmost_is_embedding(t: Seq<char>, q: Seq<char>, from: int)
    requires
        leftmost_embedding(t, q, from) is Some,
    ensures
        is_embedding(t, q, from, leftmost_embedding(t, q, from)->Some_0),
    decreases q.len(),
{
    if q.len() == 0 {
    } else {
        let j = first_match_at(t, q[0], from)->Some_0;
        lemma_first_match_at_props(t, q[0], from);
        lemma_leftmost_is_embedding(t, q.skip(1), j + 1);
        let rest = leftmost_embedding(t, q.skip(1), j + 1)->Some_0;
        let m = leftmost_embedding(t, q, from)->Some_0;
        assert(m == seq![j] + rest);
        assert forall|k: int| 0 <= k < m.len() implies lower(t[#[trigger] m[k]]) == lower(
            q[k],
        ) by {
            if k > 0 {
                assert(m[k] == rest[k - 1]);
                assert(q[k] == q.skip(1)[k - 1]);
            }
        }
        assert forall|k: int| 0 <= k < m.len() - 1 implies #[trigger] m[k] < m[k + 1] by {
            if k > 0 {
                assert(m[k] == rest[k - 1] && m[k + 1] == rest[k]);
            } else {
                assert(m[0] == j && m[1] == rest[0]);
            }
        }
    }
}

/// What `first_match_at` finds is a case-folded occurrence, and nothing
/// earlier is one.
pub proof fn lemma_first_match_at_props(t: Seq<char>, c: char, from: int)
    requires
        0 <= from,
    ensures
        first_match_at(t, c, from) matches Some(j) ==> from <= j < t.len() && lower(t[j]) == lower(
            c,
        ) && forall|p: int| from <= p < j ==> lower(t[#[trigger] trig(p)]) != lower(c),
        first_match_at(t, c, from) is None ==> forall|p: int|
            from <= p < t.len() ==> lower(t[#[trigger] trig(p)]) != lower(c),
    decreases t.len() - from,
{
    if from < 0 || from >= t.len() {
    } else if lower(t[from]) == lower(c) {
    } else {
        lemma_first_match_at_props(t, c, from + 1);
    }
}

/// Identity marker used to give quantifiers over plain integers a trigger.
pub open spec fn trig(i: int) -> int {
    i
}

/// If some embedding of `q` into `t` from `from` exists, the leftmost search
/// finds one.
pub proof fn lemma_embedding_implies_leftmost(t: Seq<char>, q: Seq<char>, from: int, m: Seq<int>)
    requires
        0 <= from,
        is_embedding(t, q, from, m),
    ensures
        leftmost_embedding(t, q, from) is Some,
    decreases q.len(),
{
    if q.len() == 0 {
    } else {
        lemma_first_match_at_props(t, q[0], from);
        assert(lower(t[m[0]]) == lower(q[0]));
        assert(first_match_at(t, q[0], from) is Some) by {
            if first_match_at(t, q[0], from) is None {
                assert(lower(t[trig(m[0])]) != lower(q[0]));
            }
        }
        let j = first_match_at(t, q[0], from)->Some_0;
        assert(j <= m[0]) by {
            if j > m[0] {
                assert(lower(t[trig(m[0])]) != lower(q[0]));
            }
        }
        let m2 = m.skip(1);
        assert(is_embedding(t, q.skip(1), j + 1, m2)) by {
            assert forall|k: int| 0 <= k < m2.len() implies j + 1 <= #[trigger] m2[k]
                < t.len() by {
                assert(m2[k] == m[k + 1]);
                if k == 0 {
                    assert(m[0] < m[1]);
                } else {
                    lemma_embedding_increasing(m, 0, k + 1);
                }
            }
            assert forall|k: int| 0 <= k < m2.len() - 1 implies #[trigger] m2[k] < m2[k + 1] by {
                assert(m2[k] == m[k + 1] && m2[k + 1] == m[k + 2]);
            }
            assert forall|k: int| 0 <= k < m2.len() implies lower(t[#[trigger] m2[k]]) == lower(
                q.skip(1)[k],
            ) by {
                assert(m2[k] == m[k + 1] && q.skip(1)[k] == q[k + 1]);
            }
        }
        lemma_embedding_implies_leftmost(t, q.skip(1), j + 1, m2);
    }
}

/// Strict monotonicity of an embedding extends from adjacent positions to
/// any pair of positions.
proof fn lemma_embedding_increasing(m: Seq<int>, k1: int, k2: int)
    requires
        forall|k: int| 0 <= k < m.len() - 1 ==> #[trigger] m[k] < m[k + 1],
        0 <= k1 < k2 < m.len(),
    ensures
        m[k1] < m[k2],
    decreases k2 - k1,
{
    if k1 + 1 < k2 {
        lemma_embedding_increasing(m, k1 + 1, k2);
    }
}

/// A query fuzzy-matches a target exactly when some case-insensitive,
/// order-preserving embedding of it into the target exists.
pub proof fn lemma_match_iff_embedding(t: Seq<char>, q: Seq<char>)
    ensures
        fuzzy_matches(t, q) <==> exists|m: Seq<int>| is_embedding(t, q, 0, m),
{
    if fuzzy_matches(t, q) {
        lemma_leftmost_is_embedding(t, q, 0);
        let m = leftmost_embedding(t, q, 0)->Some_0;
        assert(is_embedding(t, q, 0, m));
    }
    if exists|m: Seq<int>| is_embedding(t, q, 0, m) {
        let m = choose|m: Seq<int>| is_embedding(t, q, 0, m);
        lemma_embedding_implies_leftmost(t, q, 0, m);
    }
}

/// No embedding scores above `len - 1`, and one whose positions are all
/// adjacent attains exactly that.
pub proof fn lemma_score_bounds(m: Seq<int>)
    ensures
        m.len() == 0 ==> embedding_score(m) == 0,
        embedding_score(m) <= m.len() - 1 || m.len() == 0,
        0 <= embedding_score(m),
        (forall|k: int| 0 <= k < m.len() - 1 ==> #[trigger] m[k] + 1 == m[k + 1]) ==> m.len() == 0
            || embedding_score(m) == m.len() - 1,
    decreases m.len(),
{
    if m.len() < 2 {
    } else {
        lemma_score_bounds(m.drop_last());
        if forall|k: int| 0 <= k < m.len() - 1 ==> #[trigger] m[k] + 1 == m[k + 1] {
            assert forall|k: int| 0 <= k < m.drop_last().len() - 1 implies #[trigger] m.drop_last()[k]
                + 1 == m.drop_last()[k + 1] by {
                assert(m[k] + 1 == m[k + 1]);
            }
            assert(m[m.len() - 2] + 1 == m[m.len() - 1]);
        }
    }
}

/// An embedding with a gap scores strictly below `len - 1`.
pub proof fn lemma_gap_lowers_score(m: Seq<int>, g: int)
    requires
        0 <= g < m.len() - 1,
        m[g] + 1 != m[g + 1],
        forall|k: int| 0 <= k < m.len() - 1 ==> #[trigger] m[k] < m[k + 1],
    ensures
        embedding_score(m) < m.len() - 1,
    decreases m.len(),
{
    lemma_score_bounds(m.drop_last());
    if g == m.len() - 2 {
    } else {
        lemma_gap_lowers_score(m.drop_last(), g);
    }
}

/// A fully contiguous match outranks any match with a gap: if the matcher's
/// chosen positions for `q1` in `t1` are all adjacent while those for `q2`
/// in `t2` leave a gap, and the queries are equally long, the first score is
/// strictly higher.
pub proof fn lemma_contiguous_outranks_gapped(t1: Seq<char>, q1: Seq<char>, t2: Seq<char>, q2: Seq<char>)
    requires
        q1.len() == q2.len(),
        fuzzy_matches(t1, q1),
        fuzzy_matches(t2, q2),
        forall|k: int|
            0 <= k < match_positions(t1, q1).len() - 1 ==> #[trigger] match_positions(t1, q1)[k]
                + 1 == match_positions(t1, q1)[k + 1],
        exists|g: int|
            0 <= g < match_positions(t2, q2).len() - 1 && #[trigger] match_positions(t2, q2)[g] + 1
                != match_positions(t2, q2)[g + 1],
    ensures
        match_score(t1, q1) > match_score(t2, q2),
{
    let m1 = match_positions(t1, q1);
    let m2 = match_positions(t2, q2);
    lemma_leftmost_is_embedding(t1, q1, 0);
    lemma_leftmost_is_embedding(t2, q2, 0);
    assert(m1.len() == q1.len() && m2.len() == q2.len());
    lemma_score_bounds(m1);
    let g = choose|g: int| 0 <= g < m2.len() - 1 && #[trigger] m2[g] + 1 != m2[g + 1];
    lemma_gap_lowers_score(m2, g);
}

/// Run the fuzzy matcher: the leftmost case-insensitive embedding of
/// `query` into `target`, with its score, or `None` when the query is not a
/// subsequence of the target under case folding.
pub fn fuzzy_indices(target: &Vec<char>, query: &Vec<char>) -> (r: Option<(usize, Vec<usize>)>)
    ensures
        r is Some <==> fuzzy_matches(target@, query@),
        r matches Some((score, m)) ==> {
            &&& usize_view(m@) == match_positions(target@, query@)
            &&& score == match_score(target@, query@)
        },
{
    let mut positions: Vec<usize> = Vec::new();
    let mut ti: usize = 0;
    let mut qi: usize = 0;
    let tn = target.len();
    let qn = query.len();
    proof {
        assert(query@.skip(0) =~= query@);
        if leftmost_embedding(target@, query@, 0) is Some {
            let m = leftmost_embedding(target@, query@, 0)->Some_0;
            assert(usize_view(positions@) + m =~= m);
        }
    }
    while qi < qn
        invariant
            tn == target@.len(),
            qn == query@.len(),
            qi <= qn,
            ti <= tn,
            positions@.len() == qi,
            leftmost_embedding(target@, query@, 0) matches Some(m) ==> m == usize_view(positions@) + leftmost_embedding(target@, query@.skip(qi as int), ti as int)->Some_0,
            leftmost_embedding(target@, query@, 0) is Some <==> leftmost_embedding(
                target@,
                query@.skip(qi as int),
                ti as int,
            ) is Some,
        decreases qn - qi,
    {
        let qc = query[qi];
        let ghost ti0 = ti as int;
        // scan for the next target position matching the current query character
        while ti < tn && lower_char(target[ti]) != lower_char(qc)
            invariant
                tn == target@.len(),
                ti0 <= ti <= tn,
                first_match_at(target@, qc, ti as int) == first_match_at(target@, qc, ti0),
            decreases tn - ti,
        {
            ti += 1;
        }
        proof {
            assert(query@.skip(qi as int).len() == qn - qi);
            assert(query@.skip(qi as int)[0] == query@[qi as int]);
        }
        if ti == tn {
            proof {
                assert(first_match_at(target@, qc, ti0) is None);
                assert(leftmost_embedding(target@, query@.skip(qi as int), ti0) is None);
            }
            return None;
        }
        proof {
            assert(first_match_at(target@, qc, ti as int) == Some(ti as int));
            assert(first_match_at(target@, qc, ti0) == Some(ti as int));
            assert(query@.skip(qi as int).skip(1) =~= query@.skip(qi + 1));
            let tail = leftmost_embedding(target@, query@.skip(qi + 1), ti + 1);
            assert(leftmost_embedding(target@, query@.skip(qi as int), ti0) == (match tail {
                Option::None => Option::<Seq<int>>::None,
                Option::Some(rest) => Option::Some(seq![ti as int] + rest),
            }));
        }
        let ghost old_positions = positions@;
        positions.push(ti);
        proof {
            if leftmost_embedding(target@, query@.skip(qi + 1), ti + 1) is Some {
                let rest = leftmost_embedding(target@, query@.skip(qi + 1), ti + 1)->Some_0;
                assert(usize_view(positions@) + rest =~= usize_view(old_positions) + (seq![
                    ti as int,
                ] + rest));
            }
        }
        ti += 1;
        qi += 1;
    }
    proof {
        assert(query@.skip(qn as int) =~= Seq::<char>::empty());
        assert(leftmost_embedding(target@, query@.skip(qn as int), ti as int) == Some(
            Seq::<int>::empty(),
        ));
        if leftmost_embedding(target@, query@, 0) is Some {
            let m = leftmost_embedding(target@, query@, 0)->Some_0;
            assert(m =~= usize_view(positions@));
        }
    }
    let score = count_adjacent(&positions);
    Some((score, positions))
}

/// The number of adjacent pairs among the matched positions.
fn count_adjacent(m: &Vec<usize>) -> (score: usize)
    ensures
        score == embedding_score(usize_view(m@)),
{
    let mut score: usize = 0;
    let mut i: usize = 1;
    proof {
        lemma_score_bounds(usize_view(m@));
    }
    if m.len() < 2 {
        return 0;
    }
    while i < m.len()
        invariant
            1 <= i <= m@.len(),
            score == embedding_score(usize_view(m@.take(i as int))),
            score < i,
        decreases m@.len() - i,
    {
        proof {
            let prev = usize_view(m@.take(i as int));
            let cur = usize_view(m@.take(i + 1));
            assert(cur.drop_last() =~= prev);
            lemma_score_bounds(cur);
        }
        if m[i] > m[i - 1] && m[i] - m[i - 1] == 1 {
            score += 1;
        }
        i += 1;
    }
    proof {
        assert(m@.take(m@.len() as int) =~= m@);
    }
    score
}

/// On a target that the query equals character for character under case
/// folding, the matcher consumes exactly positions `k, k+1, ...` of the
/// suffix it is searching.
proof fn lemma_exact_suffix_positions(t: Seq<char>, q: Seq<char>, k: int)
    requires
        q.len() == t.len(),
        forall|j: int| 0 <= j < q.len() ==> lower(#[trigger] q[j]) == lower(t[j]),
        0 <= k <= q.len(),
    ensures
        leftmost_embedding(t, q.skip(k), k) == Some(Seq::new((q.len() - k) as nat, |i: int| i + k)),
    decreases q.len() - k,
{
    if k == q.len() {
        assert(q.skip(k) =~= Seq::<char>::empty());
        assert(Seq::new((q.len() - k) as nat, |i: int| i + k) =~= Seq::<int>::empty());
    } else {
        assert(q.skip(k)[0] == q[k]);
        assert(first_match_at(t, q.skip(k)[0], k) == Some(k));
        lemma_exact_suffix_positions(t, q, k + 1);
        assert(q.skip(k).skip(1) =~= q.skip(k + 1));
        let rest = Seq::new((q.len() - k - 1) as nat, |i: int| i + k + 1);
        assert(leftmost_embedding(t, q.skip(k), k) == Some(seq![k] + rest));
        assert(seq![k] + rest =~= Seq::new((q.len() - k) as nat, |i: int| i + k));
    }
}

/// A query equal to the whole target (under case folding) matches it with
/// every position adjacent to the previous one and so attains the highest
/// score any embedding of that length can have.
pub proof fn lemma_exact_query_attains_max(t: Seq<char>, q: Seq<char>)
    requires
        q.len() == t.len(),
        forall|j: int| 0 <= j < q.len() ==> lower(#[trigger] q[j]) == lower(t[j]),
    ensures
        fuzzy_matches(t, q),
        forall|k: int| 0 <= k < match_positions(t, q).len() ==> #[trigger] match_positions(t, q)[k] == k,
        q.len() > 0 ==> match_score(t, q) == q.len() - 1,
        forall|m: Seq<int>| m.len() == q.len() ==> embedding_score(m) <= match_score(t, q) || q.len() == 0,
{
    lemma_exact_suffix_positions(t, q, 0);
    assert(q.skip(0) =~= q);
    let pos = match_positions(t, q);
    assert(pos == Seq::new(q.len() as nat, |i: int| i));
    if q.len() > 0 {
        assert forall|k: int| 0 <= k < pos.len() - 1 implies #[trigger] pos[k] + 1 == pos[k + 1] by {}
        lemma_score_bounds(pos);
    }
    assert forall|m: Seq<int>| m.len() == q.len() implies embedding_score(m) <= match_score(t, q)
        || q.len() == 0 by {
        lemma_score_bounds(m);
    }
}

} // verus!
