//! Merging per-source results and keeping the nearest records.
use vstd::prelude::*;
use vstd::seq_lib::lemma_flatten_concat;
use crate::record::{Record, RecordView, views_of};

verus! {

/// How many records an answer holds at most.
pub const ANSWER_SIZE: usize = 5;

/// Places `x` in front of the first record of `s` that is at least as far
/// away as `x`, and after every record that is nearer.
pub open spec fn place_first(s: Seq<RecordView>, x: RecordView) -> Seq<RecordView>
    decreases s.len(),
{
    if s.len() == 0 {
        seq![x]
    } else if x.distance <= s[0].distance {
        seq![x] + s
    } else {
        seq![s[0]] + place_first(s.drop_first(), x)
    }
}

/// The records of `s` ordered by distance, records at equal distance keeping
/// their order in `s`.
pub open spec fn by_distance(s: Seq<RecordView>) -> Seq<RecordView>
    decreases s.len(),
{
    if s.len() == 0 {
        s
    } else {
        place_first(by_distance(s.drop_first()), s[0])
    }
}

/// Whether `s` is ordered by non-decreasing distance.
pub open spec fn sorted_by_distance(s: Seq<RecordView>) -> bool {
    forall|i: int, j: int| 0 <= i < j < s.len() ==> s[i].distance <= s[j].distance
}

/// The records at distance `d`.
pub open spec fn at_distance(d: int) -> spec_fn(RecordView) -> bool {
    |r: RecordView| r.distance == d
}

/// The nearest records of `s`: the first `ANSWER_SIZE` of `by_distance(s)`.
pub open spec fn nearest(s: Seq<RecordView>) -> Seq<RecordView> {
    let t = by_distance(s);
    if t.len() <= ANSWER_SIZE {
        t
    } else {
        t.take(ANSWER_SIZE as int)
    }
}

/// The answer built from per-source results: their concatenation in source
/// order, ordered by distance, cut to the nearest `ANSWER_SIZE`.
pub open spec fn ranked(parts: Seq<Seq<RecordView>>) -> Seq<RecordView> {
    nearest(parts.flatten())
}

/// The models of per-source result lists.
pub open spec fn contents(parts: Seq<Vec<Record>>) -> Seq<Seq<RecordView>> {
    parts.map_values(|p: Vec<Record>| views_of(p@))
}

proof fn lemma_place_first_at(s: Seq<RecordView>, x: RecordView, j: int)
    requires
        0 <= j <= s.len(),
        forall|k: int| 0 <= k < j ==> #[trigger] s[k].distance < x.distance,
        j < s.len() ==> x.distance <= s[j].distance,
    ensures
        place_first(s, x) == s.insert(j, x),
    decreases j,
{
    if j == 0 {
        assert(place_first(s, x) =~= s.insert(0, x));
    } else {
        let t = s.drop_first();
        assert forall|k: int| 0 <= k < j - 1 implies #[trigger] t[k].distance < x.distance by {
            assert(t[k] == s[k + 1]);
        }
        lemma_place_first_at(t, x, j - 1);
        assert(place_first(s, x) =~= s.insert(j, x));
    }
}

proof fn lemma_place_first_len(s: Seq<RecordView>, x: RecordView)
    ensures
        place_first(s, x).len() == s.len() + 1,
    decreases s.len(),
{
    if s.len() > 0 {
        lemma_place_first_len(s.drop_first(), x);
    }
}

proof fn lemma_by_distance_len(s: Seq<RecordView>)
    ensures
        by_distance(s).len() == s.len(),
    decreases s.len(),
{
    if s.len() > 0 {
        lemma_by_distance_len(s.drop_first());
        lemma_place_first_len(by_distance(s.drop_first()), s[0]);
    }
}

proof fn lemma_place_first_facts(s: Seq<RecordView>, x: RecordView)
    ensures
        forall|y: RecordView| #[trigger] place_first(s, x).contains(y) <==> (y == x || s.contains(y)),
        sorted_by_distance(s) ==> sorted_by_distance(place_first(s, x)),
        forall|d: int| #[trigger]
            place_first(s, x).filter(at_distance(d)) == if x.distance == d {
                seq![x] + s.filter(at_distance(d))
            } else {
                s.filter(at_distance(d))
            },
    decreases s.len(),
{
    broadcast use Seq::lemma_filter_prepend;

    let p = place_first(s, x);
    if s.len() == 0 {
        assert(p =~= seq![x] + s);
        assert forall|y: RecordView| #[trigger] p.contains(y) <==> (y == x || s.contains(y)) by {
            if y == x {
                assert(p[0] == y);
            }
        }
    } else if x.distance <= s[0].distance {
        assert forall|y: RecordView| #[trigger] p.contains(y) <==> (y == x || s.contains(y)) by {
            if p.contains(y) {
                let k = choose|k: int| 0 <= k < p.len() && p[k] == y;
                if k > 0 {
                    assert(s[k - 1] == y);
                }
            }
            if s.contains(y) {
                let k = choose|k: int| 0 <= k < s.len() && s[k] == y;
                assert(p[k + 1] == y);
            }
            if y == x {
                assert(p[0] == y);
            }
        }
    } else {
        let t = s.drop_first();
        lemma_place_first_facts(t, x);
        let q = place_first(t, x);
        assert(s =~= seq![s[0]] + t);
        assert forall|y: RecordView| #[trigger] p.contains(y) <==> (y == x || s.contains(y)) by {
            if p.contains(y) {
                let k = choose|k: int| 0 <= k < p.len() && p[k] == y;
                if k > 0 {
                    assert(q[k - 1] == y);
                    assert(q.contains(y));
                    if t.contains(y) {
                        let i = choose|i: int| 0 <= i < t.len() && t[i] == y;
                        assert(s[i + 1] == y);
                    }
                } else {
                    assert(s[0] == y);
                }
            }
            if s.contains(y) {
                let k = choose|k: int| 0 <= k < s.len() && s[k] == y;
                if k > 0 {
                    assert(t[k - 1] == y);
                    assert(q.contains(y));
                    let i = choose|i: int| 0 <= i < q.len() && q[i] == y;
                    assert(p[i + 1] == y);
                } else {
                    assert(p[0] == y);
                }
            }
            if y == x {
                assert(q.contains(x));
                let i = choose|i: int| 0 <= i < q.len() && q[i] == y;
                assert(p[i + 1] == y);
            }
        }
        if sorted_by_distance(s) {
            assert forall|i: int, j: int| 0 <= i < j < p.len() implies p[i].distance
                <= p[j].distance by {
                if i > 0 {
                    assert(p[i] == q[i - 1]);
                    assert(p[j] == q[j - 1]);
                } else {
                    let y = p[j];
                    assert(q[j - 1] == y);
                    assert(q.contains(y));
                    if y != x {
                        let k = choose|k: int| 0 <= k < t.len() && t[k] == y;
                        assert(s[k + 1] == y);
                    }
                }
            }
        }
    }
}

proof fn lemma_by_distance_facts(s: Seq<RecordView>)
    ensures
        by_distance(s).len() == s.len(),
        forall|y: RecordView| #[trigger] by_distance(s).contains(y) <==> s.contains(y),
        sorted_by_distance(by_distance(s)),
        forall|d: int| #[trigger] by_distance(s).filter(at_distance(d)) == s.filter(at_distance(d)),
    decreases s.len(),
{
    broadcast use Seq::lemma_filter_prepend;

    lemma_by_distance_len(s);
    if s.len() > 0 {
        let t = s.drop_first();
        lemma_by_distance_facts(t);
        lemma_place_first_facts(by_distance(t), s[0]);
        assert(s =~= seq![s[0]] + t);
        assert forall|y: RecordView| #[trigger] by_distance(s).contains(y) <==> s.contains(y) by {
            if t.contains(y) {
                let k = choose|k: int| 0 <= k < t.len() && t[k] == y;
                assert(s[k + 1] == y);
            }
            if s.contains(y) {
                let k = choose|k: int| 0 <= k < s.len() && s[k] == y;
                if k > 0 {
                    assert(t[k - 1] == y);
                }
            }
        }
        assert forall|d: int| #[trigger] by_distance(s).filter(at_distance(d)) == s.filter(
            at_distance(d),
        ) by {
            assert(by_distance(t).filter(at_distance(d)) == t.filter(at_distance(d)));
        }
    } else {
        assert(sorted_by_distance(by_distance(s)));
    }
}

/// Orders `v` by distance, keeping the order of records at equal distance.
pub fn sort_by_distance(v: Vec<Record>) -> (r: Vec<Record>)
    ensures
        views_of(r@) == by_distance(views_of(v@)),
{
    let ghost all = views_of(v@);
    let mut rest = v;
    let mut out: Vec<Record> = Vec::new();
    proof {
        assert(all.skip(all.len() as int) =~= Seq::<RecordView>::empty());
    }
    while rest.len() > 0
        invariant
            rest@.len() <= all.len(),
            views_of(rest@) == all.take(rest@.len() as int),
            views_of(out@) == by_distance(all.skip(rest@.len() as int)),
        decreases rest@.len(),
    {
        let ghost n = rest@.len() as int;
        let ghost old_rest = rest@;
        let x = match rest.pop() {
            Some(x) => x,
            None => {
                return out;
            },
        };
        proof {
            assert(views_of(old_rest)[n - 1] == old_rest[n - 1]@);
            assert(all.take(n)[n - 1] == all[n - 1]);
            assert(x@ == all[n - 1]);
            assert(views_of(rest@) =~= all.take(n - 1));
            assert(all.skip(n - 1).drop_first() =~= all.skip(n));
            assert(all.skip(n - 1)[0] == x@);
        }
        let mut j: usize = 0;
        while j < out.len() && out[j].distance < x.distance
            invariant
                0 <= j <= out@.len(),
                forall|k: int| 0 <= k < j ==> #[trigger] out@[k].distance < x.distance,
            decreases out@.len() - j,
        {
            j = j + 1;
        }
        proof {
            let s = views_of(out@);
            assert forall|k: int| 0 <= k < j implies #[trigger] s[k].distance < x@.distance by {
                assert(s[k] == out@[k]@);
            }
            lemma_place_first_at(s, x@, j as int);
        }
        let ghost before = out@;
        out.insert(j, x);
        proof {
            assert(views_of(out@) =~= views_of(before).insert(j as int, x@));
        }
    }
    proof {
        assert(all.skip(0) =~= all);
    }
    out
}

/// Concatenates per-source results, orders them by distance (records at equal
/// distance keep the order of the concatenation) and keeps the nearest
/// `ANSWER_SIZE`.
pub fn rank_records(parts: Vec<Vec<Record>>) -> (r: Vec<Record>)
    ensures
        views_of(r@) == ranked(contents(parts@)),
        r@.len() <= ANSWER_SIZE,
{
    let ghost whole = contents(parts@);
    let mut rest = parts;
    let mut all: Vec<Record> = Vec::new();
    proof {
        assert(whole.skip(0) =~= whole);
    }
    while rest.len() > 0
        invariant
            rest@.len() <= whole.len(),
            contents(rest@) == whole.skip(whole.len() - rest@.len()),
            views_of(all@) + contents(rest@).flatten() == whole.flatten(),
        decreases rest@.len(),
    {
        let ghost before_all = all@;
        let ghost before_rest = rest@;
        let mut part = rest.remove(0);
        proof {
            assert(contents(rest@) =~= contents(before_rest).drop_first());
            assert(contents(before_rest)[0] == views_of(part@));
        }
        all.append(&mut part);
        proof {
            assert(views_of(all@) =~= views_of(before_all) + contents(before_rest)[0]);
            assert(contents(rest@) =~= whole.skip(whole.len() - rest@.len()));
            assert(views_of(all@) + contents(rest@).flatten() =~= views_of(before_all) + contents(
                before_rest,
            ).flatten());
        }
    }
    proof {
        assert(contents(rest@) =~= Seq::<Seq<RecordView>>::empty());
        assert(views_of(all@) =~= whole.flatten());
    }
    let mut sorted = sort_by_distance(all);
    proof {
        lemma_by_distance_len(whole.flatten());
    }
    let ghost s = sorted@;
    sorted.truncate(ANSWER_SIZE);
    proof {
        if s.len() > ANSWER_SIZE {
            assert(views_of(sorted@) =~= views_of(s).take(ANSWER_SIZE as int));
        }
    }
    sorted
}

/// The answer is ordered by non-decreasing distance, and it is the head of an
/// ordering of all merged records (the per-source lists concatenated in
/// source order) in which, for every distance, the records at that distance
/// appear exactly as they do in the concatenation.
pub proof fn law_ranked_order(parts: Seq<Seq<RecordView>>)
    ensures
        sorted_by_distance(ranked(parts)),
        ranked(parts) == by_distance(parts.flatten()).take(ranked(parts).len() as int),
        by_distance(parts.flatten()).len() == parts.flatten().len(),
        sorted_by_distance(by_distance(parts.flatten())),
        forall|d: int| #[trigger]
            by_distance(parts.flatten()).filter(at_distance(d)) == parts.flatten().filter(
                at_distance(d),
            ),
{
    let t = by_distance(parts.flatten());
    lemma_by_distance_facts(parts.flatten());
    assert(t.take(t.len() as int) =~= t);
}

/// The answer never holds more than `ANSWER_SIZE` records.
pub proof fn law_ranked_len(parts: Seq<Seq<RecordView>>)
    ensures
        ranked(parts).len() <= ANSWER_SIZE,
{
    lemma_by_distance_len(parts.flatten());
}

/// A source that contributes no records leaves the answer as the other
/// sources alone make it.
pub proof fn law_empty_part_is_neutral(parts: Seq<Seq<RecordView>>, i: int)
    requires
        0 <= i <= parts.len(),
    ensures
        ranked(parts.insert(i, Seq::empty())) == ranked(parts),
{
    let a = parts.take(i);
    let b = parts.skip(i);
    assert(parts =~= a + b);
    assert(parts.insert(i, Seq::empty()) =~= a + (seq![Seq::<RecordView>::empty()] + b));
    lemma_flatten_concat(a, b);
    lemma_flatten_concat(a, seq![Seq::<RecordView>::empty()] + b);
    lemma_flatten_concat(seq![Seq::<RecordView>::empty()], b);
    seq![Seq::<RecordView>::empty()].lemma_flatten_singleton();
    assert(parts.insert(i, Seq::empty()).flatten() =~= parts.flatten());
}

/// Every record of the merged list comes from one of the parts.
pub proof fn lemma_flatten_member(parts: Seq<Seq<RecordView>>, y: RecordView)
    requires
        parts.flatten().contains(y),
    ensures
        exists|i: int, j: int| 0 <= i < parts.len() && 0 <= j < parts[i].len() && parts[i][j] == y,
    decreases parts.len(),
{
    let f = parts.flatten();
    let k = choose|k: int| 0 <= k < f.len() && f[k] == y;
    let first = parts[0];
    let rest = parts.drop_first();
    if k < first.len() {
        assert(parts[0][k] == y);
    } else {
        assert(rest.flatten()[k - first.len()] == y);
        lemma_flatten_member(rest, y);
        let (i, j) = choose|i: int, j: int|
            0 <= i < rest.len() && 0 <= j < rest[i].len() && rest[i][j] == y;
        assert(parts[i + 1][j] == y);
    }
}

/// Every record of the answer is one of the merged records.
pub proof fn lemma_ranked_member(parts: Seq<Seq<RecordView>>, k: int)
    requires
        0 <= k < ranked(parts).len(),
    ensures
        exists|i: int, j: int|
            0 <= i < parts.len() && 0 <= j < parts[i].len() && parts[i][j] == ranked(parts)[k],
{
    let t = by_distance(parts.flatten());
    lemma_by_distance_facts(parts.flatten());
    let y = ranked(parts)[k];
    assert(t[k] == y);
    assert(t.contains(y));
    lemma_flatten_member(parts, y);
}

} // verus!
