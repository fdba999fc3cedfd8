//! Retention pruning of old backup records.
//!
//! Given the directory names found under a world's backup root, the planner
//! keeps only names that parse as record names, orders them chronologically,
//! and selects the oldest for deletion so that at most `retain_count - 1`
//! pre-existing records remain before the new record is added.  Names that
//! do not parse are never selected and never counted.
use crate::record_name::key_exec;
use crate::record_name::key_of;
use crate::record_name::name_fields;
use crate::record_name::parse_name;
use crate::record_name::parse_name_exec;
use vstd::prelude::*;

verus! {

/// A pruning candidate: a record-directory name and its chronological key.
pub struct Rec {
    pub name: Vec<char>,
    pub key: i128,
}

/// Spec-level content of a candidate.
pub open spec fn rec_repr(r: Rec) -> (Seq<char>, int) {
    (r.name@, r.key as int)
}

pub open spec fn recs_repr(v: Seq<Rec>) -> Seq<(Seq<char>, int)> {
    v.map_values(|r: Rec| rec_repr(r))
}

/// The parseable names with their keys, in input order.
pub open spec fn records_of(names: Seq<Seq<char>>) -> Seq<(Seq<char>, int)>
    decreases names.len(),
{
    if names.len() == 0 {
        Seq::empty()
    } else {
        let rest = records_of(names.drop_first());
        if parse_name(names[0]) is Some {
            seq![(names[0], key_of(name_fields(names[0])))] + rest
        } else {
            rest
        }
    }
}

/// Every element is a parseable name paired with its own key.
pub open spec fn rec_ok(r: (Seq<char>, int)) -> bool {
    parse_name(r.0) is Some && r.1 == key_of(name_fields(r.0))
}

pub open spec fn all_rec_ok(s: Seq<(Seq<char>, int)>) -> bool {
    forall|i: int| 0 <= i < s.len() ==> rec_ok(#[trigger] s[i])
}

/// Ascending by key.
pub open spec fn sorted_by_key(s: Seq<(Seq<char>, int)>) -> bool {
    forall|i: int, j: int| 0 <= i < j < s.len() ==> s[i].1 <= s[j].1
}

/// Inserts before the first strictly larger key, after equal keys.
pub open spec fn insert_sorted(x: (Seq<char>, int), s: Seq<(Seq<char>, int)>) -> Seq<
    (Seq<char>, int),
>
    decreases s.len(),
{
    if s.len() == 0 {
        seq![x]
    } else if x.1 < s[0].1 {
        seq![x] + s
    } else {
        seq![s[0]] + insert_sorted(x, s.drop_first())
    }
}

/// Stable insertion sort by key.
pub open spec fn sort_by_key(s: Seq<(Seq<char>, int)>) -> Seq<(Seq<char>, int)>
    decreases s.len(),
{
    if s.len() == 0 {
        s
    } else {
        insert_sorted(s.last(), sort_by_key(s.drop_last()))
    }
}

/// How many of the `count` pre-existing records must be deleted to leave at
/// most `retain_count - 1`; a retention count of zero keeps only the new
/// record, as if it were one.
pub open spec fn prune_count(count: int, retain_count: int) -> int {
    let keep = if retain_count >= 1 {
        retain_count - 1
    } else {
        0
    };
    if count > keep {
        count - keep
    } else {
        0
    }
}

/// The names the pruning step deletes, oldest first.
pub open spec fn prune_plan(names: Seq<Seq<char>>, retain_count: int) -> Seq<Seq<char>> {
    let recs = records_of(names);
    let sorted = sort_by_key(recs);
    sorted.subrange(0, prune_count(recs.len() as int, retain_count)).map_values(
        |r: (Seq<char>, int)| r.0,
    )
}

proof fn lemma_insert_sorted(x: (Seq<char>, int), s: Seq<(Seq<char>, int)>)
    requires
        sorted_by_key(s),
    ensures
        sorted_by_key(insert_sorted(x, s)),
        insert_sorted(x, s).to_multiset() == s.to_multiset().insert(x),
        insert_sorted(x, s).len() == s.len() + 1,
        all_rec_ok(s) && rec_ok(x) ==> all_rec_ok(insert_sorted(x, s)),
    decreases s.len(),
{
    broadcast use vstd::seq_lib::group_to_multiset_ensures;

    let out = insert_sorted(x, s);
    if s.len() == 0 {
        assert(out =~= Seq::<(Seq<char>, int)>::empty().push(x));
        assert(Seq::<(Seq<char>, int)>::empty().to_multiset() =~= vstd::multiset::Multiset::<
            (Seq<char>, int),
        >::empty());
    } else if x.1 < s[0].1 {
        assert(out == seq![x] + s);
        assert(forall|i: int| 0 <= i < s.len() ==> out[i + 1] == s[i]);
        assert(sorted_by_key(out)) by {
            assert(forall|j: int| 1 <= j < out.len() ==> out[j] == s[j - 1]);
            assert(forall|j: int| 1 <= j < out.len() ==> out[0].1 <= (#[trigger] out[j]).1);
        }
        assert(out.to_multiset() == s.to_multiset().insert(x)) by {
            assert(seq![x] + s =~= s.insert(0, x));
            vstd::seq_lib::to_multiset_insert(s, 0, x);
        }
        if all_rec_ok(s) && rec_ok(x) {
            assert forall|i: int| 0 <= i < out.len() implies rec_ok(#[trigger] out[i]) by {
                if i > 0 {
                    assert(out[i] == s[i - 1]);
                }
            }
        }
    } else {
        let rest = s.drop_first();
        assert(sorted_by_key(rest)) by {
            assert(forall|i: int| 0 <= i < rest.len() ==> rest[i] == s[i + 1]);
        }
        lemma_insert_sorted(x, rest);
        let sub = insert_sorted(x, rest);
        assert(out == seq![s[0]] + sub);
        assert(forall|i: int| 0 <= i < sub.len() ==> out[i + 1] == sub[i]);
        assert(sorted_by_key(out)) by {
            assert(forall|j: int| 1 <= j < out.len() ==> out[j] == sub[j - 1]);
            // s[0] is a lower bound of rest and of x.
            assert(forall|i: int| 0 <= i < rest.len() ==> s[0].1 <= (#[trigger] rest[i]).1) by {
                assert(forall|i: int| 0 <= i < rest.len() ==> rest[i] == s[i + 1]);
            }
            assert forall|j: int| 1 <= j < out.len() implies out[0].1 <= (#[trigger] out[j]).1 by {
                assert(out[j] == sub[j - 1]);
                assert(sub.to_multiset().contains(sub[j - 1]));
                assert(sub.to_multiset() == rest.to_multiset().insert(x));
                if sub[j - 1] != x {
                    assert(rest.to_multiset().contains(sub[j - 1]));
                    assert(rest.contains(sub[j - 1]));
                }
            }
        }
        assert(out.to_multiset() == s.to_multiset().insert(x)) by {
            assert(seq![s[0]] + sub =~= sub.insert(0, s[0]));
            vstd::seq_lib::to_multiset_insert(sub, 0, s[0]);
            assert(seq![s[0]] + rest =~= s);
            assert(seq![s[0]] + rest =~= rest.insert(0, s[0]));
            vstd::seq_lib::to_multiset_insert(rest, 0, s[0]);
            assert(out.to_multiset() =~= s.to_multiset().insert(x));
        }
        if all_rec_ok(s) && rec_ok(x) {
            assert(all_rec_ok(rest)) by {
                assert(forall|i: int| 0 <= i < rest.len() ==> rest[i] == s[i + 1]);
            }
            assert forall|i: int| 0 <= i < out.len() implies rec_ok(#[trigger] out[i]) by {
                if i > 0 {
                    assert(out[i] == sub[i - 1]);
                }
            }
        }
    }
}

pub proof fn lemma_sort_by_key(s: Seq<(Seq<char>, int)>)
    ensures
        sorted_by_key(sort_by_key(s)),
        sort_by_key(s).to_multiset() == s.to_multiset(),
        sort_by_key(s).len() == s.len(),
        all_rec_ok(s) ==> all_rec_ok(sort_by_key(s)),
    decreases s.len(),
{
    broadcast use vstd::seq_lib::group_to_multiset_ensures;

    if s.len() == 0 {
    } else {
        let pre = s.drop_last();
        assert(all_rec_ok(s) ==> all_rec_ok(pre) && rec_ok(s.last())) by {
            assert(forall|i: int| 0 <= i < pre.len() ==> pre[i] == s[i]);
        }
        lemma_sort_by_key(pre);
        lemma_insert_sorted(s.last(), sort_by_key(pre));
        assert(pre.push(s.last()) =~= s);
        assert(pre.push(s.last()).to_multiset() == pre.to_multiset().insert(s.last()));
    }
}

proof fn lemma_records_snoc(names: Seq<Seq<char>>, n: Seq<char>)
    ensures
        records_of(names.push(n)) == records_of(names) + (if parse_name(n) is Some {
            seq![(n, key_of(name_fields(n)))]
        } else {
            Seq::<(Seq<char>, int)>::empty()
        }),
    decreases names.len(),
{
    let tail: Seq<(Seq<char>, int)> = if parse_name(n) is Some {
        seq![(n, key_of(name_fields(n)))]
    } else {
        Seq::<(Seq<char>, int)>::empty()
    };
    if names.len() == 0 {
        assert(names.push(n)[0] == n);
        assert(names.push(n).drop_first() =~= names);
        if parse_name(n) is Some {
            assert(records_of(names.push(n)) == seq![(n, key_of(name_fields(n)))] + records_of(
                names,
            ));
            assert(seq![(n, key_of(name_fields(n)))] + records_of(names) =~= records_of(names)
                + tail);
        } else {
            assert(records_of(names.push(n)) == records_of(names));
            assert(records_of(names) =~= records_of(names) + tail);
        }
    } else {
        assert(names.push(n).drop_first() =~= names.drop_first().push(n));
        lemma_records_snoc(names.drop_first(), n);
        assert(names.push(n)[0] == names[0]);
        if parse_name(names[0]) is Some {
            let h = seq![(names[0], key_of(name_fields(names[0])))];
            assert(records_of(names.push(n)) == h + (records_of(names.drop_first()) + tail));
            assert(h + (records_of(names.drop_first()) + tail) =~= (h + records_of(
                names.drop_first(),
            )) + tail);
        }
    }
}

proof fn lemma_records_ok(names: Seq<Seq<char>>)
    ensures
        all_rec_ok(records_of(names)),
        records_of(names).len() <= names.len(),
    decreases names.len(),
{
    if names.len() > 0 {
        lemma_records_ok(names.drop_first());
        let rest = records_of(names.drop_first());
        if parse_name(names[0]) is Some {
            let out = records_of(names);
            assert(out == seq![(names[0], key_of(name_fields(names[0])))] + rest);
            assert forall|i: int| 0 <= i < out.len() implies rec_ok(#[trigger] out[i]) by {
                if i > 0 {
                    assert(out[i] == rest[i - 1]);
                }
            }
        }
    }
}

/// Retention, as properties of the pruning plan: only parseable names are
/// deleted; exactly `count - min(count, retain_count - 1)` of the `count`
/// parseable records are deleted; the deleted ones are the oldest, so every
/// record kept has a key at least as large as every record deleted.
pub proof fn lemma_retention(names: Seq<Seq<char>>, retain_count: int)
    ensures
        ({
            let recs = records_of(names);
            let sorted = sort_by_key(recs);
            let ndel = prune_count(recs.len() as int, retain_count);
            let plan = prune_plan(names, retain_count);
            &&& 0 <= ndel <= recs.len()
            &&& plan.len() == ndel
            &&& ({
                let keep = if retain_count >= 1 {
                    retain_count - 1
                } else {
                    0
                };
                recs.len() - ndel == if recs.len() > keep {
                    keep
                } else {
                    recs.len() as int
                }
            })
            &&& forall|i: int| 0 <= i < plan.len() ==> parse_name(#[trigger] plan[i]) is Some
            &&& forall|i: int, j: int|
                0 <= i < ndel <= j < sorted.len() ==> sorted[i].1 <= sorted[j].1
            &&& sorted.to_multiset() == recs.to_multiset()
            &&& forall|i: int| 0 <= i < plan.len() ==> plan[i] == sorted.subrange(0, ndel)[i].0
        }),
{
    let recs = records_of(names);
    let sorted = sort_by_key(recs);
    let ndel = prune_count(recs.len() as int, retain_count);
    lemma_records_ok(names);
    lemma_sort_by_key(recs);
    let plan = prune_plan(names, retain_count);
    assert(plan.len() == ndel);
    assert forall|i: int| 0 <= i < plan.len() implies parse_name(#[trigger] plan[i]) is Some by {
        assert(plan[i] == sorted.subrange(0, ndel)[i].0);
        assert(sorted.subrange(0, ndel)[i] == sorted[i]);
        assert(rec_ok(sorted[i]));
    }
}

proof fn lemma_records_from(names: Seq<Seq<char>>)
    ensures
        forall|j: int|
            0 <= j < records_of(names).len() ==> names.contains(
                (#[trigger] records_of(names)[j]).0,
            ),
    decreases names.len(),
{
    if names.len() > 0 {
        lemma_records_from(names.drop_first());
        let tail = names.drop_first();
        let rest = records_of(tail);
        let out = records_of(names);
        assert forall|j: int| 0 <= j < out.len() implies names.contains((#[trigger] out[j]).0) by {
            if parse_name(names[0]) is Some && j == 0 {
                assert(out[0].0 == names[0]);
                assert(names[0] == names[0]);
            } else {
                let jr = if parse_name(names[0]) is Some {
                    j - 1
                } else {
                    j
                };
                assert(out[j] == rest[jr]);
                assert(tail.contains(rest[jr].0));
                let i = choose|i: int| 0 <= i < tail.len() && tail[i] == rest[jr].0;
                assert(names[i + 1] == rest[jr].0);
            }
        }
    }
}

/// Every name the pruning plan selects is one of the given names.
pub proof fn lemma_prune_plan_from(names: Seq<Seq<char>>, retain_count: int)
    ensures
        forall|i: int|
            0 <= i < prune_plan(names, retain_count).len() ==> names.contains(
                #[trigger] prune_plan(names, retain_count)[i],
            ),
{
    broadcast use vstd::seq_lib::group_to_multiset_ensures;

    let recs = records_of(names);
    lemma_sort_by_key(recs);
    lemma_records_from(names);
    let sorted = sort_by_key(recs);
    let plan = prune_plan(names, retain_count);
    assert forall|i: int| 0 <= i < plan.len() implies names.contains(#[trigger] plan[i]) by {
        let nd = prune_count(recs.len() as int, retain_count);
        assert(plan[i] == sorted.subrange(0, nd)[i].0);
        assert(sorted.subrange(0, nd)[i] == sorted[i]);
        assert(sorted.contains(sorted[i]));
        assert(sorted.to_multiset().count(sorted[i]) > 0);
        assert(recs.to_multiset().count(sorted[i]) > 0);
        assert(recs.contains(sorted[i]));
        let j = choose|j: int| 0 <= j < recs.len() && recs[j] == sorted[i];
        assert(names.contains(recs[j].0));
    }
}

/// Plans the pruning step: of the given directory names, those to delete,
/// oldest first.
pub fn plan_prune(names: &Vec<Vec<char>>, retain_count: usize) -> (dels: Vec<Vec<char>>)
    ensures
        dels@.map_values(|n: Vec<char>| n@) == prune_plan(
            names@.map_values(|n: Vec<char>| n@),
            retain_count as int,
        ),
{
    let ghost names_v = names@.map_values(|n: Vec<char>| n@);
    // Parseable names with their keys, in input order.
    let mut recs: Vec<Rec> = Vec::new();
    let mut i: usize = 0;
    proof {
        assert(names_v.subrange(0, 0) =~= Seq::<Seq<char>>::empty());
        assert(recs_repr(recs@) =~= records_of(names_v.subrange(0, 0)));
    }
    while i < names.len()
        invariant
            i <= names@.len(),
            names_v == names@.map_values(|n: Vec<char>| n@),
            recs_repr(recs@) == records_of(names_v.subrange(0, i as int)),
        decreases names@.len() - i,
    {
        let ghost pre = names_v.subrange(0, i as int);
        let name = &names[i];
        match parse_name_exec(name) {
            Some(ts) => {
                let k = key_exec(&ts);
                recs.push(Rec { name: clone_chars(name), key: k });
            },
            None => {},
        }
        proof {
            lemma_records_snoc(pre, names_v[i as int]);
            assert(pre.push(names_v[i as int]) =~= names_v.subrange(0, i as int + 1));
            assert(recs_repr(recs@) =~= records_of(names_v.subrange(0, i as int + 1)));
        }
        i += 1;
    }
    proof {
        assert(names_v.subrange(0, names_v.len() as int) =~= names_v);
    }
    // Stable insertion sort, ascending by key.
    let mut sorted: Vec<Rec> = Vec::new();
    let mut t: usize = 0;
    proof {
        assert(recs@.subrange(0, 0) =~= Seq::<Rec>::empty());
        assert(recs_repr(sorted@) =~= sort_by_key(recs_repr(recs@.subrange(0, 0))));
        lemma_sort_by_key(recs_repr(recs@.subrange(0, 0)));
    }
    while t < recs.len()
        invariant
            t <= recs@.len(),
            recs_repr(sorted@) == sort_by_key(recs_repr(recs@.subrange(0, t as int))),
            sorted_by_key(recs_repr(sorted@)),
        decreases recs@.len() - t,
    {
        let x = &recs[t];
        let mut j: usize = 0;
        while j < sorted.len() && sorted[j].key <= x.key
            invariant
                j <= sorted@.len(),
                forall|q: int| 0 <= q < j ==> recs_repr(sorted@)[q].1 <= rec_repr(*x).1,
            decreases sorted@.len() - j,
        {
            j += 1;
        }
        let item = Rec { name: clone_chars(&x.name), key: x.key };
        proof {
            assert(rec_repr(item) == rec_repr(recs@[t as int]));
        }
        sorted.insert(j, item);
        proof {
            let ghost pre = recs_repr(recs@.subrange(0, t as int));
            let ghost srt = sort_by_key(pre);
            lemma_insert_at(rec_repr(recs@[t as int]), srt, j as int);
            assert(recs@.subrange(0, t as int).push(recs@[t as int]) =~= recs@.subrange(
                0,
                t as int + 1,
            ));
            assert(recs_repr(recs@.subrange(0, t as int + 1)).drop_last() =~= pre);
            assert(recs_repr(recs@.subrange(0, t as int + 1)).last() == rec_repr(recs@[t as int]));
            assert(recs_repr(sorted@) =~= insert_sorted(rec_repr(recs@[t as int]), srt));
            lemma_sort_by_key(recs_repr(recs@.subrange(0, t as int + 1)));
        }
        t += 1;
    }
    proof {
        assert(recs@.subrange(0, recs@.len() as int) =~= recs@);
    }
    // The oldest beyond the retention bound.
    let keep: usize = if retain_count >= 1 {
        retain_count - 1
    } else {
        0
    };
    let ndel: usize = if recs.len() > keep {
        recs.len() - keep
    } else {
        0
    };
    let mut dels: Vec<Vec<char>> = Vec::new();
    let mut d: usize = 0;
    proof {
        lemma_sort_by_key(recs_repr(recs@));
        assert(sorted@.len() == recs@.len());
        assert(dels@.map_values(|n: Vec<char>| n@) =~= recs_repr(sorted@).subrange(
            0,
            0,
        ).map_values(|r: (Seq<char>, int)| r.0));
    }
    while d < ndel
        invariant
            d <= ndel <= sorted@.len(),
            dels@.map_values(|n: Vec<char>| n@) == recs_repr(sorted@).subrange(
                0,
                d as int,
            ).map_values(|r: (Seq<char>, int)| r.0),
        decreases ndel - d,
    {
        dels.push(clone_chars(&sorted[d].name));
        proof {
            let m = recs_repr(sorted@).subrange(0, d as int).map_values(
                |r: (Seq<char>, int)| r.0,
            );
            assert(m.push(sorted@[d as int].name@) =~= recs_repr(sorted@).subrange(
                0,
                d as int + 1,
            ).map_values(|r: (Seq<char>, int)| r.0));
        }
        d += 1;
    }
    proof {
        assert(dels@.map_values(|n: Vec<char>| n@) =~= prune_plan(names_v, retain_count as int));
    }
    dels
}

proof fn lemma_insert_at(x: (Seq<char>, int), s: Seq<(Seq<char>, int)>, j: int)
    requires
        sorted_by_key(s),
        0 <= j <= s.len(),
        forall|q: int| 0 <= q < j ==> s[q].1 <= x.1,
        j < s.len() ==> x.1 < s[j].1,
    ensures
        insert_sorted(x, s) == s.subrange(0, j) + seq![x] + s.subrange(j, s.len() as int),
    decreases j,
{
    if j == 0 {
        if s.len() == 0 {
            assert(insert_sorted(x, s) =~= s.subrange(0, 0) + seq![x] + s.subrange(
                0,
                s.len() as int,
            ));
        } else {
            assert(insert_sorted(x, s) == seq![x] + s);
            assert(seq![x] + s =~= s.subrange(0, 0) + seq![x] + s.subrange(0, s.len() as int));
        }
    } else {
        let rest = s.drop_first();
        assert(sorted_by_key(rest)) by {
            assert(forall|i: int| 0 <= i < rest.len() ==> rest[i] == s[i + 1]);
        }
        assert(forall|q: int| 0 <= q < j - 1 ==> rest[q].1 <= x.1) by {
            assert(forall|i: int| 0 <= i < rest.len() ==> rest[i] == s[i + 1]);
        }
        assert(j - 1 < rest.len() ==> x.1 < rest[j - 1].1) by {
            if j - 1 < rest.len() {
                assert(rest[j - 1] == s[j]);
            }
        }
        lemma_insert_at(x, rest, j - 1);
        assert(s[0].1 <= x.1);
        assert(insert_sorted(x, s) == seq![s[0]] + insert_sorted(x, rest));
        assert(seq![s[0]] + (rest.subrange(0, j - 1) + seq![x] + rest.subrange(
            j - 1,
            rest.len() as int,
        )) =~= s.subrange(0, j) + seq![x] + s.subrange(j, s.len() as int));
    }
}

/// Clones a character vector.
fn clone_chars(v: &Vec<char>) -> (r: Vec<char>)
    ensures
        r@ == v@,
{
    let mut r: Vec<char> = Vec::new();
    let mut i: usize = 0;
    while i < v.len()
        invariant
            i <= v@.len(),
            r@ == v@.subrange(0, i as int),
        decreases v@.len() - i,
    {
        r.push(v[i]);
        assert(v@.subrange(0, i as int).push(v@[i as int]) =~= v@.subrange(0, i as int + 1));
        i += 1;
    }
    assert(r@ =~= v@);
    r
}

} // verus!
