//! Order-preserving aggregation of monthly records.
//!
//! Records sharing a month key are merged by field-wise addition; the first
//! occurrence of a key fixes both the key string kept and the record's
//! position in the output.

use crate::monthly_stat::combined;
use crate::monthly_stat::MonthlyStat;
use crate::monthly_stat::ParseError;
use crate::monthly_stat::spec_parse;
use crate::monthly_stat::StatModel;
use vstd::prelude::*;

verus! {

/// The models of a run of records.
pub open spec fn views_of(s: Seq<MonthlyStat>) -> Seq<StatModel> {
    s.map_values(|st: MonthlyStat| st@)
}

/// The month keys of a run of records, in order.
pub open spec fn months_of(s: Seq<StatModel>) -> Seq<Seq<char>> {
    s.map_values(|m: StatModel| m.month)
}

/// The index of the first record with month key `m`, or -1.
pub open spec fn find_month(s: Seq<StatModel>, m: Seq<char>) -> int
    decreases s.len(),
{
    if s.len() == 0 {
        -1
    } else if s.first().month == m {
        0
    } else {
        let r = find_month(s.drop_first(), m);
        if r < 0 {
            -1
        } else {
            r + 1
        }
    }
}

/// Merge one record into an aggregated run: add it field-wise into the
/// record already holding its month key, or append it at the end when the
/// key is new.
pub open spec fn merge_into(acc: Seq<StatModel>, x: StatModel) -> Seq<StatModel> {
    let j = find_month(acc, x.month);
    if j < 0 {
        acc.push(x)
    } else {
        acc.update(j, combined(acc[j], x))
    }
}

/// The order-preserving aggregation of a run of records.
pub open spec fn spec_aggregate(s: Seq<StatModel>) -> Seq<StatModel>
    decreases s.len(),
{
    if s.len() == 0 {
        Seq::empty()
    } else {
        merge_into(spec_aggregate(s.drop_last()), s.last())
    }
}

/// A record with month key `m` and all counters zero.
pub open spec fn zero_stat(m: Seq<char>) -> StatModel {
    StatModel { month: m, users: 0, lessons: 0, project_submissions: 0, projects_liked: 0 }
}

/// The field-wise total of every record in `s` whose month key is `m`.
pub open spec fn key_total(s: Seq<StatModel>, m: Seq<char>) -> StatModel
    decreases s.len(),
{
    if s.len() == 0 {
        zero_stat(m)
    } else if s.last().month == m {
        combined(key_total(s.drop_last(), m), s.last())
    } else {
        key_total(s.drop_last(), m)
    }
}

/// The month keys of `ms` with later repetitions removed: each key stays at
/// the position of its first occurrence.
pub open spec fn first_seen(ms: Seq<Seq<char>>) -> Seq<Seq<char>>
    decreases ms.len(),
{
    if ms.len() == 0 {
        Seq::empty()
    } else if ms.drop_last().contains(ms.last()) {
        first_seen(ms.drop_last())
    } else {
        first_seen(ms.drop_last()).push(ms.last())
    }
}

/// A record whose counters a `u32` can hold.
pub open spec fn bounded_stat(m: StatModel) -> bool {
    &&& m.users <= u32::MAX
    &&& m.lessons <= u32::MAX
    &&& m.project_submissions <= u32::MAX
    &&& m.projects_liked <= u32::MAX
}

/// A run of records whose counters lie in `u32` range.
pub open spec fn wf_stats(s: Seq<StatModel>) -> bool {
    forall|j: int|
        0 <= j < s.len() ==> {
            let m = #[trigger] s[j];
            0 <= m.users && 0 <= m.lessons && 0 <= m.project_submissions && 0 <= m.projects_liked
                && bounded_stat(m)
        }
}

/// Every aggregated counter total of `s` fits in a `u32`.
pub open spec fn fits_u32(s: Seq<StatModel>) -> bool {
    forall|j: int|
        0 <= j < spec_aggregate(s).len() ==> bounded_stat(#[trigger] spec_aggregate(s)[j])
}

/// `find_month` yields -1 exactly when the key is absent, and otherwise the
/// index of the key's first occurrence.
pub proof fn lemma_find_month(s: Seq<StatModel>, m: Seq<char>)
    ensures
        (find_month(s, m) == -1) <==> !months_of(s).contains(m),
        find_month(s, m) != -1 ==> {
            &&& 0 <= find_month(s, m) < s.len()
            &&& s[find_month(s, m)].month == m
            &&& forall|k: int| 0 <= k < find_month(s, m) ==> (#[trigger] s[k]).month != m
        },
    decreases s.len(),
{
    if s.len() > 0 {
        lemma_find_month(s.drop_first(), m);
        assert(months_of(s.drop_first()) =~= months_of(s).drop_first());
        if s.first().month == m {
            assert(months_of(s)[0] == m);
        } else {
            if months_of(s).contains(m) {
                let w = choose|w: int| 0 <= w < months_of(s).len() && months_of(s)[w] == m;
                assert(months_of(s).drop_first()[w - 1] == m);
            }
            if months_of(s).drop_first().contains(m) {
                let w = choose|w: int|
                    0 <= w < months_of(s).drop_first().len() && months_of(s).drop_first()[w] == m;
                assert(months_of(s)[w + 1] == m);
            }
            let r = find_month(s.drop_first(), m);
            if r >= 0 {
                assert forall|k: int| 0 <= k < r + 1 implies (#[trigger] s[k]).month != m by {
                    if k > 0 {
                        assert(s.drop_first()[k - 1] == s[k]);
                    }
                }
            }
        }
    }
}

/// The keys `first_seen` keeps are pairwise distinct and are exactly the
/// keys of the input.
pub proof fn lemma_first_seen(ms: Seq<Seq<char>>)
    ensures
        forall|j: int, k: int|
            0 <= j < k < first_seen(ms).len() ==> first_seen(ms)[j] != first_seen(ms)[k],
        forall|m: Seq<char>| ms.contains(m) <==> first_seen(ms).contains(m),
    decreases ms.len(),
{
    if ms.len() > 0 {
        let pre = ms.drop_last();
        lemma_first_seen(pre);
        assert forall|m: Seq<char>| ms.contains(m) implies first_seen(ms).contains(m) by {
            let w = choose|w: int| 0 <= w < ms.len() && ms[w] == m;
            if w < ms.len() - 1 {
                assert(pre[w] == m);
                assert(pre.contains(m));
                let v = choose|v: int| 0 <= v < first_seen(pre).len() && first_seen(pre)[v] == m;
                assert(first_seen(ms).contains(m)) by {
                    if pre.contains(ms.last()) {
                        assert(first_seen(ms)[v] == m);
                    } else {
                        assert(first_seen(ms)[v] == m);
                    }
                }
            } else {
                if pre.contains(ms.last()) {
                    let v = choose|v: int|
                        0 <= v < first_seen(pre).len() && first_seen(pre)[v] == m;
                    assert(first_seen(ms)[v] == m);
                } else {
                    assert(first_seen(ms).last() == m);
                }
            }
        }
        assert forall|m: Seq<char>| first_seen(ms).contains(m) implies ms.contains(m) by {
            if pre.contains(ms.last()) {
                assert(first_seen(ms) == first_seen(pre));
                assert(first_seen(pre).contains(m));
                assert(pre.contains(m));
                let w = choose|w: int| 0 <= w < pre.len() && pre[w] == m;
                assert(ms[w] == m);
            } else {
                let v = choose|v: int|
                    0 <= v < first_seen(ms).len() && first_seen(ms)[v] == m;
                if v < first_seen(pre).len() {
                    assert(first_seen(pre)[v] == m);
                    assert(first_seen(pre).contains(m));
                    assert(pre.contains(m));
                    let w = choose|w: int| 0 <= w < pre.len() && pre[w] == m;
                    assert(ms[w] == m);
                } else {
                    assert(ms.last() == m);
                    assert(ms[ms.len() - 1] == m);
                }
            }
        }
    }
}

/// The total for an absent key is zero.
pub proof fn lemma_key_total_absent(s: Seq<StatModel>, m: Seq<char>)
    requires
        !months_of(s).contains(m),
    ensures
        key_total(s, m) == zero_stat(m),
    decreases s.len(),
{
    if s.len() > 0 {
        assert(months_of(s)[s.len() - 1] == s.last().month);
        assert(s.last().month != m);
        assert(months_of(s.drop_last()) =~= months_of(s).drop_last());
        if months_of(s.drop_last()).contains(m) {
            let w = choose|w: int|
                0 <= w < months_of(s.drop_last()).len() && months_of(s.drop_last())[w] == m;
            assert(months_of(s)[w] == m);
        }
        lemma_key_total_absent(s.drop_last(), m);
    }
}

/// Over well-formed records, key totals are non-negative.
pub proof fn lemma_key_total_nonneg(s: Seq<StatModel>, m: Seq<char>)
    requires
        wf_stats(s),
    ensures
        key_total(s, m).users >= 0,
        key_total(s, m).lessons >= 0,
        key_total(s, m).project_submissions >= 0,
        key_total(s, m).projects_liked >= 0,
    decreases s.len(),
{
    if s.len() > 0 {
        assert(wf_stats(s.drop_last()));
        lemma_key_total_nonneg(s.drop_last(), m);
    }
}

/// Over well-formed records, a prefix's key total never exceeds the whole
/// run's key total.
pub proof fn lemma_key_total_prefix(s: Seq<StatModel>, k: int, m: Seq<char>)
    requires
        wf_stats(s),
        0 <= k <= s.len(),
    ensures
        key_total(s.take(k), m).users <= key_total(s, m).users,
        key_total(s.take(k), m).lessons <= key_total(s, m).lessons,
        key_total(s.take(k), m).project_submissions <= key_total(s, m).project_submissions,
        key_total(s.take(k), m).projects_liked <= key_total(s, m).projects_liked,
    decreases s.len() - k,
{
    if k == s.len() {
        assert(s.take(k) =~= s);
    } else {
        assert(s.take(k + 1).drop_last() =~= s.take(k));
        assert(s.take(k + 1).last() == s[k]);
        lemma_key_total_prefix(s, k + 1, m);
    }
}

/// What aggregation yields, in full: the output keys are the input keys in
/// first-seen order, pairwise distinct, and each output record is the
/// field-wise total of every input record sharing its key.
pub proof fn lemma_aggregate(s: Seq<StatModel>)
    ensures
        months_of(spec_aggregate(s)) == first_seen(months_of(s)),
        forall|j: int|
            0 <= j < spec_aggregate(s).len() ==> #[trigger] spec_aggregate(s)[j] == key_total(
                s,
                spec_aggregate(s)[j].month,
            ),
        forall|j: int, k: int|
            0 <= j < k < spec_aggregate(s).len() ==> spec_aggregate(s)[j].month != spec_aggregate(
                s,
            )[k].month,
        forall|m: Seq<char>| months_of(s).contains(m) <==> months_of(spec_aggregate(s)).contains(m),
    decreases s.len(),
{
    lemma_first_seen(months_of(s));
    if s.len() == 0 {
        assert(months_of(spec_aggregate(s)) =~= first_seen(months_of(s)));
    } else {
        let pre = s.drop_last();
        let x = s.last();
        let a = spec_aggregate(pre);
        lemma_aggregate(pre);
        lemma_find_month(a, x.month);
        assert(months_of(pre) =~= months_of(s).drop_last());
        assert(months_of(s).last() == x.month);
        let j = find_month(a, x.month);
        if j < 0 {
            // the key is new: the record is appended
            assert(!months_of(a).contains(x.month));
            assert(!months_of(pre).contains(x.month));
            assert(months_of(spec_aggregate(s)) =~= months_of(a).push(x.month));
            assert(first_seen(months_of(s)) =~= first_seen(months_of(pre)).push(x.month));
            lemma_key_total_absent(pre, x.month);
            assert forall|i: int| 0 <= i < spec_aggregate(s).len() implies #[trigger] spec_aggregate(
                s,
            )[i] == key_total(s, spec_aggregate(s)[i].month) by {
                if i < a.len() {
                    assert(a[i] == key_total(pre, a[i].month));
                    assert(a[i].month != x.month) by {
                        assert(months_of(a)[i] == a[i].month);
                    }
                    assert(key_total(s, a[i].month) == key_total(pre, a[i].month));
                } else {
                    assert(spec_aggregate(s)[i] == x);
                    assert(key_total(s, x.month) == combined(zero_stat(x.month), x));
                }
            }
        } else {
            // the key is present: the record folds into place `j`
            assert(months_of(a).contains(x.month)) by {
                assert(months_of(a)[j] == x.month);
            }
            assert(months_of(pre).contains(x.month));
            assert(months_of(spec_aggregate(s)) =~= months_of(a));
            assert(first_seen(months_of(s)) =~= first_seen(months_of(pre)));
            assert forall|i: int| 0 <= i < spec_aggregate(s).len() implies #[trigger] spec_aggregate(
                s,
            )[i] == key_total(s, spec_aggregate(s)[i].month) by {
                if i == j {
                    assert(a[j] == key_total(pre, x.month));
                    assert(spec_aggregate(s)[j] == combined(a[j], x));
                    assert(key_total(s, x.month) == combined(key_total(pre, x.month), x));
                } else {
                    assert(spec_aggregate(s)[i] == a[i]);
                    assert(a[i].month != x.month) by {
                        assert(months_of(a)[i] == a[i].month);
                        assert(months_of(a)[j] == x.month);
                    }
                    assert(key_total(s, a[i].month) == key_total(pre, a[i].month));
                }
            }
        }
        assert forall|i: int, k: int|
            0 <= i < k < spec_aggregate(s).len() implies spec_aggregate(s)[i].month
            != spec_aggregate(s)[k].month by {
            assert(months_of(spec_aggregate(s))[i] == spec_aggregate(s)[i].month);
            assert(months_of(spec_aggregate(s))[k] == spec_aggregate(s)[k].month);
        }
        assert forall|m: Seq<char>|
            months_of(s).contains(m) <==> months_of(spec_aggregate(s)).contains(m) by {
            lemma_first_seen(months_of(s));
        }
    }
}

/// Aggregating a run whose month keys are already pairwise distinct leaves
/// it unchanged.
pub proof fn lemma_aggregate_idempotent(s: Seq<StatModel>)
    requires
        forall|j: int, k: int|
            0 <= j < k < s.len() ==> (#[trigger] s[j]).month != (#[trigger] s[k]).month,
    ensures
        spec_aggregate(s) == s,
    decreases s.len(),
{
    if s.len() > 0 {
        let pre = s.drop_last();
        let x = s.last();
        lemma_aggregate_idempotent(pre);
        lemma_find_month(pre, x.month);
        if months_of(pre).contains(x.month) {
            let w = choose|w: int| 0 <= w < months_of(pre).len() && months_of(pre)[w] == x.month;
            assert(s[w].month == (#[trigger] s[s.len() - 1]).month);
        }
        assert(find_month(pre, x.month) == -1);
        assert(spec_aggregate(s) =~= s);
    }
}

/// The index of the record in `acc` holding month key `m`, if one does.
fn find_index(acc: &Vec<MonthlyStat>, m: &String) -> (r: Option<usize>)
    ensures
        match r {
            Some(j) => find_month(views_of(acc@), m@) == j as int,
            None => find_month(views_of(acc@), m@) == -1,
        },
{
    let ghost vs = views_of(acc@);
    let mut j: usize = 0;
    while j < acc.len()
        invariant
            vs == views_of(acc@),
            j <= acc@.len(),
            forall|k: int| 0 <= k < j ==> (#[trigger] vs[k]).month != m@,
        decreases acc@.len() - j,
    {
        if acc[j].month == *m {
            proof {
                assert(vs[j as int].month == m@);
                assert(months_of(vs)[j as int] == m@);
                lemma_find_month(vs, m@);
                let f = find_month(vs, m@);
                assert(f != -1);
                if f < j as int {
                    assert(vs[f].month != m@);
                }
                if f > j as int {
                    assert(vs[j as int].month != m@);
                }
            }
            return Some(j);
        }
        j = j + 1;
    }
    proof {
        lemma_find_month(vs, m@);
        if months_of(vs).contains(m@) {
            let w = choose|w: int| 0 <= w < months_of(vs).len() && months_of(vs)[w] == m@;
            assert(vs[w].month == m@);
        }
    }
    None
}

/// Aggregate a run of records by month key: the first occurrence of a key
/// fixes its output position and its key string; later occurrences add
/// field-wise into it. Yields nothing exactly when some aggregated counter
/// total would not fit in a `u32`.
pub fn aggregate(stats: Vec<MonthlyStat>) -> (r: Option<Vec<MonthlyStat>>)
    ensures
        match r {
            Some(v) => fits_u32(views_of(stats@)) && views_of(v@) == spec_aggregate(
                views_of(stats@),
            ),
            None => !fits_u32(views_of(stats@)),
        },
{
    let ghost orig = views_of(stats@);
    proof {
        assert forall|j: int| 0 <= j < orig.len() implies {
            let m = #[trigger] orig[j];
            0 <= m.users && 0 <= m.lessons && 0 <= m.project_submissions && 0 <= m.projects_liked
                && bounded_stat(m)
        } by {
            assert(orig[j] == stats@[j]@);
        }
        assert(wf_stats(orig));
    }
    let mut rest = stats;
    let mut acc: Vec<MonthlyStat> = Vec::new();
    proof {
        assert(orig.take(0) =~= Seq::<StatModel>::empty());
        assert(views_of(acc@) =~= spec_aggregate(orig.take(0)));
        assert(views_of(rest@) =~= orig.skip(0));
    }
    #[verifier::loop_isolation(false)]
    while rest.len() > 0
        invariant
            wf_stats(orig),
            rest@.len() <= orig.len(),
            views_of(rest@) == orig.skip(orig.len() - rest@.len()),
            views_of(acc@) == spec_aggregate(orig.take(orig.len() - rest@.len())),
        decreases rest@.len(),
    {
        let ghost k = orig.len() - rest@.len();
        let ghost a_k = spec_aggregate(orig.take(k as int));
        let ghost old_rest = rest@;
        let x = rest.remove(0);
        proof {
            assert(x@ == orig[k as int]) by {
                assert(views_of(old_rest)[0] == x@);
                assert(orig.skip(k as int)[0] == orig[k as int]);
            }
            assert(views_of(rest@) =~= orig.skip(k + 1)) by {
                assert forall|i: int| 0 <= i < rest@.len() implies views_of(rest@)[i] == orig.skip(
                    k + 1,
                )[i] by {
                    assert(rest@[i] == old_rest[i + 1]);
                    assert(views_of(old_rest)[i + 1] == old_rest[i + 1]@);
                    assert(orig.skip(k as int)[i + 1] == orig[k + 1 + i]);
                    assert(orig.skip(k + 1)[i] == orig[k + 1 + i]);
                }
            }
            assert(orig.take(k + 1).drop_last() =~= orig.take(k as int));
            assert(orig.take(k + 1).last() == orig[k as int]);
            lemma_aggregate(orig.take(k as int));
        }
        match find_index(&acc, &x.month) {
            Some(j) => {
                proof {
                    lemma_find_month(a_k, x@.month);
                }
                let ghost old_acc = acc@;
                let cur = acc.remove(j);
                let su = cur.users.checked_add(x.users);
                let sl = cur.lessons.checked_add(x.lessons);
                let sp = cur.project_submissions.checked_add(x.project_submissions);
                let sq = cur.projects_liked.checked_add(x.projects_liked);
                if su.is_none() || sl.is_none() || sp.is_none() || sq.is_none() {
                    proof {
                        let m = x@.month;
                        assert(cur@ == a_k[j as int]) by {
                            assert(views_of(old_acc)[j as int] == cur@);
                        }
                        assert(a_k[j as int] == key_total(orig.take(k as int), m));
                        assert(key_total(orig.take(k + 1), m) == combined(
                            key_total(orig.take(k as int), m),
                            orig[k as int],
                        ));
                        lemma_key_total_prefix(orig, k + 1, m);
                        let total = key_total(orig, m);
                        assert(!bounded_stat(total));
                        assert(months_of(orig)[k as int] == m);
                        assert(months_of(orig).contains(m));
                        lemma_aggregate(orig);
                        assert(months_of(spec_aggregate(orig)).contains(m));
                        let w = choose|w: int|
                            0 <= w < months_of(spec_aggregate(orig)).len() && months_of(
                                spec_aggregate(orig),
                            )[w] == m;
                        assert(spec_aggregate(orig)[w].month == m);
                        assert(spec_aggregate(orig)[w] == total);
                        assert(!fits_u32(orig));
                    }
                    return None;
                }
                let merged = MonthlyStat {
                    month: cur.month,
                    users: su.unwrap(),
                    lessons: sl.unwrap(),
                    project_submissions: sp.unwrap(),
                    projects_liked: sq.unwrap(),
                };
                proof {
                    assert(cur@ == a_k[j as int]) by {
                        assert(views_of(old_acc)[j as int] == cur@);
                    }
                    assert(merged@ == combined(a_k[j as int], x@));
                }
                acc.insert(j, merged);
                proof {
                    assert(views_of(acc@) =~= a_k.update(j as int, combined(a_k[j as int], x@)))
                        by {
                        assert forall|i: int| 0 <= i < acc@.len() implies views_of(acc@)[i]
                            == a_k.update(j as int, combined(a_k[j as int], x@))[i] by {
                            assert(views_of(acc@)[i] == acc@[i]@);
                            assert(acc@ == old_acc.remove(j as int).insert(j as int, merged));
                            if i != j as int {
                                assert(acc@[i] == old_acc[i]);
                                assert(views_of(old_acc)[i] == old_acc[i]@);
                            }
                        }
                    }
                    assert(views_of(acc@) == spec_aggregate(orig.take(k + 1)));
                }
            },
            None => {
                proof {
                    assert(views_of(acc@.push(x)) =~= views_of(acc@).push(x@));
                    assert(merge_into(a_k, x@) == a_k.push(x@));
                }
                acc.push(x);
            },
        }
    }
    proof {
        assert(orig.take(orig.len() as int) =~= orig);
        assert(views_of(acc@) == spec_aggregate(orig));
        assert forall|j: int| 0 <= j < spec_aggregate(orig).len() implies bounded_stat(
            #[trigger] spec_aggregate(orig)[j],
        ) by {
            assert(spec_aggregate(orig)[j] == acc@[j]@);
        }
    }
    Some(acc)
}

/// Parse every section of a report, in order, stopping at the first
/// malformed one: the whole run fails rather than yielding partial output.
pub fn parse_sections(sections: &Vec<&str>) -> (r: Result<Vec<MonthlyStat>, ParseError>)
    ensures
        match r {
            Ok(stats) => {
                &&& stats@.len() == sections@.len()
                &&& forall|i: int|
                    0 <= i < sections@.len() ==> spec_parse(
                        (#[trigger] sections@[i])@,
                    ) == Ok::<StatModel, ParseError>(stats@[i]@)
            },
            Err(e) => {
                &&& e == ParseError::MalformedSection
                &&& exists|i: int|
                    0 <= i < sections@.len() && (#[trigger] spec_parse(sections@[i]@)) is Err
            },
        },
{
    let mut out: Vec<MonthlyStat> = Vec::new();
    let mut i: usize = 0;
    while i < sections.len()
        invariant
            i <= sections@.len(),
            out@.len() == i,
            forall|k: int|
                0 <= k < i ==> spec_parse((#[trigger] sections@[k])@) == Ok::<
                    StatModel,
                    ParseError,
                >(out@[k]@),
        decreases sections@.len() - i,
    {
        match MonthlyStat::parse(sections[i]) {
            Ok(st) => out.push(st),
            Err(e) => {
                proof {
                    assert(spec_parse(sections@[i as int]@) is Err);
                }
                return Err(e);
            },
        }
        i = i + 1;
    }
    Ok(out)
}

} // verus!

