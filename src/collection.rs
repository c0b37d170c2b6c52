//! A file's worth of cross-section polylines and the operations on the whole set:
//! ordering along an axis, duplicate removal, filtering and bounding frames.
use vstd::prelude::*;
use crate::geometry::{Axis, Cross, CrossCoordinate3d, Extent, cross_eq, extent_of, inside, lemma_inside_own_extent, min_on, union_extent};
use crate::parser::{CrossInformation, CrossReadError, CrossView, all_polylines, contains_cross, views};

verus! {

/// The sort key of a polyline: its smallest coordinate along `axis`.
pub open spec fn key_of(c: CrossView, axis: Axis) -> i64 {
    min_on(c.1, axis)
}

/// Every polyline has at least one vertex.
pub open spec fn all_nonempty(s: Seq<CrossView>) -> bool {
    forall|i: int| 0 <= i < s.len() ==> (#[trigger] s[i]).1.len() > 0
}

/// Keys never decrease along `s`.
pub open spec fn sorted_by_key(s: Seq<CrossView>, axis: Axis) -> bool {
    forall|i: int, j: int| 0 <= i < j < s.len() ==> key_of(s[i], axis) <= key_of(s[j], axis)
}

/// The polylines of `s` whose key is `kv`, in their order in `s`.
pub open spec fn with_key(s: Seq<CrossView>, axis: Axis, kv: i64) -> Seq<CrossView> {
    s.filter(has_key(axis, kv))
}

/// Whether a polyline's key is `kv`.
pub open spec fn has_key(axis: Axis, kv: i64) -> spec_fn(CrossView) -> bool {
    |c: CrossView| key_of(c, axis) == kv
}

/// `out` is `inp` stably sorted by key: keys ascend, and for every key value the
/// polylines holding it come in the same order as in `inp`.
pub open spec fn stable_sort_of(out: Seq<CrossView>, inp: Seq<CrossView>, axis: Axis) -> bool {
    &&& sorted_by_key(out, axis)
    &&& forall|kv: i64| #[trigger] with_key(out, axis, kv) == with_key(inp, axis, kv)
}

proof fn lemma_with_key_push(s: Seq<CrossView>, axis: Axis, kv: i64, x: CrossView)
    ensures
        with_key(s.push(x), axis, kv) == if key_of(x, axis) == kv {
            with_key(s, axis, kv).push(x)
        } else {
            with_key(s, axis, kv)
        },
{
    s.lemma_filter_push(x, has_key(axis, kv));
}

/// A polyline that the filter keeps is in the sequence.
proof fn lemma_with_key_member(s: Seq<CrossView>, axis: Axis, kv: i64)
    requires
        with_key(s, axis, kv).len() > 0,
    ensures
        exists|i: int| 0 <= i < s.len() && key_of(s[i], axis) == kv,
    decreases s.len(),
{
    if s.len() > 0 {
        let init = s.drop_last();
        assert(s =~= init.push(s.last()));
        lemma_with_key_push(init, axis, kv, s.last());
        if key_of(s.last(), axis) != kv {
            lemma_with_key_member(init, axis, kv);
            let i = choose|i: int| 0 <= i < init.len() && key_of(init[i], axis) == kv;
            assert(s[i] == init[i]);
        } else {
            assert(key_of(s[s.len() - 1], axis) == kv);
        }
    }
}

proof fn lemma_with_key_count(s: Seq<CrossView>, axis: Axis, x: CrossView)
    ensures
        with_key(s, axis, key_of(x, axis)).to_multiset().count(x) == s.to_multiset().count(x),
    decreases s.len(),
{
    broadcast use vstd::seq_lib::group_to_multiset_ensures;

    let kv = key_of(x, axis);
    if s.len() == 0 {
        s.lemma_filter_len(has_key(axis, kv));
        assert(with_key(s, axis, kv) =~= s);
    } else {
        let init = s.drop_last();
        assert(s =~= init.push(s.last()));
        lemma_with_key_push(init, axis, kv, s.last());
        lemma_with_key_count(init, axis, x);
    }
}

/// A stable sort is a permutation: it holds every polyline as often as its input.
pub proof fn lemma_stable_sort_permutes(out: Seq<CrossView>, inp: Seq<CrossView>, axis: Axis)
    requires
        stable_sort_of(out, inp, axis),
    ensures
        out.to_multiset() == inp.to_multiset(),
{
    assert forall|x: CrossView| out.to_multiset().count(x) == inp.to_multiset().count(x) by {
        lemma_with_key_count(out, axis, x);
        lemma_with_key_count(inp, axis, x);
        assert(with_key(out, axis, key_of(x, axis)) == with_key(inp, axis, key_of(x, axis)));
    }
    assert(out.to_multiset() =~= inp.to_multiset());
}

/// Two sequences sorted by key that agree on every key's subsequence are equal.
pub proof fn lemma_stable_sort_unique(a: Seq<CrossView>, b: Seq<CrossView>, axis: Axis)
    requires
        sorted_by_key(a, axis),
        sorted_by_key(b, axis),
        forall|kv: i64| #[trigger] with_key(a, axis, kv) == with_key(b, axis, kv),
    ensures
        a == b,
    decreases a.len() + b.len(),
{
    if a.len() == 0 && b.len() == 0 {
        assert(a =~= b);
    } else if a.len() == 0 {
        let y = b.last();
        let kb = key_of(y, axis);
        assert(b =~= b.drop_last().push(y));
        lemma_with_key_push(b.drop_last(), axis, kb, y);
        assert(with_key(a, axis, kb) == with_key(b, axis, kb));
        assert(with_key(a, axis, kb).len() == 0);
    } else if b.len() == 0 {
        let x = a.last();
        let ka = key_of(x, axis);
        assert(a =~= a.drop_last().push(x));
        lemma_with_key_push(a.drop_last(), axis, ka, x);
        assert(with_key(a, axis, ka) == with_key(b, axis, ka));
        assert(with_key(b, axis, ka).len() == 0);
    } else {
        let x = a.last();
        let y = b.last();
        let ia = a.drop_last();
        let ib = b.drop_last();
        let ka = key_of(x, axis);
        let kb = key_of(y, axis);
        assert(a =~= ia.push(x));
        assert(b =~= ib.push(y));
        lemma_with_key_push(ia, axis, ka, x);
        lemma_with_key_push(ib, axis, kb, y);
        assert(with_key(a, axis, ka) == with_key(b, axis, ka));
        assert(with_key(a, axis, kb) == with_key(b, axis, kb));
        lemma_with_key_member(b, axis, ka);
        lemma_with_key_member(a, axis, kb);
        let i = choose|i: int| 0 <= i < b.len() && key_of(b[i], axis) == ka;
        let j = choose|j: int| 0 <= j < a.len() && key_of(a[j], axis) == kb;
        if i < b.len() - 1 {
            assert(key_of(b[i], axis) <= key_of(b[b.len() - 1], axis));
        }
        if j < a.len() - 1 {
            assert(key_of(a[j], axis) <= key_of(a[a.len() - 1], axis));
        }
        assert(ka == kb);
        lemma_with_key_push(ib, axis, ka, y);
        assert(with_key(a, axis, ka).last() == x);
        assert(with_key(b, axis, ka).last() == y);
        assert(x == y);
        assert forall|kv: i64| #[trigger] with_key(ia, axis, kv) == with_key(ib, axis, kv) by {
            lemma_with_key_push(ia, axis, kv, x);
            lemma_with_key_push(ib, axis, kv, y);
            assert(with_key(a, axis, kv) == with_key(b, axis, kv));
            if kv == ka {
                assert(with_key(ia, axis, kv) =~= with_key(a, axis, kv).drop_last());
                assert(with_key(ib, axis, kv) =~= with_key(b, axis, kv).drop_last());
            }
        }
        assert forall|p: int, q: int| 0 <= p < q < ia.len() implies key_of(ia[p], axis) <= key_of(
            ia[q],
            axis,
        ) by {
            assert(ia[p] == a[p] && ia[q] == a[q]);
        }
        assert forall|p: int, q: int| 0 <= p < q < ib.len() implies key_of(ib[p], axis) <= key_of(
            ib[q],
            axis,
        ) by {
            assert(ib[p] == b[p] && ib[q] == b[q]);
        }
        lemma_stable_sort_unique(ia, ib, axis);
    }
}

/// Sorting by key is stable: a sequence already sorted by key is its own stable sort,
/// and stably sorting a stable sort changes nothing.
pub proof fn lemma_sort_by_axis_idempotent(
    s: Seq<CrossView>,
    once: Seq<CrossView>,
    twice: Seq<CrossView>,
    axis: Axis,
)
    requires
        stable_sort_of(once, s, axis),
        stable_sort_of(twice, once, axis),
    ensures
        sorted_by_key(s, axis) ==> once == s,
        twice == once,
{
    lemma_stable_sort_unique(twice, once, axis);
    if sorted_by_key(s, axis) {
        lemma_stable_sort_unique(once, s, axis);
    }
}

/// Stable insertion sort of polylines by their smallest coordinate along `axis`.
pub fn sort_by_axis(crosses: Vec<Cross>, axis: Axis) -> (r: Vec<Cross>)
    requires
        all_nonempty(views(crosses@)),
    ensures
        stable_sort_of(views(r@), views(crosses@), axis),
        views(r@).to_multiset() == views(crosses@).to_multiset(),
        all_nonempty(views(r@)),
{
    let ghost inp = views(crosses@);
    let mut rest = crosses;
    let mut out: Vec<Cross> = Vec::new();
    let n = rest.len();
    assert(inp.take(0) =~= Seq::<CrossView>::empty());
    assert(views(out@) =~= Seq::<CrossView>::empty());
    while rest.len() > 0
        invariant
            n == inp.len(),
            rest@.len() <= n,
            all_nonempty(inp),
            views(rest@) == inp.skip(n - rest@.len()),
            stable_sort_of(views(out@), inp.take(n - rest@.len()), axis),
            all_nonempty(views(out@)),
        decreases rest@.len(),
    {
        let ghost done = n - rest@.len();
        let ghost before = views(out@);
        let ghost old_rest = rest@;
        assert(views(old_rest)[0] == old_rest[0]@);
        let c = rest.remove(0);
        assert(c@ == inp[done]);
        assert(views(rest@) =~= inp.skip(done + 1)) by {
            assert forall|p: int| 0 <= p < rest@.len() implies views(rest@)[p] == inp.skip(
                done + 1,
            )[p] by {
                assert(rest@[p] == old_rest[p + 1]);
                assert(views(old_rest)[p + 1] == old_rest[p + 1]@);
            }
        }
        let k = c.get_minimum_by_axis(axis);
        assert forall|p: int| 0 <= p < out@.len() implies (#[trigger] out@[p]).coordinate@.len() > 0 by {
            assert(before[p] == out@[p]@);
        }
        let mut j: usize = 0;
        while j < out.len() && out[j].get_minimum_by_axis(axis) <= k
            invariant
                j <= out@.len(),
                views(out@) == before,
                all_nonempty(before),
                forall|p: int| 0 <= p < out@.len() ==> (#[trigger] out@[p]).coordinate@.len() > 0,
                forall|p: int| 0 <= p < j ==> key_of(before[p], axis) <= k,
            decreases out@.len() - j,
        {
            assert(before[j as int] == out@[j as int]@);
            j = j + 1;
        }
        assert(j < out@.len() ==> key_of(before[j as int], axis) > k) by {
            if j < out@.len() {
                assert(before[j as int] == out@[j as int]@);
            }
        }
        out.insert(j, c);
        let ghost after = views(out@);
        assert(after =~= before.insert(j as int, c@));
        assert(inp.take(done + 1) =~= inp.take(done).push(c@));
        assert(after =~= before.subrange(0, j as int) + seq![c@] + before.subrange(
            j as int,
            before.len() as int,
        ));
        assert forall|p: int, q: int| 0 <= p < q < after.len() implies key_of(after[p], axis)
            <= key_of(after[q], axis) by {
            if q < j {
                assert(after[p] == before[p] && after[q] == before[q]);
            } else if q == j {
                assert(after[p] == before[p]);
            } else if p < j {
                assert(after[p] == before[p] && after[q] == before[q - 1]);
                assert(key_of(before[j as int], axis) <= key_of(before[q - 1], axis));
            } else if p == j {
                assert(after[q] == before[q - 1]);
                assert(key_of(before[j as int], axis) <= key_of(before[q - 1], axis));
            } else {
                assert(after[p] == before[p - 1] && after[q] == before[q - 1]);
            }
        }
        assert forall|kv: i64| #[trigger] with_key(after, axis, kv) == with_key(
            inp.take(done + 1),
            axis,
            kv,
        ) by {
            let lo = before.subrange(0, j as int);
            let hi = before.subrange(j as int, before.len() as int);
            let pred = has_key(axis, kv);
            let one = seq![c@];
            assert(before =~= lo + hi);
            assert(after =~= lo + one + hi);
            Seq::filter_distributes_over_add(lo, hi, pred);
            Seq::filter_distributes_over_add(lo + one, hi, pred);
            Seq::filter_distributes_over_add(lo, one, pred);
            lemma_with_key_push(inp.take(done), axis, kv, c@);
            assert(one =~= Seq::<CrossView>::empty().push(c@));
            lemma_with_key_push(Seq::<CrossView>::empty(), axis, kv, c@);
            assert(with_key(before, axis, kv) == with_key(inp.take(done), axis, kv));
            if key_of(c@, axis) == kv {
                assert forall|p: int| 0 <= p < hi.len() implies !pred(hi[p]) by {
                    assert(hi[p] == before[j + p]);
                    assert(key_of(before[j as int], axis) <= key_of(before[j + p], axis));
                }
                hi.lemma_all_neg_filter_empty(pred);
                assert(hi.filter(pred) =~= Seq::<CrossView>::empty());
                assert(one.filter(pred) =~= one);
                assert(with_key(after, axis, kv) =~= with_key(before, axis, kv).push(c@));
            } else {
                assert(one.filter(pred) =~= Seq::<CrossView>::empty());
                assert(with_key(after, axis, kv) =~= with_key(before, axis, kv));
            }
        }
        assert forall|p: int| 0 <= p < after.len() implies (#[trigger] after[p]).1.len() > 0 by {
            if p < j {
                assert(after[p] == before[p]);
            } else if p > j {
                assert(after[p] == before[p - 1]);
            }
        }
    }
    assert(inp.take(n as int) =~= inp);
    proof {
        lemma_stable_sort_permutes(views(out@), inp, axis);
    }
    out
}

/// `s` with every polyline equal to an earlier one left out (first occurrences kept).
pub open spec fn dedup_spec(s: Seq<CrossView>) -> Seq<CrossView>
    decreases s.len(),
{
    if s.len() == 0 {
        s
    } else {
        let d = dedup_spec(s.drop_last());
        if d.contains(s.last()) {
            d
        } else {
            d.push(s.last())
        }
    }
}

/// No two polylines of `s` are equal.
pub open spec fn no_duplicates(s: Seq<CrossView>) -> bool {
    forall|i: int, j: int| 0 <= i < j < s.len() ==> s[i] != s[j]
}

proof fn lemma_dedup_members(s: Seq<CrossView>)
    ensures
        forall|x: CrossView| #[trigger] dedup_spec(s).contains(x) <==> s.contains(x),
        no_duplicates(dedup_spec(s)),
    decreases s.len(),
{
    if s.len() > 0 {
        let init = s.drop_last();
        lemma_dedup_members(init);
        assert(s =~= init.push(s.last()));
        assert forall|x: CrossView| #[trigger] dedup_spec(s).contains(x) <==> s.contains(x) by {
            if s.contains(x) && x != s.last() {
                let i = choose|i: int| 0 <= i < s.len() && s[i] == x;
                assert(init[i] == x);
            }
            if init.contains(x) {
                let i = choose|i: int| 0 <= i < init.len() && init[i] == x;
                assert(s[i] == x);
            }
            if !dedup_spec(init).contains(s.last()) {
                let d = dedup_spec(init);
                if d.push(s.last()).contains(x) && x != s.last() {
                    let i = choose|i: int| 0 <= i < d.push(s.last()).len() && d.push(s.last())[i] == x;
                    assert(d[i] == x);
                }
                if d.contains(x) {
                    let i = choose|i: int| 0 <= i < d.len() && d[i] == x;
                    assert(d.push(s.last())[i] == x);
                }
                assert(d.push(s.last())[d.len() as int] == s.last());
            }
        }
    }
}

/// A sequence without duplicates is left as it is.
proof fn lemma_dedup_of_distinct(s: Seq<CrossView>)
    requires
        no_duplicates(s),
    ensures
        dedup_spec(s) == s,
    decreases s.len(),
{
    if s.len() > 0 {
        let init = s.drop_last();
        assert(no_duplicates(init)) by {
            assert forall|i: int, j: int| 0 <= i < j < init.len() implies init[i] != init[j] by {
                assert(init[i] == s[i] && init[j] == s[j]);
            }
        }
        lemma_dedup_of_distinct(init);
        if init.contains(s.last()) {
            let i = choose|i: int| 0 <= i < init.len() && init[i] == s.last();
            assert(s[i] == s[s.len() - 1]);
        }
        assert(s =~= init.push(s.last()));
    }
}

/// Removing duplicates twice gives the same as once.
pub proof fn lemma_dedup_idempotent(s: Seq<CrossView>)
    ensures
        dedup_spec(dedup_spec(s)) == dedup_spec(s),
{
    lemma_dedup_members(s);
    lemma_dedup_of_distinct(dedup_spec(s));
}

/// The polylines of `crosses` with later duplicates dropped, first occurrences in order.
pub fn dedup(crosses: Vec<Cross>) -> (r: Vec<Cross>)
    ensures
        views(r@) == dedup_spec(views(crosses@)),
        no_duplicates(views(r@)),
{
    let ghost inp = views(crosses@);
    let mut rest = crosses;
    let mut out: Vec<Cross> = Vec::new();
    let n = rest.len();
    assert(inp.take(0) =~= Seq::<CrossView>::empty());
    assert(views(out@) =~= Seq::<CrossView>::empty());
    while rest.len() > 0
        invariant
            n == inp.len(),
            rest@.len() <= n,
            views(rest@) == inp.skip(n - rest@.len()),
            views(out@) == dedup_spec(inp.take(n - rest@.len())),
        decreases rest@.len(),
    {
        let ghost done = n - rest@.len();
        let ghost old_rest = rest@;
        assert(views(old_rest)[0] == old_rest[0]@);
        let c = rest.remove(0);
        assert(views(rest@) =~= inp.skip(done + 1)) by {
            assert forall|p: int| 0 <= p < rest@.len() implies views(rest@)[p] == inp.skip(
                done + 1,
            )[p] by {
                assert(rest@[p] == old_rest[p + 1]);
                assert(views(old_rest)[p + 1] == old_rest[p + 1]@);
            }
        }
        assert(inp.take(done + 1).drop_last() =~= inp.take(done));
        assert(inp.take(done + 1).last() == c@);
        if !contains_cross(&out, &c) {
            out.push(c);
            assert(views(out@) =~= dedup_spec(inp.take(done + 1)));
        }
    }
    assert(inp.take(n as int) =~= inp);
    proof {
        lemma_dedup_members(inp);
    }
    out
}

/// Group numbers of the polylines that equal an earlier one, in order.
pub open spec fn repeated_groups(s: Seq<CrossView>) -> Seq<i32>
    decreases s.len(),
{
    if s.len() == 0 {
        Seq::empty()
    } else {
        let prev = repeated_groups(s.drop_last());
        if s.drop_last().contains(s.last()) {
            prev.push(s.last().0)
        } else {
            prev
        }
    }
}

/// The key of every polyline is at least `m`, and some polyline has key `m`.
pub open spec fn is_min_key(s: Seq<CrossView>, axis: Axis, m: i64) -> bool {
    &&& exists|i: int| 0 <= i < s.len() && key_of(s[i], axis) == m
    &&& forall|i: int| 0 <= i < s.len() ==> m <= key_of(#[trigger] s[i], axis)
}

/// Whether one of the first `upto` polylines equals `c`.
fn contains_before(crosses: &Vec<Cross>, upto: usize, c: &Cross) -> (r: bool)
    requires
        upto <= crosses@.len(),
    ensures
        r == views(crosses@).take(upto as int).contains(c@),
{
    let mut i: usize = 0;
    while i < upto
        invariant
            upto <= crosses@.len(),
            i <= upto,
            forall|j: int| 0 <= j < i ==> crosses@[j]@ != c@,
        decreases upto - i,
    {
        if cross_eq(&crosses[i], c) {
            assert(views(crosses@).take(upto as int)[i as int] == c@);
            return true;
        }
        i = i + 1;
    }
    assert forall|j: int| 0 <= j < upto implies views(crosses@).take(upto as int)[j] != c@ by {
        assert(views(crosses@).take(upto as int)[j] == crosses@[j]@);
    }
    false
}

/// The bounding box of all polylines of `s`, scanned in full.
pub open spec fn frame_of(s: Seq<CrossView>) -> Extent
    decreases s.len(),
{
    if s.len() <= 1 {
        extent_of(s[0].1)
    } else {
        union_extent(frame_of(s.drop_last()), extent_of(s.last().1))
    }
}

/// Every vertex of every polyline lies inside the full-scan frame.
pub proof fn lemma_frame_contains(s: Seq<CrossView>)
    requires
        s.len() > 0,
    ensures
        forall|i: int, j: int|
            0 <= i < s.len() && 0 <= j < s[i].1.len() ==> inside(frame_of(s), #[trigger] s[i].1[j]),
    decreases s.len(),
{
    assert forall|i: int, j: int| 0 <= i < s.len() && 0 <= j < s[i].1.len() implies inside(
        frame_of(s),
        #[trigger] s[i].1[j],
    ) by {
        if s.len() == 1 {
            lemma_inside_own_extent(s[i].1, j);
        } else {
            let init = s.drop_last();
            if i < s.len() - 1 {
                lemma_frame_contains(init);
                assert(init[i] == s[i]);
            } else {
                lemma_inside_own_extent(s[i].1, j);
            }
        }
    }
}

/// The polylines whose group number is listed in `keep`.
pub open spec fn in_groups(keep: Seq<i32>) -> spec_fn(CrossView) -> bool {
    |c: CrossView| keep.contains(c.0)
}

/// Whether a polyline reaches `z` or below.
pub open spec fn reaches_down_to(z: i64) -> spec_fn(CrossView) -> bool {
    |c: CrossView| key_of(c, Axis::Z) <= z
}

/// Index of the last polyline with group number `g`, or -1.
pub open spec fn last_group_index(s: Seq<CrossView>, g: i32) -> int
    decreases s.len(),
{
    if s.len() == 0 {
        -1
    } else if s.last().0 == g {
        s.len() - 1
    } else {
        last_group_index(s.drop_last(), g)
    }
}

proof fn lemma_last_group_index_range(s: Seq<CrossView>, g: i32)
    ensures
        -1 <= last_group_index(s, g) < s.len(),
    decreases s.len(),
{
    if s.len() > 0 {
        lemma_last_group_index_range(s.drop_last(), g);
    }
}

/// The polylines read from one cross-section file.
#[derive(Debug)]
pub struct CrossObject {
    pub info: CrossInformation,
    pub data: Vec<Cross>,
}

impl CrossObject {
    /// The polylines as contracts see them.
    pub open spec fn crosses(&self) -> Seq<CrossView> {
        views(self.data@)
    }

    /// Reads the polylines of a file given as its lines and orders them by their
    /// lowest elevation.
    pub fn new(info: CrossInformation, lines: &Vec<String>) -> (r: Result<CrossObject, CrossReadError>)
        requires
            lines@.len() < i32::MAX,
        ensures
            match r {
                Ok(o) => {
                    &&& info.read_result(lines@) is Ok
                    &&& stable_sort_of(o.crosses(), info.read_result(lines@)->Ok_0, Axis::Z)
                    &&& all_polylines(o.crosses())
                    &&& o.info == info
                },
                Err(e) => info.read_result(lines@) == Err::<Seq<CrossView>, CrossReadError>(e),
            },
    {
        match info.read(lines) {
            Ok(data) => {
                let mut object = CrossObject { info, data };
                proof {
                    assert forall|i: int| 0 <= i < object.crosses().len() implies (
                    #[trigger] object.crosses()[i]).1.len() > 0 by {
                        assert(object.crosses()[i].1.len() >= 2);
                    }
                }
                object.sort_crosses_data(Axis::Z);
                proof {
                    assert forall|i: int| 0 <= i < object.crosses().len() implies (
                    #[trigger] object.crosses()[i]).1.len() >= 2 by {
                        lemma_sorted_keeps_members(object.crosses(), views(data@), Axis::Z, i);
                    }
                }
                Ok(object)
            },
            Err(e) => Err(e),
        }
    }

    /// Orders the polylines stably by their smallest coordinate along `axis`.
    pub fn sort_crosses_data(&mut self, axis: Axis)
        requires
            all_nonempty(old(self).crosses()),
        ensures
            stable_sort_of(final(self).crosses(), old(self).crosses(), axis),
            final(self).info == old(self).info,
    {
        let mut taken: Vec<Cross> = Vec::new();
        std::mem::swap(&mut taken, &mut self.data);
        self.data = sort_by_axis(taken, axis);
    }

    /// Drops every polyline equal to an earlier one.
    pub fn remove_duplicates(&mut self)
        ensures
            final(self).crosses() == dedup_spec(old(self).crosses()),
            final(self).info == old(self).info,
    {
        let mut taken: Vec<Cross> = Vec::new();
        std::mem::swap(&mut taken, &mut self.data);
        self.data = dedup(taken);
    }

    /// Group numbers of the polylines equal to an earlier one, in order.
    pub fn take_duplicates(&self) -> (r: Vec<i32>)
        ensures
            r@ == repeated_groups(self.crosses()),
    {
        let ghost s = self.crosses();
        let mut out: Vec<i32> = Vec::new();
        let mut i: usize = 0;
        assert(s.take(0) =~= Seq::<CrossView>::empty());
        while i < self.data.len()
            invariant
                s == self.crosses(),
                i <= s.len(),
                out@ == repeated_groups(s.take(i as int)),
            decreases s.len() - i,
        {
            assert(s.take(i + 1).drop_last() =~= s.take(i as int));
            assert(s.take(i + 1).last() == self.data@[i as int]@);
            if contains_before(&self.data, i, &self.data[i]) {
                out.push(self.data[i].group_no);
            }
            i = i + 1;
        }
        assert(s.take(i as int) =~= s);
        out
    }

    /// The last polyline with group number `group_no`, if any.
    pub fn get_cross_by_groupno(&self, group_no: i32) -> (r: Option<&Cross>)
        ensures
            match r {
                Some(c) => {
                    let k = last_group_index(self.crosses(), group_no);
                    0 <= k < self.crosses().len() && c@ == self.crosses()[k]
                },
                None => last_group_index(self.crosses(), group_no) == -1,
            },
    {
        let ghost s = self.crosses();
        let mut found: Option<usize> = None;
        let mut i: usize = 0;
        assert(s.take(0) =~= Seq::<CrossView>::empty());
        while i < self.data.len()
            invariant
                s == self.crosses(),
                i <= s.len(),
                match found {
                    Some(k) => k as int == last_group_index(s.take(i as int), group_no) && k < i,
                    None => last_group_index(s.take(i as int), group_no) == -1,
                },
            decreases s.len() - i,
        {
            assert(s.take(i + 1).drop_last() =~= s.take(i as int));
            assert(s.take(i + 1).last() == self.data@[i as int]@);
            if self.data[i].group_no == group_no {
                found = Some(i);
            }
            i = i + 1;
        }
        assert(s.take(i as int) =~= s);
        match found {
            Some(k) => Some(&self.data[k]),
            None => None,
        }
    }

    /// The smallest coordinate along `axis` of the first polyline.
    pub fn get_min_axis_value(&self, axis: Axis) -> (r: i64)
        requires
            self.crosses().len() > 0,
            self.crosses()[0].1.len() > 0,
        ensures
            r == key_of(self.crosses()[0], axis),
    {
        self.data[0].get_minimum_by_axis(axis)
    }

    /// Keeps only the polylines whose group number is listed in `group_number`.
    pub fn remove_crosses_by_group_numbers(&mut self, group_number: Vec<i32>)
        ensures
            final(self).crosses() == old(self).crosses().filter(in_groups(group_number@)),
            final(self).info == old(self).info,
    {
        let mut rest: Vec<Cross> = Vec::new();
        std::mem::swap(&mut rest, &mut self.data);
        let ghost inp = views(rest@);
        let n = rest.len();
        assert(inp.take(0) =~= Seq::<CrossView>::empty());
        assert(self.crosses() =~= Seq::<CrossView>::empty().filter(in_groups(group_number@))) by {
            assert(Seq::<CrossView>::empty().filter(in_groups(group_number@)) =~= Seq::<CrossView>::empty()) by {
                reveal(Seq::filter);
            }
        }
        while rest.len() > 0
            invariant
                n == inp.len(),
                rest@.len() <= n,
                views(rest@) == inp.skip(n - rest@.len()),
                self.crosses() == inp.take(n - rest@.len()).filter(in_groups(group_number@)),
                self.info == old(self).info,
                inp == old(self).crosses(),
            decreases rest@.len(),
        {
            let ghost done = n - rest@.len();
            let ghost old_rest = rest@;
            assert(views(old_rest)[0] == old_rest[0]@);
            let c = rest.remove(0);
            assert(views(rest@) =~= inp.skip(done + 1)) by {
                assert forall|p: int| 0 <= p < rest@.len() implies views(rest@)[p] == inp.skip(
                    done + 1,
                )[p] by {
                    assert(rest@[p] == old_rest[p + 1]);
                    assert(views(old_rest)[p + 1] == old_rest[p + 1]@);
                }
            }
            assert(inp.take(done + 1) =~= inp.take(done).push(c@));
            proof {
                inp.take(done).lemma_filter_push(c@, in_groups(group_number@));
            }
            if group_contains(&group_number, c.group_no) {
                self.data.push(c);
                assert(self.crosses() =~= inp.take(done).filter(in_groups(group_number@)).push(c@));
            }
        }
        assert(inp.take(n as int) =~= inp);
    }

    /// Group numbers of the polylines whose lowest elevation is at or below
    /// `min_drill_value`, in order.
    pub fn get_deeper_than_min_drill(&self, min_drill_value: i64) -> (r: Vec<i32>)
        requires
            all_nonempty(self.crosses()),
        ensures
            r@ == self.crosses().filter(reaches_down_to(min_drill_value)).map_values(
                |c: CrossView| c.0,
            ),
    {
        let ghost s = self.crosses();
        let ghost p = reaches_down_to(min_drill_value);
        let mut out: Vec<i32> = Vec::new();
        let mut i: usize = 0;
        assert(s.take(0) =~= Seq::<CrossView>::empty());
        assert(s.take(0).filter(p) =~= Seq::<CrossView>::empty()) by {
            reveal(Seq::filter);
        }
        while i < self.data.len()
            invariant
                s == self.crosses(),
                p == reaches_down_to(min_drill_value),
                all_nonempty(s),
                i <= s.len(),
                out@ == s.take(i as int).filter(p).map_values(|c: CrossView| c.0),
            decreases s.len() - i,
        {
            assert(s.take(i + 1) =~= s.take(i as int).push(s[i as int]));
            proof {
                s.take(i as int).lemma_filter_push(s[i as int], p);
            }
            assert(s[i as int] == self.data@[i as int]@);
            assert(s[i as int].1.len() > 0);
            let m = self.data[i].give_minimum_z_value();
            if m <= min_drill_value {
                out.push(self.data[i].group_no);
                assert(out@ =~= s.take(i + 1).filter(p).map_values(|c: CrossView| c.0));
            }
            i = i + 1;
        }
        assert(s.take(i as int) =~= s);
        out
    }

    /// The smallest coordinate along `axis` over all polylines.
    pub fn take_min_axis_coordinate_from_crosses(&self, axis: Axis) -> (r: i64)
        requires
            self.crosses().len() > 0,
            all_nonempty(self.crosses()),
        ensures
            is_min_key(self.crosses(), axis, r),
    {
        let ghost s = self.crosses();
        assert(s[0] == self.data@[0]@);
        let mut m = self.data[0].get_minimum_by_axis(axis);
        let mut i: usize = 1;
        while i < self.data.len()
            invariant
                s == self.crosses(),
                all_nonempty(s),
                1 <= i <= s.len(),
                exists|k: int| 0 <= k < i && key_of(s[k], axis) == m,
                forall|k: int| 0 <= k < i ==> m <= key_of(#[trigger] s[k], axis),
            decreases s.len() - i,
        {
            assert(s[i as int] == self.data@[i as int]@);
            assert(s[i as int].1.len() > 0);
            let v = self.data[i].get_minimum_by_axis(axis);
            if v <= m {
                m = v;
            }
            i = i + 1;
        }
        m
    }

    /// The frame spanned by the lowest corner of the first polyline and the highest
    /// corner of the last one. It bounds every polyline only when the polylines lie in
    /// that order along every axis; [`CrossObject::find_full_model_frame`] scans them all.
    pub fn find_model_frame(&self) -> (r: Extent)
        requires
            self.crosses().len() > 0,
            all_nonempty(self.crosses()),
        ensures
            ({
                let first = self.crosses()[0].1;
                let last = self.crosses().last().1;
                &&& r.min_x == extent_of(first).min_x
                &&& r.min_y == extent_of(first).min_y
                &&& r.min_z == extent_of(first).min_z
                &&& r.max_x == extent_of(last).max_x
                &&& r.max_y == extent_of(last).max_y
                &&& r.max_z == extent_of(last).max_z
            }),
    {
        let n = self.data.len();
        let ghost s = self.crosses();
        assert(s[0] == self.data@[0]@);
        assert(s[n - 1] == self.data@[n - 1]@);
        let first = &self.data[0];
        let last = &self.data[n - 1];
        Extent::new(
            first.give_minimum_x_value(),
            first.give_minimum_y_value(),
            first.give_minimum_z_value(),
            last.give_maximum_x_value(),
            last.give_maximum_y_value(),
            last.give_maximum_z_value(),
        )
    }

    /// The bounding box of all polylines, from a scan of every vertex.
    pub fn find_full_model_frame(&self) -> (r: Extent)
        requires
            self.crosses().len() > 0,
            all_nonempty(self.crosses()),
        ensures
            r == frame_of(self.crosses()),
            forall|i: int, j: int|
                0 <= i < self.crosses().len() && 0 <= j < self.crosses()[i].1.len() ==> inside(
                    r,
                    #[trigger] self.crosses()[i].1[j],
                ),
    {
        let ghost s = self.crosses();
        assert(s[0] == self.data@[0]@);
        let mut frame = self.data[0].extent();
        let mut i: usize = 1;
        assert(s.take(1).len() == 1 && s.take(1)[0] == s[0]);
        while i < self.data.len()
            invariant
                s == self.crosses(),
                all_nonempty(s),
                1 <= i <= s.len(),
                frame == frame_of(s.take(i as int)),
            decreases s.len() - i,
        {
            assert(s[i as int] == self.data@[i as int]@);
            assert(s[i as int].1.len() > 0);
            let e = self.data[i].extent();
            assert(s.take(i + 1).drop_last() =~= s.take(i as int));
            frame = frame.union(&e);
            i = i + 1;
        }
        assert(s.take(i as int) =~= s);
        proof {
            lemma_frame_contains(s);
        }
        frame
    }

    /// The horizontal positions of the vertices of the polyline at `index`, as x and y
    /// series for drawing.
    pub fn points_to_draw(&self, index: usize) -> (r: Option<(Vec<i64>, Vec<i64>)>)
        ensures
            match r {
                Some(xy) => index < self.crosses().len() && xy.0@ == self.crosses()[index as int].1.map_values(
                    |p: CrossCoordinate3d| p.x_coord,
                ) && xy.1@ == self.crosses()[index as int].1.map_values(
                    |p: CrossCoordinate3d| p.y_coord,
                ),
                None => index >= self.crosses().len(),
            },
    {
        if index >= self.data.len() {
            return None;
        }
        let pts = &self.data[index].coordinate;
        assert(self.crosses()[index as int].1 == pts@);
        let mut xs: Vec<i64> = Vec::new();
        let mut ys: Vec<i64> = Vec::new();
        let mut i: usize = 0;
        while i < pts.len()
            invariant
                i <= pts@.len(),
                xs@ =~= pts@.take(i as int).map_values(|p: CrossCoordinate3d| p.x_coord),
                ys@ =~= pts@.take(i as int).map_values(|p: CrossCoordinate3d| p.y_coord),
            decreases pts@.len() - i,
        {
            xs.push(pts[i].x_coord);
            ys.push(pts[i].y_coord);
            i = i + 1;
        }
        assert(pts@.take(i as int) =~= pts@);
        Some((xs, ys))
    }
}

/// A stable sort holds only polylines of its input.
proof fn lemma_sorted_keeps_members(out: Seq<CrossView>, inp: Seq<CrossView>, axis: Axis, i: int)
    requires
        stable_sort_of(out, inp, axis),
        0 <= i < out.len(),
    ensures
        inp.contains(out[i]),
{
    let kv = key_of(out[i], axis);
    out.lemma_filter_contains(has_key(axis, kv), i);
    assert(with_key(out, axis, kv).contains(out[i]));
    assert(with_key(out, axis, kv) == with_key(inp, axis, kv));
    inp.lemma_filter_contains_rev(has_key(axis, kv), out[i]);
}

/// Whether `g` is listed in `groups`.
fn group_contains(groups: &Vec<i32>, g: i32) -> (r: bool)
    ensures
        r == groups@.contains(g),
{
    let mut i: usize = 0;
    while i < groups.len()
        invariant
            i <= groups@.len(),
            forall|j: int| 0 <= j < i ==> groups@[j] != g,
        decreases groups@.len() - i,
    {
        if groups[i] == g {
            return true;
        }
        i = i + 1;
    }
    false
}

} // verus!
