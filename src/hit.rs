//! Nearest-hit selection.
//!
//! A primitive is named by its index in the caller's list. What a ray hits is
//! given by a function from index to the order key of the hit distance, or
//! none. The nearest hit is the one of least distance; of equal distances the
//! first one met is kept.
use vstd::prelude::*;

verus! {

/// A hit: the index of the primitive and the order key of its distance along the ray.
#[derive(Clone, Copy, Debug, PartialEq, Eq, Structural)]
pub struct Hit {
    pub object: usize,
    pub t: i32,
}

/// `h` computes `hits`: each result of a call is `hits` of its argument.
pub open spec fn computes_hits<H: Fn(usize) -> Option<i32>>(
    h: H,
    hits: spec_fn(usize) -> Option<i32>,
) -> bool {
    forall|i: usize, r: Option<i32>| #[trigger] h.ensures((i,), r) ==> r == hits(i)
}

pub open spec fn hits_callable<H: Fn(usize) -> Option<i32>>(h: H) -> bool {
    forall|i: usize| #[trigger] h.requires((i,))
}

/// One step of the scan: the candidate replaces the best so far only when it
/// is strictly nearer.
pub open spec fn keep_nearer(best: Option<Hit>, object: usize, candidate: Option<i32>) -> Option<Hit> {
    match candidate {
        None => best,
        Some(t) => match best {
            None => Some(Hit { object, t }),
            Some(b) => if t < b.t {
                Some(Hit { object, t })
            } else {
                best
            },
        },
    }
}

/// The nearest hit among `objects`, scanned in order.
pub open spec fn scan(objects: Seq<usize>, hits: spec_fn(usize) -> Option<i32>) -> Option<Hit>
    decreases objects.len(),
{
    if objects.len() == 0 {
        None
    } else {
        keep_nearer(scan(objects.drop_last(), hits), objects.last(), hits(objects.last()))
    }
}

/// The indices `0, 1, ..., n - 1`.
pub open spec fn indices(n: nat) -> Seq<usize> {
    Seq::new(n, |i: int| i as usize)
}

/// `r` is a nearest hit among the primitives for which `member` holds: none
/// when none of them is hit, else a hit of one of them at a distance that no
/// other of them undercuts.
pub open spec fn is_nearest(
    r: Option<Hit>,
    member: spec_fn(usize) -> bool,
    hits: spec_fn(usize) -> Option<i32>,
) -> bool {
    match r {
        None => forall|i: usize| #[trigger] member(i) ==> hits(i).is_none(),
        Some(h) => {
            &&& member(h.object)
            &&& hits(h.object) == Some(h.t)
            &&& forall|i: usize| #[trigger] member(i) && hits(i).is_some() ==> h.t <= hits(i).unwrap()
        },
    }
}

pub open spec fn member_of(s: Seq<usize>) -> spec_fn(usize) -> bool {
    |i: usize| s.contains(i)
}

/// The scan finds a nearest hit among the scanned primitives.
pub proof fn lemma_scan_is_nearest(objects: Seq<usize>, hits: spec_fn(usize) -> Option<i32>)
    ensures
        is_nearest(scan(objects, hits), member_of(objects), hits),
    decreases objects.len(),
{
    if objects.len() > 0 {
        let rest = objects.drop_last();
        lemma_scan_is_nearest(rest, hits);
        assert forall|i: usize| objects.contains(i) <==> (rest.contains(i) || i == objects.last()) by {
            if objects.contains(i) {
                let k = choose|k: int| 0 <= k < objects.len() && objects[k] == i;
                if k < objects.len() - 1 {
                    assert(rest[k] == i);
                }
            }
            if rest.contains(i) {
                let k = choose|k: int| 0 <= k < rest.len() && rest[k] == i;
                assert(objects[k] == i);
            }
            if i == objects.last() {
                assert(objects[objects.len() - 1] == i);
            }
        }
        let last = objects.last();
        let prev = scan(rest, hits);
        match scan(objects, hits) {
            None => {
                assert forall|i: usize| #[trigger] member_of(objects)(i) implies hits(i).is_none() by {
                    if i != last {
                        assert(member_of(rest)(i));
                    }
                }
            },
            Some(h) => {
                assert forall|i: usize| #[trigger] member_of(objects)(i) && hits(i).is_some() implies h.t
                    <= hits(i).unwrap() by {
                    if i != last {
                        assert(member_of(rest)(i));
                    }
                }
                if h.object != last || hits(last) != Some(h.t) {
                    assert(prev == Some(h));
                    assert(member_of(rest)(h.object));
                }
            },
        }
    }
}

/// Two nearest hits among the same primitives are at the same distance, and
/// are the same hit where no two of those primitives are hit at one distance.
pub proof fn lemma_nearest_unique(
    a: Option<Hit>,
    b: Option<Hit>,
    member: spec_fn(usize) -> bool,
    hits: spec_fn(usize) -> Option<i32>,
)
    requires
        is_nearest(a, member, hits),
        is_nearest(b, member, hits),
    ensures
        a.is_none() <==> b.is_none(),
        a.is_some() && b.is_some() ==> a.unwrap().t == b.unwrap().t,
        (forall|i: usize, j: usize|
            member(i) && member(j) && i != j && #[trigger] hits(i).is_some() && #[trigger] hits(j).is_some()
                ==> hits(i) != hits(j)) ==> a == b,
{
    match (a, b) {
        (Some(x), Some(y)) => {
            assert(member(y.object) && hits(y.object).is_some());
            assert(member(x.object) && hits(x.object).is_some());
        },
        (Some(x), None) => {
            assert(member(x.object));
        },
        (None, Some(y)) => {
            assert(member(y.object));
        },
        (None, None) => {},
    }
}

/// The nearest hit among `objects`, in the order given; of equal distances
/// the earliest is kept.
pub fn nearest_among<H: Fn(usize) -> Option<i32>>(objects: &Vec<usize>, hit: &H) -> (r: Option<Hit>)
    requires
        hits_callable(*hit),
    ensures
        forall|hits: spec_fn(usize) -> Option<i32>| computes_hits(*hit, hits) ==> r == scan(objects@, hits),
{
    let mut best: Option<Hit> = None;
    let mut k: usize = 0;
    while k < objects.len()
        invariant
            k <= objects.len(),
            hits_callable(*hit),
            forall|hits: spec_fn(usize) -> Option<i32>|
                computes_hits(*hit, hits) ==> best == scan(objects@.take(k as int), hits),
        decreases objects.len() - k,
    {
        let object = objects[k];
        let candidate = hit(object);
        let ghost prev = best;
        match candidate {
            None => {},
            Some(t) => {
                let nearer = match best {
                    None => true,
                    Some(b) => t < b.t,
                };
                if nearer {
                    best = Some(Hit { object, t });
                }
            },
        }
        assert forall|hits: spec_fn(usize) -> Option<i32>| computes_hits(*hit, hits) implies best
            == scan(objects@.take(k + 1), hits) by {
            assert(objects@.take(k + 1).drop_last() =~= objects@.take(k as int));
            assert(candidate == hits(object));
        }
        k = k + 1;
    }
    assert(objects@.take(k as int) =~= objects@);
    best
}

/// The nearest hit among primitives `0` to `count - 1`, tested one by one in
/// order; of equal distances the earliest is kept.
pub fn nearest_of_all<H: Fn(usize) -> Option<i32>>(count: usize, hit: &H) -> (r: Option<Hit>)
    requires
        hits_callable(*hit),
    ensures
        forall|hits: spec_fn(usize) -> Option<i32>|
            computes_hits(*hit, hits) ==> r == scan(indices(count as nat), hits),
{
    let mut best: Option<Hit> = None;
    let mut k: usize = 0;
    while k < count
        invariant
            k <= count,
            hits_callable(*hit),
            forall|hits: spec_fn(usize) -> Option<i32>|
                computes_hits(*hit, hits) ==> best == scan(indices(count as nat).take(k as int), hits),
        decreases count - k,
    {
        let candidate = hit(k);
        match candidate {
            None => {},
            Some(t) => {
                let nearer = match best {
                    None => true,
                    Some(b) => t < b.t,
                };
                if nearer {
                    best = Some(Hit { object: k, t });
                }
            },
        }
        assert forall|hits: spec_fn(usize) -> Option<i32>| computes_hits(*hit, hits) implies best
            == scan(indices(count as nat).take(k + 1), hits) by {
            let s = indices(count as nat);
            assert(s.take(k + 1).drop_last() =~= s.take(k as int));
            assert(s.take(k + 1).last() == k);
            assert(candidate == hits(k));
        }
        k = k + 1;
    }
    assert(indices(count as nat).take(k as int) =~= indices(count as nat));
    best
}

} // verus!
