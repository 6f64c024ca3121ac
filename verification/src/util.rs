use vstd::prelude::*;
use vstd::multiset::Multiset;

verus! {

broadcast use vstd::seq_lib::group_to_multiset_ensures;

/// Values that carry a rating by which they are ordered.
pub trait Rated {
    spec fn spec_rating(&self) -> int;

    fn rating(&self) -> (r: i64)
        ensures
            r as int == self.spec_rating(),
    ;
}

impl Rated for (i32, Vec<u32>) {
    open spec fn spec_rating(&self) -> int {
        self.0 as int
    }

    fn rating(&self) -> (r: i64) {
        self.0 as i64
    }
}

impl Rated for (i32, Vec<u32>, Vec<Vec<u32>>) {
    open spec fn spec_rating(&self) -> int {
        self.0 as int
    }

    fn rating(&self) -> (r: i64) {
        self.0 as i64
    }
}

impl Rated for (i32, Vec<u32>, Vec<(i32, Vec<u32>)>) {
    open spec fn spec_rating(&self) -> int {
        self.0 as int
    }

    fn rating(&self) -> (r: i64) {
        self.0 as i64
    }
}

impl Rated for (i32, Vec<u32>, Vec<Vec<u32>>, Vec<(i32, Vec<u32>)>) {
    open spec fn spec_rating(&self) -> int {
        self.0 as int
    }

    fn rating(&self) -> (r: i64) {
        self.0 as i64
    }
}

impl Rated for (i64, usize) {
    open spec fn spec_rating(&self) -> int {
        self.0 as int
    }

    fn rating(&self) -> (r: i64) {
        self.0
    }
}

/// `a` may stand before `b`: not smaller when sorting by decreasing
/// rating, not larger otherwise.
pub open spec fn in_order(a: int, b: int, descending: bool) -> bool {
    if descending {
        a >= b
    } else {
        a <= b
    }
}

fn in_order_exec(a: i64, b: i64, descending: bool) -> (r: bool)
    ensures
        r == in_order(a as int, b as int, descending),
{
    if descending {
        a >= b
    } else {
        a <= b
    }
}

/// The ratings in `s` are ordered: decreasing if `descending`, increasing
/// otherwise.
pub open spec fn sorted_by<E: Rated>(s: Seq<E>, descending: bool) -> bool {
    forall|i: int, j: int| 0 <= i < j < s.len() ==> in_order(s[i].spec_rating(), s[j].spec_rating(), descending)
}

/// The best rating among the first `k` elements: the highest if
/// `descending`, the lowest otherwise.
pub open spec fn best_of<E: Rated>(s: Seq<E>, descending: bool, k: int) -> int
    decreases k,
{
    if k <= 1 {
        s[0].spec_rating()
    } else {
        let prev = best_of(s, descending, k - 1);
        let last = s[k - 1].spec_rating();
        if in_order(last, prev, descending) {
            last
        } else {
            prev
        }
    }
}

pub proof fn lemma_best_of<E: Rated>(s: Seq<E>, descending: bool, k: int)
    requires
        1 <= k <= s.len(),
    ensures
        forall|j: int| 0 <= j < k ==> in_order(best_of(s, descending, k), #[trigger] s[j].spec_rating(), descending),
        exists|j: int| 0 <= j < k && #[trigger] s[j].spec_rating() == best_of(s, descending, k),
    decreases k,
{
    if k > 1 {
        lemma_best_of(s, descending, k - 1);
        let prev = best_of(s, descending, k - 1);
        if !in_order(s[k - 1].spec_rating(), prev, descending) {
            let j = choose|j: int| 0 <= j < k - 1 && #[trigger] s[j].spec_rating() == prev;
            assert(s[j].spec_rating() == best_of(s, descending, k));
        }
    } else {
        assert(s[0].spec_rating() == best_of(s, descending, k));
    }
}

/// The ratings in `s` never increase from left to right.
pub open spec fn sorted_desc<E: Rated>(s: Seq<E>) -> bool {
    forall|i: int, j: int| 0 <= i < j < s.len() ==> s[i].spec_rating() >= s[j].spec_rating()
}

/// Sorts by decreasing rating.
pub fn sort_descending<E: Rated>(v: Vec<E>) -> (r: Vec<E>)
    ensures
        sorted_desc(r@),
        r@.to_multiset() == v@.to_multiset(),
{
    let r = sort_ordered(v, true);
    assert forall|i: int, j: int| 0 <= i < j < r@.len() implies r@[i].spec_rating() >= r@[j].spec_rating() by {
        assert(in_order(r@[i].spec_rating(), r@[j].spec_rating(), true));
    }
    r
}

/// Sorts by decreasing (`descending`) or increasing rating.  Elements with
/// equal rating keep their relative order.
pub fn sort_ordered<E: Rated>(v: Vec<E>, descending: bool) -> (r: Vec<E>)
    ensures
        sorted_by(r@, descending),
        r@.to_multiset() == v@.to_multiset(),
{
    let mut src = v;
    let mut res: Vec<E> = Vec::new();
    while src.len() > 0
        invariant
            sorted_by(res@, descending),
            res@.to_multiset().add(src@.to_multiset()) == v@.to_multiset(),
        decreases src.len(),
    {
        let ghost old_src = src@;
        let x = src.remove(0);
        assert(old_src.to_multiset() == src@.to_multiset().insert(x)) by {
            assert(src@ == old_src.remove(0));
        }
        let key = x.rating();
        let mut pos: usize = 0;
        while pos < res.len() && in_order_exec(res[pos].rating(), key, descending)
            invariant
                pos <= res.len(),
                forall|k: int| 0 <= k < pos ==> in_order(res@[k].spec_rating(), key as int, descending),
            decreases res.len() - pos,
        {
            pos += 1;
        }
        let ghost old_res = res@;
        res.insert(pos, x);
        assert(res@ == old_res.insert(pos as int, x));
        assert(res@.to_multiset() == old_res.to_multiset().insert(x));
        assert forall|i: int, j: int| 0 <= i < j < res@.len() implies in_order(res@[i].spec_rating(),
            res@[j].spec_rating(), descending) by {
            if j < pos {
            } else if j == pos {
            } else if i < pos {
                assert(res@[j] == old_res[j - 1]);
                if pos < old_res.len() {
                    assert(!in_order(old_res[pos as int].spec_rating(), key as int, descending));
                }
                assert(in_order(old_res[i].spec_rating(), key as int, descending));
                if (j - 1) >= pos {
                    assert(in_order(old_res[pos as int].spec_rating(), old_res[j - 1].spec_rating(), descending));
                }
            } else if i == pos {
                assert(res@[j] == old_res[j - 1]);
                assert(!in_order(old_res[pos as int].spec_rating(), key as int, descending));
                assert(in_order(old_res[pos as int].spec_rating(), old_res[j - 1].spec_rating(), descending)
                    || pos as int == j - 1);
            } else {
                assert(res@[j] == old_res[j - 1]);
                assert(res@[i] == old_res[i - 1]);
            }
        }
        assert(res@.to_multiset().add(src@.to_multiset()) =~= v@.to_multiset());
    }
    assert(src@.to_multiset() =~= Multiset::empty());
    assert(res@.to_multiset().add(Multiset::empty()) =~= res@.to_multiset());
    res
}

} // verus!
