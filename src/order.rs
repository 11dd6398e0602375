//! Stable ordering of pages by date.
use vstd::prelude::*;
use crate::metadata::{Date, date_le, date_le_exec};

verus! {

/// `a` comes strictly before `b` in calendar order (absent dates first).
pub open spec fn date_lt(a: Option<Date>, b: Option<Date>) -> bool {
    date_le(a, b) && !date_le(b, a)
}

/// Position `x` goes before position `y` when sorting `d`: by date (ascending, or
/// descending when `desc`), and by position among equal dates.
pub open spec fn before(d: Seq<Option<Date>>, desc: bool, x: int, y: int) -> bool {
    if desc {
        date_lt(d[y], d[x]) || (d[x] == d[y] && x < y)
    } else {
        date_lt(d[x], d[y]) || (d[x] == d[y] && x < y)
    }
}

/// `x` is listed in `p`.
pub open spec fn occurs(p: Seq<usize>, x: int) -> bool {
    exists|a: int| 0 <= a < p.len() && #[trigger] p[a] == x
}

/// `p` lists every position of `d` once, in the stable order by date.
pub open spec fn is_stable_order(d: Seq<Option<Date>>, desc: bool, p: Seq<usize>) -> bool {
    &&& p.len() == d.len()
    &&& forall|a: int| 0 <= a < p.len() ==> #[trigger] p[a] < d.len()
    &&& forall|x: int| 0 <= x < d.len() ==> #[trigger] occurs(p, x)
    &&& forall|a: int, b: int|
        0 <= a < b < p.len() ==> #[trigger] before(d, desc, p[a] as int, p[b] as int)
}

pub proof fn lemma_date_total(a: Option<Date>, b: Option<Date>, c: Option<Date>)
    ensures
        date_le(a, b) || date_le(b, a),
        date_le(a, b) && date_le(b, a) ==> a == b,
        date_le(a, b) && date_le(b, c) ==> date_le(a, c),
{
}

pub proof fn lemma_before_order(d: Seq<Option<Date>>, desc: bool, x: int, y: int, z: int)
    ensures
        x != y ==> (before(d, desc, x, y) || before(d, desc, y, x)),
        !(before(d, desc, x, y) && before(d, desc, y, x)),
        before(d, desc, x, y) && before(d, desc, y, z) ==> before(d, desc, x, z),
{
    lemma_date_total(d[x], d[y], d[z]);
    lemma_date_total(d[y], d[z], d[x]);
    lemma_date_total(d[z], d[x], d[y]);
    lemma_date_total(d[x], d[z], d[y]);
    lemma_date_total(d[y], d[x], d[z]);
    lemma_date_total(d[z], d[y], d[x]);
}

/// The positions of `dates` in stable order by date: ascending, or descending when `desc`.
pub fn stable_order(dates: &Vec<Option<Date>>, desc: bool) -> (r: Vec<usize>)
    ensures
        is_stable_order(dates@, desc, r@),
{
    let ghost d = dates@;
    let mut out: Vec<usize> = Vec::new();
    let mut i: usize = 0;
    while i < dates.len()
        invariant
            d == dates@,
            i <= d.len(),
            out@.len() == i,
            forall|a: int| 0 <= a < out@.len() ==> #[trigger] out@[a] < i,
            forall|x: int| 0 <= x < i ==> #[trigger] occurs(out@, x),
            forall|a: int, b: int|
                0 <= a < b < out@.len() ==> #[trigger] before(d, desc, out@[a] as int, out@[b] as int),
        decreases d.len() - i,
    {
        // first position whose element goes after `i`
        let mut p: usize = 0;
        while p < out.len() && !goes_before(dates, desc, i, out[p])
            invariant
                d == dates@,
                i < d.len(),
                p <= out@.len(),
                out@.len() == i,
                forall|a: int| 0 <= a < out@.len() ==> #[trigger] out@[a] < i,
                forall|a: int| 0 <= a < p ==> before(d, desc, #[trigger] out@[a] as int, i as int),
            decreases out@.len() - p,
        {
            proof {
                lemma_before_order(d, desc, i as int, out@[p as int] as int, 0);
            }
            p += 1;
        }
        let ghost old_out = out@;
        proof {
            if p < old_out.len() {
                assert forall|b: int| p <= b < old_out.len() implies before(
                    d,
                    desc,
                    i as int,
                    #[trigger] old_out[b] as int,
                ) by {
                    if b > p {
                        assert(before(d, desc, old_out[p as int] as int, old_out[b] as int));
                        lemma_before_order(d, desc, i as int, old_out[p as int] as int, old_out[b] as int);
                    }
                }
            }
        }
        out.insert(p, i);
        proof {
            assert(out@ == old_out.insert(p as int, i));
            assert forall|a: int, b: int|
                0 <= a < b < out@.len() implies #[trigger] before(d, desc, out@[a] as int, out@[b] as int) by {
                if b < p {
                    assert(before(d, desc, old_out[a] as int, old_out[b] as int));
                } else if b == p {
                } else if a < p {
                    assert(before(d, desc, old_out[a] as int, i as int));
                    assert(before(d, desc, i as int, old_out[b - 1] as int));
                    lemma_before_order(d, desc, old_out[a] as int, i as int, old_out[b - 1] as int);
                } else if a == p {
                } else {
                    assert(before(d, desc, old_out[a - 1] as int, old_out[b - 1] as int));
                }
            }
            assert forall|x: int| 0 <= x < i + 1 implies #[trigger] occurs(out@, x) by {
                if x == i {
                    assert(out@[p as int] == x);
                } else {
                    assert(occurs(old_out, x));
                    let a = choose|a: int| 0 <= a < old_out.len() && #[trigger] old_out[a] == x;
                    if a < p {
                        assert(out@[a] == x);
                    } else {
                        assert(out@[a + 1] == x);
                    }
                }
            }
        }
        i += 1;
    }
    out
}

fn goes_before(dates: &Vec<Option<Date>>, desc: bool, x: usize, y: usize) -> (r: bool)
    requires
        x < dates@.len(),
        y < dates@.len(),
    ensures
        r == before(dates@, desc, x as int, y as int),
{
    let dx = &dates[x];
    let dy = &dates[y];
    let le_xy = date_le_exec(dx, dy);
    let le_yx = date_le_exec(dy, dx);
    proof {
        lemma_date_total(*dx, *dy, *dx);
    }
    let eq = le_xy && le_yx;
    if desc {
        (le_yx && !le_xy) || (eq && x < y)
    } else {
        (le_xy && !le_yx) || (eq && x < y)
    }
}

} // verus!
