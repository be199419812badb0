use vstd::prelude::*;

use crate::text::{decimal, push_decimal};

verus! {

/// The cycles held in a vector of vectors, as sequences of points.
pub open spec fn cycles_of(v: Seq<Vec<usize>>) -> Seq<Seq<usize>> {
    v.map_values(|c: Vec<usize>| c@)
}

/// Point `x` occurs in one of the cycles.
pub open spec fn in_cycles(cs: Seq<Seq<usize>>, x: int) -> bool {
    exists|c: int, j: int| 0 <= c < cs.len() && 0 <= j < cs[c].len() && cs[c][j] == x
}

/// Every cycle is non-empty, every point is positive and below `usize::MAX`, and no point occurs
/// twice, neither in one cycle nor in two.
pub open spec fn valid_cycles(cs: Seq<Seq<usize>>) -> bool {
    &&& forall|c: int| 0 <= c < cs.len() ==> #[trigger] cs[c].len() > 0
    &&& forall|c: int, j: int|
        0 <= c < cs.len() && 0 <= j < cs[c].len() ==> 1 <= #[trigger] cs[c][j] < usize::MAX
    &&& forall|c1: int, j1: int, c2: int, j2: int|
        0 <= c1 < cs.len() && 0 <= j1 < cs[c1].len() && 0 <= c2 < cs.len() && 0 <= j2
            < cs[c2].len() && #[trigger] cs[c1][j1] == #[trigger] cs[c2][j2] ==> c1 == c2 && j1
            == j2
}

/// `k` is the largest point of the cycles, or 0 when there is none.
pub open spec fn is_max_point(cs: Seq<Seq<usize>>, k: int) -> bool {
    &&& forall|c: int, j: int|
        0 <= c < cs.len() && 0 <= j < cs[c].len() ==> #[trigger] cs[c][j] <= k
    &&& (k == 0 || in_cycles(cs, k))
    &&& k >= 0
}

/// The position that follows `j` in a cycle of length `len`, wrapping to the start.
pub open spec fn next_pos(j: int, len: int) -> int {
    if j + 1 == len {
        0
    } else {
        j + 1
    }
}

/// The point that cycle `c` sends its `j`-th point to.
pub open spec fn cycle_next(cs: Seq<Seq<usize>>, c: int, j: int) -> int {
    cs[c][next_pos(j, cs[c].len() as int)] as int
}

/// `t[1..=k]` is a permutation of `1..=k`.
pub open spec fn perm_on(t: Seq<usize>, k: int) -> bool {
    &&& t.len() == k + 1
    &&& forall|x: int| 1 <= x <= k ==> 1 <= #[trigger] t[x] <= k
    &&& forall|x: int, y: int| 1 <= x <= k && 1 <= y <= k && #[trigger] t[x] == #[trigger] t[y] ==> x == y
}

/// `t` sends each point of the cycles to the next one, and fixes every other point of `1..=k`.
pub open spec fn table_follows(cs: Seq<Seq<usize>>, t: Seq<usize>, k: int) -> bool {
    &&& t.len() == k + 1
    &&& forall|c: int, j: int|
        0 <= c < cs.len() && 0 <= j < cs[c].len() ==> t[#[trigger] cs[c][j] as int] == cycle_next(cs, c, j)
    &&& forall|x: int| 1 <= x <= k && !in_cycles(cs, x) ==> #[trigger] t[x] == x
}

/// A finite permutation of the positive integers, given by disjoint cycles.
///
/// `original` holds the cycles as they were given; `table[x]` is the image of `x` for
/// `1 <= x <= k`, where `k` is the largest point of the cycles.
#[derive(Debug, Clone)]
pub struct Replacement {
    original: Vec<Vec<usize>>,
    table: Vec<usize>,
    k: usize,
}

/// Points `x` in the cycles have `t[x]` next to them, so they lie in `1..=k`, and `t` is a
/// permutation of `1..=k`.
#[verifier::rlimit(40)]
pub proof fn lemma_table_is_perm(cs: Seq<Seq<usize>>, t: Seq<usize>, k: int)
    requires
        valid_cycles(cs),
        is_max_point(cs, k),
        table_follows(cs, t, k),
    ensures
        perm_on(t, k),
{
    assert forall|x: int| 1 <= x <= k implies 1 <= #[trigger] t[x] <= k by {
        if in_cycles(cs, x) {
            let (c, j) = choose|c: int, j: int|
                0 <= c < cs.len() && 0 <= j < cs[c].len() && cs[c][j] == x;
            let nj = next_pos(j, cs[c].len() as int);
            assert(cs[c][nj] <= k);
        }
    }
    assert forall|x: int, y: int|
        1 <= x <= k && 1 <= y <= k && #[trigger] t[x] == #[trigger] t[y] implies x == y by {
        if in_cycles(cs, x) {
            let (c, j) = choose|c: int, j: int|
                0 <= c < cs.len() && 0 <= j < cs[c].len() && cs[c][j] == x;
            let nj = next_pos(j, cs[c].len() as int);
            if in_cycles(cs, y) {
                let (c2, j2) = choose|c2: int, j2: int|
                    0 <= c2 < cs.len() && 0 <= j2 < cs[c2].len() && cs[c2][j2] == y;
                let nj2 = next_pos(j2, cs[c2].len() as int);
                assert(cs[c][nj] == cs[c2][nj2]);
            } else {
                assert(t[y] == y);
                assert(cs[c][nj] == y);
                assert(in_cycles(cs, y));
            }
        } else {
            if in_cycles(cs, y) {
                let (c2, j2) = choose|c2: int, j2: int|
                    0 <= c2 < cs.len() && 0 <= j2 < cs[c2].len() && cs[c2][j2] == y;
                let nj2 = next_pos(j2, cs[c2].len() as int);
                assert(cs[c2][nj2] == x);
                assert(in_cycles(cs, x));
            }
        }
    }
}

impl Replacement {
    /// The cycles as they were given.
    pub closed spec fn cycles(&self) -> Seq<Seq<usize>> {
        cycles_of(self.original@)
    }

    /// The largest point the permutation may move.
    pub closed spec fn bound(&self) -> int {
        self.k as int
    }

    /// The image table: entry `x` is the image of `x`, for `1 <= x <= bound()`.
    pub closed spec fn images(&self) -> Seq<usize> {
        self.table@
    }

    /// The image of point `i`; points beyond the bound are fixed.
    pub open spec fn img(&self, i: int) -> int {
        if i > self.bound() || i >= self.images().len() {
            i
        } else {
            self.images()[i] as int
        }
    }

    #[verifier::opaque]
    pub closed spec fn wf(&self) -> bool {
        &&& valid_cycles(self.cycles())
        &&& is_max_point(self.cycles(), self.k as int)
        &&& table_follows(self.cycles(), self.table@, self.k as int)
        &&& perm_on(self.table@, self.k as int)
    }

    /// What a well-formed value offers its users: the image table is a permutation of
    /// `1..=bound()` that follows the cycles.
    pub proof fn lemma_wf(&self)
        requires
            self.wf(),
        ensures
            valid_cycles(self.cycles()),
            is_max_point(self.cycles(), self.bound()),
            table_follows(self.cycles(), self.images(), self.bound()),
            perm_on(self.images(), self.bound()),
            self.bound() < usize::MAX,
    {
        reveal(Replacement::wf);
        if self.k > 0 {
            let (c, j) = choose|c: int, j: int|
                0 <= c < self.cycles().len() && 0 <= j < self.cycles()[c].len()
                    && self.cycles()[c][j] == self.k;
        }
    }

    /// The image table has an entry for each point up to the bound.
    pub proof fn lemma_images_len(&self)
        requires
            self.wf(),
        ensures
            self.images().len() == self.bound() + 1,
    {
        reveal(Replacement::wf);
    }

    /// The identity permutation.
    pub fn e() -> (r: Replacement)
        ensures
            r.wf(),
            r.bound() == 0,
            r.cycles() == Seq::<Seq<usize>>::empty(),
            forall|i: int| i >= 1 ==> #[trigger] r.img(i) == i,
    {
        let mut table: Vec<usize> = Vec::new();
        table.push(0);
        let r = Replacement { original: Vec::new(), table, k: 0 };
        assert(r.cycles() =~= Seq::<Seq<usize>>::empty());
        proof {
            reveal(Replacement::wf);
        }
        r
    }

    /// The permutation made of the given disjoint cycles: each point goes to the next one of
    /// its cycle, the last point of a cycle to the first.
    #[verifier::rlimit(40)]
    pub fn new(cycles: Vec<Vec<usize>>) -> (r: Replacement)
        requires
            valid_cycles(cycles_of(cycles@)),
        ensures
            r.wf(),
            r.cycles() == cycles_of(cycles@),
            is_max_point(r.cycles(), r.bound()),
            forall|c: int, j: int|
                0 <= c < r.cycles().len() && 0 <= j < r.cycles()[c].len() ==> r.img(
                    #[trigger] r.cycles()[c][j] as int,
                ) == cycle_next(r.cycles(), c, j),
            forall|x: int| x >= 1 && !in_cycles(r.cycles(), x) ==> #[trigger] r.img(x) == x,
    {
        let ghost cs = cycles_of(cycles@);
        if cycles.len() == 0 {
            let r = Replacement::e();
            assert(cs =~= Seq::<Seq<usize>>::empty());
            return r;
        }
        // the largest point

        let mut k: usize = 0;
        let mut c: usize = 0;
        while c < cycles.len()
            invariant
                cs == cycles_of(cycles@),
                valid_cycles(cs),
                0 <= c <= cycles.len(),
                forall|c2: int, j: int|
                    0 <= c2 < c && 0 <= j < cs[c2].len() ==> #[trigger] cs[c2][j] <= k,
                k == 0 || in_cycles(cs, k as int),
            decreases cycles.len() - c,
        {
            let mut j: usize = 0;
            while j < cycles[c].len()
                invariant
                    cs == cycles_of(cycles@),
                    valid_cycles(cs),
                    0 <= c < cycles.len(),
                    0 <= j <= cs[c as int].len(),
                    forall|c2: int, j2: int|
                        0 <= c2 < c && 0 <= j2 < cs[c2].len() ==> #[trigger] cs[c2][j2] <= k,
                    forall|j2: int| 0 <= j2 < j ==> #[trigger] cs[c as int][j2] <= k,
                    k == 0 || in_cycles(cs, k as int),
                decreases cs[c as int].len() - j,
            {
                if cycles[c][j] > k {
                    k = cycles[c][j];
                    assert(cs[c as int][j as int] == k);
                }
                j = j + 1;
            }
            c = c + 1;
        }
        assert(cs[0].len() > 0);
        assert(cs[0][0] >= 1);
        assert(k >= 1);
        // every point fixed, then each cycle written in, the last one given first

        let mut table: Vec<usize> = Vec::new();
        let mut x: usize = 0;
        while x <= k
            invariant
                0 <= x <= k + 1,
                k < usize::MAX,
                table@.len() == x,
                forall|y: int| 0 <= y < x ==> #[trigger] table@[y] == y,
            decreases k + 1 - x,
        {
            table.push(x);
            x = x + 1;
        }
        let mut c: usize = cycles.len();
        while c > 0
            invariant
                cs == cycles_of(cycles@),
                valid_cycles(cs),
                is_max_point(cs, k as int),
                0 <= c <= cycles.len(),
                table@.len() == k + 1,
                forall|c2: int, j: int|
                    c <= c2 < cs.len() && 0 <= j < cs[c2].len() ==> table@[#[trigger] cs[c2][j] as int]
                        == cycle_next(cs, c2, j),
                forall|y: int|
                    0 <= y <= k && (forall|c2: int, j: int|
                        c <= c2 < cs.len() && 0 <= j < cs[c2].len() ==> #[trigger] cs[c2][j] != y)
                        ==> #[trigger] table@[y] == y,
            decreases c,
        {
            c = c - 1;
            let len = cycles[c].len();
            let mut j: usize = 0;
            while j < len
                invariant
                    cs == cycles_of(cycles@),
                    valid_cycles(cs),
                    is_max_point(cs, k as int),
                    0 <= c < cycles.len(),
                    len == cs[c as int].len(),
                    0 <= j <= len,
                    table@.len() == k + 1,
                    forall|c2: int, j2: int|
                        c < c2 < cs.len() && 0 <= j2 < cs[c2].len() ==> table@[#[trigger] cs[c2][j2] as int]
                            == cycle_next(cs, c2, j2),
                    forall|j2: int|
                        0 <= j2 < j ==> table@[#[trigger] cs[c as int][j2] as int] == cycle_next(
                            cs,
                            c as int,
                            j2,
                        ),
                    forall|y: int|
                        0 <= y <= k && (forall|c2: int, j2: int|
                            c < c2 < cs.len() && 0 <= j2 < cs[c2].len() ==> #[trigger] cs[c2][j2]
                                != y) && (forall|j2: int| 0 <= j2 < j ==> #[trigger] cs[c as int][j2] != y)
                            ==> #[trigger] table@[y] == y,
                decreases len - j,
            {
                let nj: usize = if j + 1 == len {
                    0
                } else {
                    j + 1
                };
                let p = cycles[c][j];
                let q = cycles[c][nj];
                assert(cs[c as int][j as int] == p);
                assert(cs[c as int][nj as int] == q);
                table.set(p, q);
                proof {
                    assert forall|c2: int, j2: int|
                        c < c2 < cs.len() && 0 <= j2 < cs[c2].len() implies table@[
                            #[trigger] cs[c2][j2] as int] == cycle_next(cs, c2, j2) by {
                        assert(cs[c2][j2] != cs[c as int][j as int]);
                    }
                    assert forall|j2: int|
                        0 <= j2 <= j implies table@[#[trigger] cs[c as int][j2] as int]
                            == cycle_next(cs, c as int, j2) by {
                        if j2 < j {
                            assert(cs[c as int][j2] != cs[c as int][j as int]);
                        }
                    }
                }
                j = j + 1;
            }
        }
        let ghost t = table@;
        assert forall|y: int| 1 <= y <= k && !in_cycles(cs, y) implies #[trigger] t[y] == y by {
            assert forall|c2: int, j: int|
                0 <= c2 < cs.len() && 0 <= j < cs[c2].len() implies #[trigger] cs[c2][j] != y by {
                if cs[c2][j] == y {
                    assert(in_cycles(cs, y));
                }
            }
        }
        proof {
            lemma_table_is_perm(cs, t, k as int);
        }
        let r = Replacement { original: cycles, table, k };
        proof {
            reveal(Replacement::wf);
        }
        r
    }

    /// The largest point the permutation may move.
    pub fn get_k(&self) -> (r: usize)
        ensures
            r == self.bound(),
    {
        self.k
    }

    /// The image of point `i`, which must not be 0.
    pub fn replace(&self, i: usize) -> (r: usize)
        requires
            self.wf(),
            i >= 1,
        ensures
            r == self.img(i as int),
            i > self.bound() ==> r == i,
            1 <= r,
            i <= self.bound() ==> r <= self.bound(),
    {
        proof {
            self.lemma_wf();
        }
        if i > self.k {
            return i;
        }
        self.table[i]
    }


    /// The largest point that the permutation moves, or `None` for the identity.
    pub fn get_correct_k(&self) -> (r: Option<usize>)
        requires
            self.wf(),
        ensures
            r matches Some(i) ==> 1 <= i <= self.bound() && self.img(i as int) != i,
            r matches Some(i) ==> forall|j: int| i < j ==> #[trigger] self.img(j) == j,
            r is None ==> forall|j: int| j >= 1 ==> #[trigger] self.img(j) == j,
    {
        let mut i: usize = self.k;
        while i >= 1
            invariant
                self.wf(),
                0 <= i <= self.k,
                forall|j: int| i < j ==> #[trigger] self.img(j) == j,
            decreases i,
        {
            if self.replace(i) != i {
                return Some(i);
            }
            i = i - 1;
        }
        None
    }

    /// The first point in `1..=bound()` whose image is `val`, which must not be 0. There is
    /// none when `val` is fixed.
    pub fn rev_find(&self, val: usize) -> (r: Option<usize>)
        requires
            self.wf(),
            val >= 1,
        ensures
            r matches Some(x) ==> 1 <= x <= self.bound() && self.img(x as int) == val,
            r matches Some(x) ==> forall|y: int| 1 <= y < x ==> #[trigger] self.img(y) != val,
            r is None ==> forall|y: int| 1 <= y <= self.bound() ==> #[trigger] self.img(y) != val,
    {
        proof {
            self.lemma_wf();
        }
        let mut i: usize = 1;
        while i <= self.k
            invariant
                self.wf(),
                1 <= i <= self.k + 1,
                self.k < usize::MAX,
                forall|y: int| 1 <= y < i ==> #[trigger] self.img(y) != val,
            decreases self.k + 1 - i,
        {
            if self.replace(i) == val {
                return Some(i);
            }
            i = i + 1;
        }
        None
    }

    /// The permutation made of the cycles of `self` followed by those of `other`; together they
    /// must still be disjoint.
    pub fn concat_before(&self, other: &Replacement) -> (r: Replacement)
        requires
            self.wf(),
            other.wf(),
            valid_cycles(self.cycles() + other.cycles()),
        ensures
            r.wf(),
            r.cycles() == self.cycles() + other.cycles(),
            forall|c: int, j: int|
                0 <= c < r.cycles().len() && 0 <= j < r.cycles()[c].len() ==> r.img(
                    #[trigger] r.cycles()[c][j] as int,
                ) == cycle_next(r.cycles(), c, j),
            forall|x: int| x >= 1 && !in_cycles(r.cycles(), x) ==> #[trigger] r.img(x) == x,
    {
        let mut all: Vec<Vec<usize>> = Vec::new();
        copy_cycles(&self.original, &mut all);
        copy_cycles(&other.original, &mut all);
        assert(cycles_of(all@) =~= self.cycles() + other.cycles());
        Replacement::new(all)
    }
}

/// `a` and `b` send every point to the same place.
pub open spec fn same_action(a: Replacement, b: Replacement) -> bool {
    forall|i: int| i >= 1 ==> #[trigger] a.img(i) == b.img(i)
}

/// Appends a copy of each cycle of `src` to `dst`.
fn copy_cycles(src: &Vec<Vec<usize>>, dst: &mut Vec<Vec<usize>>)
    ensures
        cycles_of(final(dst)@) == cycles_of(old(dst)@) + cycles_of(src@),
{
    let ghost start = dst@;
    let mut c: usize = 0;
    while c < src.len()
        invariant
            0 <= c <= src.len(),
            dst@.len() == start.len() + c,
            forall|i: int| 0 <= i < start.len() ==> #[trigger] dst@[i]@ == start[i]@,
            forall|i: int| 0 <= i < c ==> #[trigger] dst@[start.len() + i]@ == src@[i]@,
        decreases src.len() - c,
    {
        let mut v: Vec<usize> = Vec::new();
        let mut j: usize = 0;
        while j < src[c].len()
            invariant
                0 <= c < src.len(),
                0 <= j <= src@[c as int]@.len(),
                v@ == src@[c as int]@.subrange(0, j as int),
            decreases src@[c as int]@.len() - j,
        {
            v.push(src[c][j]);
            j = j + 1;
            assert(v@ =~= src@[c as int]@.subrange(0, j as int));
        }
        assert(v@ =~= src@[c as int]@);
        dst.push(v);
        c = c + 1;
        assert forall|i: int| 0 <= i < c implies #[trigger] dst@[start.len() + i]@ == src@[i]@ by {
            if i < c - 1 {
            }
        }
    }
    assert(cycles_of(dst@) =~= cycles_of(start) + cycles_of(src@)) by {
        assert forall|i: int| 0 <= i < dst@.len() implies #[trigger] cycles_of(dst@)[i] == (
        cycles_of(start) + cycles_of(src@))[i] by {
            if i >= start.len() {
                assert(dst@[start.len() + (i - start.len())]@ == src@[i - start.len()]@);
            }
        }
    }
}

impl Replacement {
    /// The image of point `i`, read from the table where it has an entry.
    fn image_of(&self, i: usize) -> (r: usize)
        ensures
            r == self.img(i as int),
    {
        if i > self.k || i >= self.table.len() {
            i
        } else {
            self.table[i]
        }
    }
}

impl PartialEq for Replacement {
    /// Two permutations are equal when they send every point to the same place.
    fn eq(&self, other: &Replacement) -> (r: bool) {
        let k = if self.k >= other.k {
            self.k
        } else {
            other.k
        };
        let mut j: usize = 0;
        while j < k
            invariant
                0 <= j <= k,
                k == self.k || k == other.k,
                self.k <= k && other.k <= k,
                forall|i: int| 1 <= i <= j ==> #[trigger] self.img(i) == other.img(i),
            decreases k - j,
        {
            if self.image_of(j + 1) != other.image_of(j + 1) {
                return false;
            }
            j = j + 1;
        }
        true
    }
}

impl vstd::std_specs::cmp::PartialEqSpecImpl for Replacement {
    open spec fn obeys_eq_spec() -> bool {
        true
    }

    open spec fn eq_spec(&self, other: &Replacement) -> bool {
        same_action(*self, *other)
    }
}

/// `t` lists the images of the points `1..=t.len()` in order, and is a permutation of them.
pub open spec fn is_perm_table(t: Seq<usize>) -> bool {
    &&& forall|i: int| 0 <= i < t.len() ==> 1 <= #[trigger] t[i] <= t.len()
    &&& forall|i: int, j: int|
        0 <= i < t.len() && 0 <= j < t.len() && #[trigger] t[i] == #[trigger] t[j] ==> i == j
}

/// A sequence of distinct points of `1..=n` has at most `n` entries.
proof fn lemma_distinct_points_bound(s: Seq<usize>, n: int)
    requires
        s.no_duplicates(),
        forall|i: int| 0 <= i < s.len() ==> 1 <= #[trigger] s[i] <= n,
        n >= 0,
    ensures
        s.len() <= n,
{
    let si = s.map_values(|x: usize| x as int);
    assert forall|i: int, j: int| 0 <= i < si.len() && 0 <= j < si.len() && i != j implies si[i]
        != si[j] by {
        assert(s[i] != s[j]);
    }
    si.unique_seq_to_set();
    vstd::set_lib::lemma_int_range(1, n + 1);
    assert forall|a: int| si.to_set().contains(a) implies vstd::set_lib::set_int_range(
        1,
        n + 1,
    ).contains(a) by {
        assert(si.contains(a));
        let m = choose|m: int| 0 <= m < si.len() && si[m] == a;
        assert(1 <= s[m] <= n);
    }
    vstd::set_lib::lemma_len_subset(si.to_set(), vstd::set_lib::set_int_range(1, n + 1));
}

/// A point lies in the cycles with one more cycle pushed exactly when it lies in the cycles
/// or in that cycle.
proof fn lemma_in_cycles_push(cs: Seq<Seq<usize>>, ch: Seq<usize>, x: int)
    requires
        0 <= x <= usize::MAX,
    ensures
        in_cycles(cs.push(ch), x) <==> (in_cycles(cs, x) || ch.contains(x as usize)),
{
    let cs2 = cs.push(ch);
    assert(cs2[cs.len() as int] == ch);
    if in_cycles(cs2, x) {
        let (c, j) = choose|c: int, j: int|
            0 <= c < cs2.len() && 0 <= j < cs2[c].len() && cs2[c][j] == x;
        if c < cs.len() {
            assert(cs[c][j] == x);
        } else {
            assert(ch[j] == x);
        }
    }
    if in_cycles(cs, x) {
        let (c, j) = choose|c: int, j: int|
            0 <= c < cs.len() && 0 <= j < cs[c].len() && cs[c][j] == x;
        assert(cs2[c][j] == x);
    }
    if ch.contains(x as usize) {
        let j = choose|j: int| 0 <= j < ch.len() && ch[j] == x as usize;
        assert(cs2[cs.len() as int][j] == x);
    }
}

impl Replacement {
    /// The permutation whose image table is `corr_book`: entry `i - 1` is the image of point
    /// `i`. Its cycles are found by following each orbit from its smallest point, taking the
    /// points from 1 upward; fixed points give no cycle.
    #[verifier::rlimit(50)]
    pub fn from_correspond_book(corr_book: &Vec<usize>) -> (r: Replacement)
        requires
            is_perm_table(corr_book@),
            corr_book@.len() < usize::MAX,
        ensures
            r.wf(),
            acts_as_table(r, corr_book@),
            no_trivial_cycle(r.cycles()),
    {
        let ghost t = corr_book@;
        let n = corr_book.len();
        let mut book: Vec<bool> = Vec::new();
        book.push(false);
        let mut x: usize = 1;
        while x <= n
            invariant
                1 <= x <= n + 1,
                n < usize::MAX,
                book@.len() == x,
                forall|y: int| 1 <= y < x ==> #[trigger] book@[y],
            decreases n + 1 - x,
        {
            book.push(true);
            x = x + 1;
        }
        let mut table: Vec<Vec<usize>> = Vec::new();
        let mut i: usize = 1;
        while i <= n
            invariant
                t == corr_book@,
                n == t.len(),
                n < usize::MAX,
                is_perm_table(t),
                1 <= i <= n + 1,
                book@.len() == n + 1,
                forall|y: int|
                    1 <= y <= n ==> (!#[trigger] book@[y] <==> (y < i || in_cycles(
                        cycles_of(table@),
                        y,
                    ))),
                valid_cycles(cycles_of(table@)),
                forall|c: int|
                    0 <= c < table@.len() ==> #[trigger] cycles_of(table@)[c].len() >= 2,
                forall|c: int, j: int|
                    0 <= c < table@.len() && 0 <= j < cycles_of(table@)[c].len() ==> 1
                        <= #[trigger] cycles_of(table@)[c][j] <= n,
                forall|c: int, j: int|
                    0 <= c < table@.len() && 0 <= j < cycles_of(table@)[c].len() ==> t[#[trigger] cycles_of(table@)[c][j] - 1]
                        == cycle_next(cycles_of(table@), c, j),
                forall|y: int|
                    1 <= y < i && !in_cycles(cycles_of(table@), y) ==> #[trigger] t[y - 1] == y,
            decreases n + 1 - i,
        {
            let ghost cs = cycles_of(table@);
            if book[i] {
                book.set(i, false);
                let mut dist = corr_book[i - 1];
                if dist != i {
                    let mut chain: Vec<usize> = Vec::new();
                    chain.push(i);
                    proof {
                        assert forall|y: int|
                            1 <= y <= n implies (!#[trigger] book@[y] <==> (y < i || in_cycles(cs, y)
                                || chain@.contains(y as usize))) by {
                            if y == i {
                                assert(chain@[0] == y);
                            } else if chain@.contains(y as usize) {
                                let m = choose|m: int| 0 <= m < chain@.len() && chain@[m] == y;
                                assert(m == 0);
                            }
                        }
                    }
                    while dist != chain[0]
                        invariant
                            t == corr_book@,
                            n == t.len(),
                            n < usize::MAX,
                            is_perm_table(t),
                            1 <= i <= n,
                            cs == cycles_of(table@),
                            book@.len() == n + 1,
                            chain@.len() >= 1,
                            chain@[0] == i,
                            chain@.no_duplicates(),
                            forall|m: int| 0 <= m < chain@.len() ==> 1 <= #[trigger] chain@[m] <= n,
                            forall|m: int|
                                0 <= m < chain@.len() ==> !in_cycles(cs, #[trigger] chain@[m] as int),
                            forall|m: int|
                                0 <= m < chain@.len() - 1 ==> t[#[trigger] chain@[m] - 1] == chain@[m + 1],
                            dist == t[chain@.last() - 1],
                            chain@.len() >= 2 || dist != chain@[0],
                            forall|y: int|
                                1 <= y <= n ==> (!#[trigger] book@[y] <==> (y < i || in_cycles(cs, y)
                                    || chain@.contains(y as usize))),
                            forall|y: int| 1 <= y < i && !in_cycles(cs, y) ==> #[trigger] t[y - 1] == y,
                            forall|c: int, j: int|
                                0 <= c < cs.len() && 0 <= j < cs[c].len() ==> t[#[trigger] cs[c][j] - 1]
                                    == cycle_next(cs, c, j),
                            valid_cycles(cs),
                            forall|c: int, j: int|
                                0 <= c < cs.len() && 0 <= j < cs[c].len() ==> 1 <= #[trigger] cs[c][j] <= n,
                        decreases n - chain@.len(),
                    {
                        let ghost last = chain@.last();
                        let ghost len = chain@.len();
                        proof {
                            assert(1 <= last <= n);
                            // `dist` is not yet in the chain
                            assert forall|m: int| 0 <= m < len implies chain@[m] != dist by {
                                if m > 0 && chain@[m] == dist {
                                    assert(t[chain@[m - 1] - 1] == chain@[m]);
                                    assert(chain@[m - 1] - 1 == last - 1);
                                }
                            }
                            // nor in an earlier cycle
                            if in_cycles(cs, dist as int) {
                                let (c, j) = choose|c: int, j: int|
                                    0 <= c < cs.len() && 0 <= j < cs[c].len() && cs[c][j] == dist;
                                let cl = cs[c].len() as int;
                                let jp = if j == 0 {
                                    cl - 1
                                } else {
                                    j - 1
                                };
                                assert(next_pos(jp, cl) == j);
                                assert(t[cs[c][jp] - 1] == dist);
                                assert(cs[c][jp] - 1 == last - 1);
                                assert(!in_cycles(cs, chain@[len - 1] as int));
                            }
                            // nor below `i`
                            if dist < i {
                                assert(t[dist - 1] == dist);
                                assert(dist - 1 == last - 1);
                                assert(chain@[len - 1] == dist);
                            }
                            lemma_distinct_points_bound(chain@.push(dist), n as int);
                        }
                        let ghost oc = chain@;
                        let ghost od = dist;
                        chain.push(dist);
                        book.set(dist, false);
                        dist = corr_book[dist - 1];
                        proof {
                            assert(chain@ == oc.push(od));
                            assert(chain@[oc.len() as int] == od);
                            assert forall|y: int|
                                1 <= y <= n implies (!#[trigger] book@[y] <==> (y < i || in_cycles(
                                    cs,
                                    y,
                                ) || chain@.contains(y as usize))) by {
                                if y == chain@.last() {
                                    assert(chain@[oc.len() as int] == y);
                                } else {
                                    if oc.contains(y as usize) {
                                        let m = choose|m: int| 0 <= m < oc.len() && oc[m] == y;
                                        assert(chain@[m] == y);
                                    }
                                    if chain@.contains(y as usize) {
                                        let m = choose|m: int|
                                            0 <= m < chain@.len() && chain@[m] == y;
                                        assert(oc[m] == y);
                                    }
                                }
                            }
                        }
                    }
                    let ghost ch = chain@;
                    table.push(chain);
                    proof {
                        let cs2 = cs.push(ch);
                        assert(cycles_of(table@) =~= cs2);
                        assert forall|y: int| 1 <= y <= n implies #[trigger] in_cycles(cs2, y) == (in_cycles(cs, y)
                            || ch.contains(y as usize)) by {
                            lemma_in_cycles_push(cs, ch, y);
                        }
                        assert(ch[0] == i);
                        assert(in_cycles(cs2, i as int));
                        let cl = cs.len() as int;
                        assert forall|c1: int, j1: int, c2: int, j2: int|
                            0 <= c1 < cs2.len() && 0 <= j1 < cs2[c1].len() && 0 <= c2 < cs2.len()
                                && 0 <= j2 < cs2[c2].len() && #[trigger] cs2[c1][j1]
                                == #[trigger] cs2[c2][j2] implies c1 == c2 && j1 == j2 by {
                            if c1 == cl && c2 < cl {
                                assert(in_cycles(cs, cs2[c2][j2] as int));
                                assert(!in_cycles(cs, ch[j1] as int));
                            } else if c2 == cl && c1 < cl {
                                assert(in_cycles(cs, cs2[c1][j1] as int));
                                assert(!in_cycles(cs, ch[j2] as int));
                            }
                        }
                        assert forall|c: int, j: int|
                            0 <= c < cs2.len() && 0 <= j < cs2[c].len() implies t[#[trigger] cs2[c][j] - 1]
                                == cycle_next(cs2, c, j) by {
                            if c == cl {
                                if j < ch.len() - 1 {
                                    assert(t[ch[j] - 1] == ch[j + 1]);
                                }
                            } else {
                                assert(cs2[c] == cs[c]);
                                assert(t[cs[c][j] - 1] == cycle_next(cs, c, j));
                            }
                        }
                        assert forall|c: int|
                            0 <= c < cs2.len() implies 1 <= #[trigger] cs2[c].len() && cs2[c].len()
                                >= 2 by {
                            if c < cl {
                                assert(cs2[c] == cs[c]);
                            }
                        }
                        assert forall|c: int, j: int|
                            0 <= c < cs2.len() && 0 <= j < cs2[c].len() implies 1 <= #[trigger] cs2[c][j]
                                <= n by {
                            if c < cl {
                                assert(cs2[c] == cs[c]);
                            }
                        }
                    }
                }
            }
            i = i + 1;
        }
        Replacement::new(table)
    }
}

/// `r` sends point `i` to `t[i - 1]` for `1 <= i <= t.len()`, and fixes every larger point.
pub open spec fn acts_as_table(r: Replacement, t: Seq<usize>) -> bool {
    &&& forall|i: int| 1 <= i <= t.len() ==> #[trigger] r.img(i) == t[i - 1]
    &&& forall|i: int| i > t.len() ==> #[trigger] r.img(i) == i
}

/// Every cycle moves at least two points.
pub open spec fn no_trivial_cycle(cs: Seq<Seq<usize>>) -> bool {
    forall|c: int| 0 <= c < cs.len() ==> #[trigger] cs[c].len() >= 2
}

/// The images of the points `1..=bound()` of `p`, in order.
pub open spec fn image_table_of(p: Replacement) -> Seq<usize> {
    Seq::new(p.bound() as nat, |i: int| p.images()[i + 1])
}

impl Replacement {
    /// The images of the points `1..=get_k()`, in order.
    #[verifier::rlimit(40)]
    pub fn image_table(&self) -> (r: Vec<usize>)
        requires
            self.wf(),
        ensures
            r@ == image_table_of(*self),
            is_perm_table(r@),
    {
        proof {
            self.lemma_wf();
        }
        let ghost m = self.images();
        let mut t: Vec<usize> = Vec::new();
        let mut i: usize = 1;
        while i <= self.k
            invariant
                self.wf(),
                m == self.images(),
                self.k < usize::MAX,
                m.len() == self.k + 1,
                1 <= i <= self.k + 1,
                t@.len() == i - 1,
                forall|j: int| 0 <= j < i - 1 ==> #[trigger] t@[j] == m[j + 1],
            decreases self.k + 1 - i,
        {
            t.push(self.replace(i));
            i = i + 1;
        }
        assert(t@ =~= image_table_of(*self));
        proof {
            assert forall|a: int| 0 <= a < t@.len() implies 1 <= #[trigger] t@[a] <= t@.len() by {
                assert(1 <= m[a + 1] <= self.k);
            }
            assert forall|a: int, b: int|
                0 <= a < t@.len() && 0 <= b < t@.len() && #[trigger] t@[a] == #[trigger] t@[b] implies a
                    == b by {
                assert(m[a + 1] == m[b + 1]);
            }
        }
        t
    }

    /// The same permutation, with its cycles found anew from where it sends each point: each
    /// orbit is followed from its smallest point, taking the points from 1 upward up to the
    /// largest point moved; fixed points give no cycle.
    #[verifier::rlimit(40)]
    pub fn rearrange(&self) -> (r: Replacement)
        requires
            self.wf(),
        ensures
            r.wf(),
            same_action(r, *self),
            no_trivial_cycle(r.cycles()),
    {
        proof {
            self.lemma_wf();
        }
        let k = match self.get_correct_k() {
            Some(k) => k,
            None => {
                let r = Replacement::e();
                assert(r.cycles().len() == 0);
                return r;
            },
        };
        let mut t: Vec<usize> = Vec::new();
        let mut i: usize = 1;
        while i <= k
            invariant
                self.wf(),
                self.k < usize::MAX,
                perm_on(self.images(), self.bound()),
                1 <= k <= self.k,
                forall|j: int| k < j ==> #[trigger] self.img(j) == j,
                1 <= i <= k + 1,
                t@.len() == i - 1,
                forall|j: int| 0 <= j < i - 1 ==> #[trigger] t@[j] == self.img(j + 1),
            decreases k + 1 - i,
        {
            t.push(self.replace(i));
            i = i + 1;
        }
        proof {
            assert forall|a: int| 0 <= a < t@.len() implies 1 <= #[trigger] t@[a] <= t@.len() by {
                let y = self.img(a + 1);
                if y > k {
                    assert(self.img(y) == y);
                    assert(self.images()[y] == self.images()[a + 1]);
                }
            }
            assert forall|a: int, b: int|
                0 <= a < t@.len() && 0 <= b < t@.len() && #[trigger] t@[a] == #[trigger] t@[b] implies a
                    == b by {
                assert(self.images()[a + 1] == self.images()[b + 1]);
            }
        }
        Replacement::from_correspond_book(&t)
    }
}

/// Rebuilding a permutation from its image table and then finding its cycles anew gives a
/// permutation equal to the one started from.
#[verifier::rlimit(40)]
pub proof fn lemma_canonical_round_trip(p: Replacement, q: Replacement, r: Replacement)
    requires
        p.wf(),
        q.wf(),
        acts_as_table(q, image_table_of(p)),
        r.wf(),
        same_action(r, q),
    ensures
        same_action(r, p),
{
    p.lemma_images_len();
    let t = image_table_of(p);
    assert forall|i: int| i >= 1 implies #[trigger] r.img(i) == p.img(i) by {
        assert(r.img(i) == q.img(i));
        if i <= p.bound() {
            assert(t[i - 1] == p.images()[i]);
        }
    }
}

impl Replacement {
    /// The point that is sent to `y`.
    pub open spec fn preimage(&self, y: int) -> int {
        choose|x: int| x >= 1 && self.img(x) == y
    }

    /// On the positive integers the permutation is one to one and onto, and the points
    /// `1..=bound()` are sent among themselves.
    #[verifier::rlimit(40)]
    pub proof fn lemma_bijective(&self)
        requires
            self.wf(),
        ensures
            forall|x: int| x >= 1 ==> #[trigger] self.img(x) >= 1,
            forall|x: int| 1 <= x <= self.bound() ==> #[trigger] self.img(x) <= self.bound(),
            forall|x: int, y: int| x >= 1 && y >= 1 && #[trigger] self.img(x) == #[trigger] self.img(y) ==> x == y,
            forall|y: int| y >= 1 ==> #[trigger] self.preimage(y) >= 1 && self.img(self.preimage(y)) == y,
    {
        self.lemma_wf();
        let k = self.bound();
        let m = self.images();
        assert forall|x: int, y: int| x >= 1 && y >= 1 && #[trigger] self.img(x) == #[trigger] self.img(y) implies x == y by {
            if x <= k && y <= k {
                assert(m[x] == m[y]);
            } else if x <= k {
                assert(1 <= m[x] <= k);
            } else if y <= k {
                assert(1 <= m[y] <= k);
            }
        }
        assert forall|y: int| y >= 1 implies #[trigger] self.preimage(y) >= 1 && self.img(self.preimage(y)) == y by {
            if y > k {
                assert(self.img(y) == y);
            } else {
                lemma_perm_onto(m, k, y);
                let x = choose|x: int| 1 <= x <= k && #[trigger] m[x] == y;
                assert(self.img(x) == y);
            }
        }
    }
}

/// A permutation table of `1..=k` reaches every point of `1..=k`.
proof fn lemma_perm_onto(m: Seq<usize>, k: int, y: int)
    requires
        perm_on(m, k),
        1 <= y <= k,
    ensures
        exists|x: int| 1 <= x <= k && #[trigger] m[x] == y,
{
    if forall|x: int| 1 <= x <= k ==> #[trigger] m[x] != y {
        let s = Seq::new(k as nat, |i: int| if m[i + 1] > y { (m[i + 1] - 1) as usize } else { m[i + 1] });
        assert forall|i: int| 0 <= i < s.len() implies 1 <= #[trigger] s[i] <= k - 1 by {
            assert(1 <= m[i + 1] <= k);
            assert(m[i + 1] != y);
        }
        assert forall|i: int, j: int| 0 <= i < s.len() && 0 <= j < s.len() && i != j implies s[i] != s[j] by {
            assert(m[i + 1] != y);
            assert(m[j + 1] != y);
            assert(m[i + 1] != m[j + 1]);
        }
        lemma_distinct_points_bound(s, k - 1);
    }
}

/// A permutation that fixes every point beyond `t.len()` and has no cycle of one point
/// moves nothing beyond `t.len()`.
pub proof fn lemma_bound_of_table(r: Replacement, t: Seq<usize>)
    requires
        r.wf(),
        acts_as_table(r, t),
        no_trivial_cycle(r.cycles()),
    ensures
        r.bound() <= t.len(),
{
    r.lemma_wf();
    let k = r.bound();
    let cs = r.cycles();
    if k > t.len() {
        let (c, j) = choose|c: int, j: int| 0 <= c < cs.len() && 0 <= j < cs[c].len() && cs[c][j] == k;
        let nj = next_pos(j, cs[c].len() as int);
        assert(cs[c][nj] != cs[c][j]);
        assert(r.img(k) == r.images()[k]);
        assert(r.img(k) == k);
    }
}

/// Whether `t` is a permutation table of `1..=t.len()`.
#[verifier::rlimit(40)]
pub fn check_perm_table(t: &Vec<usize>) -> (r: bool)
    requires
        t@.len() < usize::MAX,
    ensures
        r == is_perm_table(t@),
{
    let n = t.len();
    let mut seen: Vec<bool> = Vec::new();
    let mut x: usize = 0;
    while x <= n
        invariant
            0 <= x <= n + 1,
            n < usize::MAX,
            seen@.len() == x,
            forall|y: int| 0 <= y < x ==> !#[trigger] seen@[y],
        decreases n + 1 - x,
    {
        seen.push(false);
        x = x + 1;
    }
    let mut i: usize = 0;
    while i < n
        invariant
            n == t@.len(),
            n < usize::MAX,
            0 <= i <= n,
            seen@.len() == n + 1,
            forall|a: int| 0 <= a < i ==> 1 <= #[trigger] t@[a] <= n,
            forall|a: int, b: int| 0 <= a < i && 0 <= b < i && #[trigger] t@[a] == #[trigger] t@[b] ==> a == b,
            forall|y: int| 0 <= y <= n ==> (#[trigger] seen@[y] <==> exists|a: int| 0 <= a < i && t@[a] == y),
        decreases n - i,
    {
        let x = t[i];
        if x < 1 || x > n {
            return false;
        }
        if seen[x] {
            let ghost a = choose|a: int| 0 <= a < i && t@[a] == x;
            assert(t@[a] == t@[i as int]);
            return false;
        }
        seen.set(x, true);
        i = i + 1;
        assert forall|y: int| 0 <= y <= n implies (#[trigger] seen@[y] <==> exists|a: int| 0 <= a < i && t@[a] == y) by {
            if y == x {
                assert(t@[i - 1] == y);
            } else if exists|a: int| 0 <= a < i && t@[a] == y {
                let a = choose|a: int| 0 <= a < i && t@[a] == y;
                assert(a < i - 1);
            }
        }
    }
    true
}

/// The points of a cycle in decimal, separated by single spaces.
pub open spec fn points_text(c: Seq<usize>) -> Seq<char>
    decreases c.len(),
{
    if c.len() == 0 {
        Seq::empty()
    } else if c.len() == 1 {
        decimal(c[0] as nat)
    } else {
        points_text(c.drop_last()) + seq![' '] + decimal(c.last() as nat)
    }
}

/// Each cycle in parentheses, one after the other with nothing between them.
pub open spec fn cycles_text(cs: Seq<Seq<usize>>) -> Seq<char>
    decreases cs.len(),
{
    if cs.len() == 0 {
        Seq::empty()
    } else {
        cycles_text(cs.drop_last()) + seq!['('] + points_text(cs.last()) + seq![')']
    }
}

impl Replacement {
    /// The cycle notation of the permutation, with the cycles as they were given, such as
    /// `(1 2 3 4)(5 6)`; the identity is written `e`.
    pub fn to_string(&self) -> (r: String)
        ensures
            r@ == if self.bound() == 0 {
                seq!['e']
            } else {
                cycles_text(self.cycles())
            },
    {
        let mut s = String::new();
        if self.k == 0 {
            proof {
                reveal_strlit("e");
            }
            s.append("e");
            assert(s@ =~= seq!['e']);
            return s;
        }
        let ghost cs = self.cycles();
        let mut c: usize = 0;
        while c < self.original.len()
            invariant
                cs == self.cycles(),
                0 <= c <= cs.len(),
                s@ == cycles_text(cs.subrange(0, c as int)),
            decreases cs.len() - c,
        {
            let ghost start = s@;
            proof {
                reveal_strlit("(");
                reveal_strlit(" ");
                reveal_strlit(")");
            }
            s.append("(");
            let ghost ch = cs[c as int];
            assert(ch == self.original@[c as int]@);
            let mut j: usize = 0;
            while j < self.original[c].len()
                invariant
                    cs == self.cycles(),
                    0 <= c < cs.len(),
                    ch == cs[c as int],
                    ch == self.original@[c as int]@,
                    0 <= j <= ch.len(),
                    s@ == start + seq!['('] + points_text(ch.subrange(0, j as int)),
                decreases ch.len() - j,
            {
                let ghost before = s@;
                proof {
                    reveal_strlit(" ");
                }
                if j > 0 {
                    s.append(" ");
                }
                push_decimal(&mut s, self.original[c][j]);
                proof {
                    let sub = ch.subrange(0, j + 1);
                    assert(sub.drop_last() =~= ch.subrange(0, j as int));
                    if j == 0 {
                        assert(points_text(sub) == decimal(sub[0] as nat));
                        assert(points_text(ch.subrange(0, 0)) =~= Seq::<char>::empty());
                        assert(sub[0] == ch[0]);
                        assert(before =~= start + seq!['(']);
                        assert(s@ == before + decimal(ch[0] as nat));
                        assert(start + seq!['('] + points_text(sub) == before + decimal(ch[0] as nat));
                    } else {
                        assert(sub.last() == ch[j as int]);
                        assert(s@ =~= start + seq!['('] + points_text(sub));
                    }
                }
                j = j + 1;
            }
            proof {
                reveal_strlit(")");
            }
            s.append(")");
            proof {
                let sub = cs.subrange(0, c + 1);
                assert(sub.drop_last() =~= cs.subrange(0, c as int));
                assert(ch.subrange(0, ch.len() as int) =~= ch);
                assert(s@ =~= cycles_text(sub));
            }
            c = c + 1;
        }
        assert(cs.subrange(0, cs.len() as int) =~= cs);
        s
    }
}

} // verus!
