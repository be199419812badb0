use vstd::prelude::*;

use crate::mod3::Mod3;
use crate::text::{decimal, push_decimal};
use crate::replacement::{
    acts_as_table, check_perm_table, cycles_text, is_perm_table, lemma_bound_of_table, same_action,
    Replacement,
};

verus! {

/// A square table of optional ring values; an element is encoded as a generalized permutation
/// matrix, with one present cell in each row and in each column.
pub type Matrix = Vec<Vec<Option<Mod3>>>;

/// The rows of a matrix as sequences.
pub open spec fn mat(m: Seq<Vec<Option<Mod3>>>) -> Seq<Seq<Option<Mod3>>> {
    m.map_values(|r: Vec<Option<Mod3>>| r@)
}

/// `ms` has `n` rows of `n` cells each.
pub open spec fn is_square(ms: Seq<Seq<Option<Mod3>>>, n: int) -> bool {
    &&& ms.len() == n
    &&& forall|i: int| 0 <= i < n ==> #[trigger] ms[i].len() == n
}

/// The index of the first present cell of `row` at `s` or after it, or -1 when there is none.
pub open spec fn first_from(row: Seq<Option<Mod3>>, s: int) -> int
    decreases row.len() - s,
{
    if s < 0 || s >= row.len() {
        -1
    } else if row[s] is Some {
        s
    } else {
        first_from(row, s + 1)
    }
}

/// The index of the first present cell of `row`, or -1 when there is none.
pub open spec fn first_some(row: Seq<Option<Mod3>>) -> int {
    first_from(row, 0)
}

/// Column `c` of `ms`, from the top row down.
pub open spec fn col_of(ms: Seq<Seq<Option<Mod3>>>, c: int) -> Seq<Option<Mod3>> {
    Seq::new(ms.len(), |i: int| ms[i][c])
}

/// `ms` is the matrix of the element `(p, v)`: row `i` has its one present cell, holding
/// `v[i]`, in the column `j` with `p` sending `j + 1` to `i + 1`.
pub open spec fn encodes(ms: Seq<Seq<Option<Mod3>>>, p: Replacement, v: Seq<Mod3>) -> bool {
    &&& is_square(ms, v.len() as int)
    &&& forall|i: int, j: int|
        0 <= i < v.len() && 0 <= j < v.len() ==> #[trigger] ms[i][j] == if p.img(j + 1) == i + 1 {
            Some(v[i])
        } else {
            None
        }
}

/// Every row and every column of the `n` by `n` matrix `ms` has exactly one present cell.
pub open spec fn is_gpm(ms: Seq<Seq<Option<Mod3>>>, n: int) -> bool {
    &&& is_square(ms, n)
    &&& forall|i: int| 0 <= i < n ==> 0 <= #[trigger] first_some(ms[i]) < n
    &&& forall|i: int| 0 <= i < n ==> 0 <= #[trigger] first_some(col_of(ms, i)) < n
    &&& forall|i: int, j: int|
        0 <= i < n && 0 <= j < n ==> (#[trigger] ms[i][j] is Some <==> j == first_some(ms[i]))
    &&& forall|i: int, j: int|
        0 <= i < n && 0 <= j < n ==> (#[trigger] ms[i][j] is Some <==> i == first_some(col_of(ms, j)))
}

/// Every row of `other`, and the row of `now` that it leads to, has a present cell.
pub open spec fn compose_ok(now: Seq<Seq<Option<Mod3>>>, other: Seq<Seq<Option<Mod3>>>) -> bool {
    forall|i: int|
        0 <= i < other.len() ==> 0 <= #[trigger] first_some(other[i]) && 0 <= first_some(
            now[first_some(other[i])],
        )
}

/// Row `i` of the product: row `i` of `other` leads to column `j`, row `j` of `now` leads on to
/// column `k`, and the cell `(i, k)` holds the sum of the two labels met.
pub open spec fn compose_row(now: Seq<Seq<Option<Mod3>>>, other: Seq<Seq<Option<Mod3>>>, i: int) -> Seq<
    Option<Mod3>,
> {
    let j = first_some(other[i]);
    let k = first_some(now[j]);
    Seq::new(
        other.len() as nat,
        |c: int|
            if c == k {
                Some(other[i][j]->Some_0.add_spec(now[j][k]->Some_0))
            } else {
                None
            },
    )
}

/// The product of `now` and `other`, one row after the other.
pub open spec fn composed(now: Seq<Seq<Option<Mod3>>>, other: Seq<Seq<Option<Mod3>>>) -> Seq<
    Seq<Option<Mod3>>,
> {
    Seq::new(other.len(), |i: int| compose_row(now, other, i))
}

/// The first present cell of a row with exactly one present cell is that cell.
proof fn lemma_first_unique(row: Seq<Option<Mod3>>, c: int, s: int)
    requires
        0 <= s <= c < row.len(),
        row[c] is Some,
        forall|j: int| 0 <= j < row.len() && j != c ==> #[trigger] row[j] is None,
    ensures
        first_from(row, s) == c,
    decreases c - s,
{
    if s < c {
        lemma_first_unique(row, c, s + 1);
    }
}

/// The first present cell at `s` or after it is present, and none comes before it.
proof fn lemma_first_from(row: Seq<Option<Mod3>>, s: int)
    requires
        0 <= s,
    ensures
        first_from(row, s) == -1 || (s <= first_from(row, s) < row.len() && row[first_from(
            row,
            s,
        )] is Some),
        forall|j: int| s <= j < row.len() && #[trigger] row[j] is Some ==> first_from(row, s) != -1
            && first_from(row, s) <= j,
    decreases row.len() - s,
{
    if s < row.len() {
        lemma_first_from(row, s + 1);
    }
}

/// The encoding of a well-formed element is a generalized permutation matrix.
#[verifier::rlimit(40)]
pub proof fn lemma_encoding_is_gpm(ms: Seq<Seq<Option<Mod3>>>, p: Replacement, v: Seq<Mod3>)
    requires
        p.wf(),
        p.bound() <= v.len(),
        encodes(ms, p, v),
    ensures
        is_gpm(ms, v.len() as int),
{
    p.lemma_bijective();
    let n = v.len() as int;
    assert forall|i: int| 0 <= i < n implies 0 <= #[trigger] first_some(ms[i]) < n && (forall|
        j: int,
    | 0 <= j < n ==> (#[trigger] ms[i][j] is Some <==> j == first_some(ms[i]))) by {
        let x = p.preimage(i + 1);
        if x > n {
            assert(p.img(x) == x);
        }
        assert(ms[i][x - 1] is Some);
        assert forall|j: int| 0 <= j < n && j != x - 1 implies #[trigger] ms[i][j] is None by {
            if p.img(j + 1) == i + 1 {
                assert(p.img(j + 1) == p.img(x));
            }
        }
        lemma_first_unique(ms[i], x - 1, 0);
    }
    assert forall|c: int| 0 <= c < n implies 0 <= #[trigger] first_some(col_of(ms, c)) < n && (
    forall|i: int| 0 <= i < n ==> (#[trigger] ms[i][c] is Some <==> i == first_some(
        col_of(ms, c),
    ))) by {
        let y = p.img(c + 1);
        if c + 1 > p.bound() {
            assert(y == c + 1);
        }
        let col = col_of(ms, c);
        assert(col[y - 1] is Some);
        assert forall|i: int| 0 <= i < col.len() && i != y - 1 implies #[trigger] col[i] is None by {
            assert(col[i] == ms[i][c]);
        }
        lemma_first_unique(col, y - 1, 0);
    }
}

/// Two generalized permutation matrices compose without fault, into a generalized permutation
/// matrix.
#[verifier::rlimit(40)]
pub proof fn lemma_compose_gpm(now: Seq<Seq<Option<Mod3>>>, other: Seq<Seq<Option<Mod3>>>, n: int)
    requires
        is_gpm(now, n),
        is_gpm(other, n),
    ensures
        compose_ok(now, other),
        is_gpm(composed(now, other), n),
{
    let r = composed(now, other);
    assert forall|i: int| 0 <= i < n implies 0 <= #[trigger] first_some(r[i]) < n && (forall|
        j: int,
    | 0 <= j < n ==> (#[trigger] r[i][j] is Some <==> j == first_some(r[i]))) by {
        let j = first_some(other[i]);
        let k = first_some(now[j]);
        assert(r[i] == compose_row(now, other, i));
        assert(r[i][k] is Some);
        assert forall|c: int| 0 <= c < n && c != k implies #[trigger] r[i][c] is None by {}
        lemma_first_unique(r[i], k, 0);
    }
    assert forall|k: int| 0 <= k < n implies 0 <= #[trigger] first_some(col_of(r, k)) < n && (
    forall|i: int| 0 <= i < n ==> (#[trigger] r[i][k] is Some <==> i == first_some(col_of(r, k))))
        by {
        let j = first_some(col_of(now, k));
        let i0 = first_some(col_of(other, j));
        assert(now[j][k] is Some);
        assert(other[i0][j] is Some);
        let col = col_of(r, k);
        assert(r[i0] == compose_row(now, other, i0));
        assert(col[i0] is Some);
        assert forall|i: int| 0 <= i < n && i != i0 implies #[trigger] col[i] is None by {
            assert(r[i] == compose_row(now, other, i));
            let ji = first_some(other[i]);
            if first_some(now[ji]) == k {
                assert(now[ji][k] is Some);
                assert(ji == j);
                assert(other[i][j] is Some);
            }
        }
        lemma_first_unique(col, i0, 0);
    }
}

/// The index of the first present cell of `row`.
fn find_in_row(row: &Vec<Option<Mod3>>) -> (r: Option<usize>)
    ensures
        r is None <==> first_some(row@) == -1,
        r matches Some(j) ==> j == first_some(row@) && j < row@.len() && row@[j as int] is Some,
{
    proof {
        lemma_first_from(row@, 0);
    }
    let mut j: usize = 0;
    while j < row.len()
        invariant
            0 <= j <= row@.len(),
            first_from(row@, j as int) == first_some(row@),
        decreases row@.len() - j,
    {
        if row[j].is_some() {
            return Some(j);
        }
        j = j + 1;
    }
    None
}

/// The index of the first row with a present cell in column `c`.
fn find_in_col(m: &Matrix, c: usize) -> (r: Option<usize>)
    requires
        is_square(mat(m@), m@.len() as int),
        c < m@.len(),
    ensures
        r is None <==> first_some(col_of(mat(m@), c as int)) == -1,
        r matches Some(j) ==> j == first_some(col_of(mat(m@), c as int)) && j < m@.len(),
{
    let ghost col = col_of(mat(m@), c as int);
    proof {
        lemma_first_from(col, 0);
    }
    let mut j: usize = 0;
    while j < m.len()
        invariant
            is_square(mat(m@), m@.len() as int),
            c < m@.len(),
            col == col_of(mat(m@), c as int),
            0 <= j <= m@.len(),
            first_from(col, j as int) == first_some(col),
        decreases m@.len() - j,
    {
        assert(mat(m@)[j as int] == m@[j as int]@);
        if m[j][c].is_some() {
            return Some(j);
        }
        j = j + 1;
    }
    None
}

/// The product of two matrices of the same size: row `i` of `other` leads to column `j`, and
/// row `j` of `now` leads on to column `k`; the result has the sum of the two labels at
/// `(i, k)`. `None` when a row that is needed has no present cell.
#[verifier::rlimit(40)]
pub fn rotate(now: &Matrix, other: &Matrix) -> (r: Option<Matrix>)
    requires
        is_square(mat(now@), other@.len() as int),
        is_square(mat(other@), other@.len() as int),
    ensures
        r is Some <==> compose_ok(mat(now@), mat(other@)),
        r matches Some(res) ==> mat(res@) == composed(mat(now@), mat(other@)),
{
    let n = other.len();
    let ghost a = mat(now@);
    let ghost b = mat(other@);
    let mut res: Matrix = Vec::new();
    let mut i: usize = 0;
    while i < n
        invariant
            n == other@.len(),
            a == mat(now@),
            b == mat(other@),
            is_square(a, n as int),
            is_square(b, n as int),
            0 <= i <= n,
            res@.len() == i,
            forall|i2: int| 0 <= i2 < i ==> 0 <= #[trigger] first_some(b[i2]) && 0 <= first_some(
                a[first_some(b[i2])],
            ),
            forall|i2: int| 0 <= i2 < i ==> #[trigger] mat(res@)[i2] == compose_row(a, b, i2),
        decreases n - i,
    {
        assert(b[i as int] == other@[i as int]@);
        let j = match find_in_row(&other[i]) {
            Some(j) => j,
            None => {
                return None;
            },
        };
        assert(a[j as int] == now@[j as int]@);
        let k = match find_in_row(&now[j]) {
            Some(k) => k,
            None => {
                return None;
            },
        };
        let m = match other[i][j] {
            Some(m) => m,
            None => Mod3::Zero,
        };
        let v = match now[j][k] {
            Some(v) => v,
            None => Mod3::Zero,
        };
        let mut row: Vec<Option<Mod3>> = Vec::new();
        let mut c: usize = 0;
        while c < n
            invariant
                0 <= c <= n,
                k < n,
                row@.len() == c,
                forall|c2: int| 0 <= c2 < c ==> #[trigger] row@[c2] == if c2 == k {
                    Some(m.add_spec(v))
                } else {
                    None
                },
            decreases n - c,
        {
            if c == k {
                row.push(Some(m + v));
            } else {
                row.push(None);
            }
            c = c + 1;
        }
        assert(row@ =~= compose_row(a, b, i as int));
        let ghost before = res@;
        res.push(row);
        i = i + 1;
        assert forall|i2: int| 0 <= i2 < i implies #[trigger] mat(res@)[i2] == compose_row(a, b, i2) by {
            if i2 < i - 1 {
                assert(res@[i2] == before[i2]);
                assert(mat(before)[i2] == mat(res@)[i2]);
            }
        }
    }
    assert(mat(res@) =~= composed(a, b));
    Some(res)
}

/// The matrix of the element `(p, v)`: row `i` holds `v[i]` in the column `j` with `p` sending
/// `j + 1` to `i + 1`, and nothing elsewhere.
pub open spec fn encoding(p: Replacement, v: Seq<Mod3>) -> Seq<Seq<Option<Mod3>>> {
    Seq::new(
        v.len(),
        |i: int|
            Seq::new(
                v.len(),
                |j: int|
                    if p.img(j + 1) == i + 1 {
                        Some(v[i])
                    } else {
                        None
                    },
            ),
    )
}

/// The image table that a matrix gives: entry `c` is one more than the first row with a
/// present cell in column `c`.
pub open spec fn decode_table(ms: Seq<Seq<Option<Mod3>>>) -> Seq<usize> {
    Seq::new(ms.len(), |c: int| (first_some(col_of(ms, c)) + 1) as usize)
}

/// The labels that a matrix gives: entry `i` is the value of the first present cell of row `i`.
pub open spec fn decode_labels(ms: Seq<Seq<Option<Mod3>>>) -> Seq<Mod3> {
    Seq::new(ms.len(), |i: int| ms[i][first_some(ms[i])]->Some_0)
}

/// Every row and column of `ms` has a present cell, and the image table it gives is a
/// permutation.
pub open spec fn decodable(ms: Seq<Seq<Option<Mod3>>>) -> bool {
    &&& forall|c: int| 0 <= c < ms.len() ==> 0 <= #[trigger] first_some(col_of(ms, c))
    &&& forall|i: int| 0 <= i < ms.len() ==> 0 <= #[trigger] first_some(ms[i])
    &&& is_perm_table(decode_table(ms))
}

/// An element of the wreath product: a permutation of the points `1..=n` and a ring label
/// for each of them, where `n` is the length of the label vector.
#[derive(Debug, Clone)]
pub struct WreathElm {
    replacement: Replacement,
    vector: Vec<Mod3>,
}

/// `d` is the element that the matrix `ms` stands for.
pub open spec fn decodes_to(d: WreathElm, ms: Seq<Seq<Option<Mod3>>>) -> bool {
    &&& d.wf()
    &&& d.labels() == decode_labels(ms)
    &&& acts_as_table(d.perm(), decode_table(ms))
}

impl WreathElm {
    pub closed spec fn perm(&self) -> Replacement {
        self.replacement
    }

    pub closed spec fn labels(&self) -> Seq<Mod3> {
        self.vector@
    }

    /// The permutation is well formed and moves no point beyond the label vector.
    pub open spec fn wf(&self) -> bool {
        &&& self.perm().wf()
        &&& self.perm().bound() <= self.labels().len()
        &&& self.labels().len() <= usize::MAX
    }

    /// The element with the given permutation and labels; the permutation may move only
    /// points that have a label.
    pub fn new(replacement: Replacement, vector: Vec<Mod3>) -> (r: WreathElm)
        requires
            replacement.wf(),
            replacement.bound() <= vector@.len(),
        ensures
            r.wf(),
            r.perm() == replacement,
            r.labels() == vector@,
    {
        let _n: usize = vector.len();
        WreathElm { replacement, vector }
    }

    pub fn replacement(&self) -> (r: &Replacement)
        ensures
            *r == self.perm(),
    {
        &self.replacement
    }

    pub fn vector(&self) -> (r: &Vec<Mod3>)
        ensures
            r@ == self.labels(),
    {
        &self.vector
    }

    /// The matrix of this element: row `i` has the label of point `i + 1` in the column of the
    /// point that the permutation sends to `i + 1`.
    #[verifier::rlimit(40)]
    pub fn get_matrix(&self) -> (r: Matrix)
        requires
            self.wf(),
        ensures
            mat(r@) == encoding(self.perm(), self.labels()),
            encodes(mat(r@), self.perm(), self.labels()),
    {
        let ghost p = self.perm();
        proof {
            p.lemma_bijective();
        }
        let n = self.vector.len();
        let mut res: Matrix = Vec::new();
        let mut i: usize = 0;
        while i < n
            invariant
                self.wf(),
                p == self.perm(),
                n == self.labels().len(),
                forall|x: int| x >= 1 ==> #[trigger] p.img(x) >= 1,
                forall|x: int| 1 <= x <= p.bound() ==> #[trigger] p.img(x) <= p.bound(),
                forall|x: int, y: int| x >= 1 && y >= 1 && #[trigger] p.img(x) == #[trigger] p.img(y) ==> x == y,
                forall|y: int| y >= 1 ==> #[trigger] p.preimage(y) >= 1 && p.img(p.preimage(y)) == y,
                0 <= i <= n,
                res@.len() == i,
                forall|i2: int| 0 <= i2 < i ==> #[trigger] mat(res@)[i2] == encoding(p, self.labels())[i2],
            decreases n - i,
        {
            let col: usize = match self.replacement.rev_find(i + 1) {
                Some(x) => x - 1,
                None => i,
            };
            proof {
                if col == i {
                    let x = p.preimage(i + 1);
                    if i + 1 <= p.bound() && x > p.bound() {
                        assert(p.img(x) == x);
                    }
                }
                assert(p.img(col + 1) == i + 1);
            }
            let mut row: Vec<Option<Mod3>> = Vec::new();
            let mut c: usize = 0;
            while c < n
                invariant
                    0 <= c <= n,
                    col < n,
                    i < n,
                    n == self.labels().len(),
                    row@.len() == c,
                    forall|c2: int| 0 <= c2 < c ==> #[trigger] row@[c2] == if c2 == col {
                        Some(self.labels()[i as int])
                    } else {
                        None
                    },
                decreases n - c,
            {
                if c == col {
                    row.push(Some(self.vector[i]));
                } else {
                    row.push(None);
                }
                c = c + 1;
            }
            proof {
                assert forall|j: int| 0 <= j < n implies (#[trigger] p.img(j + 1) == i + 1) == (j == col) by {
                    if p.img(j + 1) == i + 1 {
                        assert(p.img(j + 1) == p.img(col + 1));
                    }
                }
                assert(row@ =~= encoding(p, self.labels())[i as int]);
            }
            let ghost before = res@;
            res.push(row);
            i = i + 1;
            assert forall|i2: int| 0 <= i2 < i implies #[trigger] mat(res@)[i2] == encoding(p, self.labels())[i2] by {
                if i2 < i - 1 {
                    assert(res@[i2] == before[i2]);
                    assert(mat(before)[i2] == mat(res@)[i2]);
                }
            }
        }
        assert(mat(res@) =~= encoding(p, self.labels()));
        res
    }

    /// The matrix of the element composed with itself three times: the inverse of an element
    /// whose fourth power is the identity.
    pub fn rev(&self) -> (r: Matrix)
        requires
            self.wf(),
        ensures
            ({
                let e = encoding(self.perm(), self.labels());
                mat(r@) == composed(composed(e, e), e)
            }),
    {
        let m = self.get_matrix();
        let ghost e = mat(m@);
        let ghost n = self.labels().len() as int;
        proof {
            lemma_encoding_is_gpm(e, self.perm(), self.labels());
            lemma_compose_gpm(e, e, n);
            lemma_compose_gpm(composed(e, e), e, n);
        }
        let two = match rotate(&m, &m) {
            Some(two) => two,
            None => Vec::new(),
        };
        match rotate(&two, &m) {
            Some(three) => three,
            None => Vec::new(),
        }
    }
}

/// The element that a matrix stands for: the permutation is rebuilt from the first present
/// row of each column, the labels are read from the first present cell of each row. `None`
/// when a row or a column has no present cell, or the columns do not give a permutation.
#[verifier::rlimit(40)]
pub fn decode(m: &Matrix) -> (r: Option<WreathElm>)
    requires
        is_square(mat(m@), m@.len() as int),
        m@.len() < usize::MAX,
    ensures
        r is Some <==> decodable(mat(m@)),
        r matches Some(d) ==> decodes_to(d, mat(m@)),
{
    let ghost ms = mat(m@);
    let n = m.len();
    let mut corr_book: Vec<usize> = Vec::new();
    let mut c: usize = 0;
    while c < n
        invariant
            ms == mat(m@),
            n == m@.len(),
            n < usize::MAX,
            is_square(ms, n as int),
            0 <= c <= n,
            corr_book@.len() == c,
            forall|c2: int| 0 <= c2 < c ==> 0 <= #[trigger] first_some(col_of(ms, c2)),
            forall|c2: int| 0 <= c2 < c ==> #[trigger] corr_book@[c2] == decode_table(ms)[c2],
        decreases n - c,
    {
        match find_in_col(m, c) {
            Some(j) => corr_book.push(j + 1),
            None => {
                return None;
            },
        }
        c = c + 1;
    }
    let mut vector: Vec<Mod3> = Vec::new();
    let mut i: usize = 0;
    while i < n
        invariant
            ms == mat(m@),
            n == m@.len(),
            is_square(ms, n as int),
            0 <= i <= n,
            vector@.len() == i,
            forall|i2: int| 0 <= i2 < i ==> 0 <= #[trigger] first_some(ms[i2]),
            forall|i2: int| 0 <= i2 < i ==> #[trigger] vector@[i2] == decode_labels(ms)[i2],
        decreases n - i,
    {
        assert(ms[i as int] == m@[i as int]@);
        match find_in_row(&m[i]) {
            Some(j) => {
                let v = match m[i][j] {
                    Some(v) => v,
                    None => Mod3::Zero,
                };
                vector.push(v);
            },
            None => {
                return None;
            },
        }
        i = i + 1;
    }
    assert(corr_book@ =~= decode_table(ms));
    assert(vector@ =~= decode_labels(ms));
    if !check_perm_table(&corr_book) {
        return None;
    }
    let replacement = Replacement::from_correspond_book(&corr_book);
    proof {
        lemma_bound_of_table(replacement, corr_book@);
    }
    Some(WreathElm::new(replacement, vector))
}

/// Decoding the matrix of an element gives that element back: the same labels, and a
/// permutation equal to the element's own.
#[verifier::rlimit(40)]
pub proof fn lemma_decode_encode(e: WreathElm)
    requires
        e.wf(),
    ensures
        decodable(encoding(e.perm(), e.labels())),
        forall|d: WreathElm|
            #[trigger] decodes_to(d, encoding(e.perm(), e.labels())) ==> same_action(d.perm(), e.perm())
                && d.labels() == e.labels(),
{
    let p = e.perm();
    let v = e.labels();
    let n = v.len() as int;
    let ms = encoding(p, v);
    assert(encodes(ms, p, v));
    lemma_encoding_is_gpm(ms, p, v);
    p.lemma_bijective();
    let t = decode_table(ms);
    assert forall|c: int| 0 <= c < n implies #[trigger] t[c] == p.img(c + 1) by {
        let y = p.img(c + 1);
        if c + 1 > p.bound() {
            assert(y == c + 1);
        }
        assert(1 <= y <= n);
        assert(ms[y - 1][c] is Some);
        assert(first_some(col_of(ms, c)) == y - 1);
    }
    assert forall|a: int| 0 <= a < n implies 1 <= #[trigger] t[a] <= n by {
        if a + 1 > p.bound() {
            assert(p.img(a + 1) == a + 1);
        }
    }
    assert forall|a: int, b: int| 0 <= a < n && 0 <= b < n && #[trigger] t[a] == #[trigger] t[b] implies a
        == b by {
        assert(p.img(a + 1) == p.img(b + 1));
    }
    assert(decode_labels(ms) =~= v) by {
        assert forall|i: int| 0 <= i < n implies #[trigger] decode_labels(ms)[i] == v[i] by {
            assert(ms[i][first_some(ms[i])] is Some);
        }
    }
    assert forall|d: WreathElm| #[trigger] decodes_to(d, ms) implies same_action(d.perm(), p) && d.labels()
        == v by {
        assert forall|i: int| i >= 1 implies #[trigger] d.perm().img(i) == p.img(i) by {
            if i <= n {
                assert(t[i - 1] == p.img(i));
            }
        }
    }
}

/// Composing after a generalized permutation matrix with zeros on the diagonal changes
/// nothing.
#[verifier::rlimit(40)]
proof fn lemma_diagonal_left(me: Seq<Seq<Option<Mod3>>>, mz: Seq<Seq<Option<Mod3>>>, n: int)
    requires
        is_gpm(me, n),
        is_gpm(mz, n),
        forall|i: int| 0 <= i < n ==> #[trigger] mz[i][i] == Some(Mod3::Zero),
    ensures
        composed(mz, me) == me,
{
    let a = composed(mz, me);
    assert forall|i: int| 0 <= i < n implies #[trigger] a[i] == me[i] by {
        let j = first_some(me[i]);
        assert(mz[j][j] is Some);
        assert(first_some(mz[j]) == j);
        let x = me[i][j]->Some_0;
        assert(x.add_spec(Mod3::Zero) == x);
        assert(a[i] =~= me[i]) by {
            assert forall|c: int| 0 <= c < n implies #[trigger] a[i][c] == me[i][c] by {
                if me[i][c] is Some {
                    assert(c == j);
                }
            }
        }
    }
    assert(a =~= me);
}

/// Composing before a generalized permutation matrix with zeros on the diagonal changes
/// nothing.
#[verifier::rlimit(40)]
proof fn lemma_diagonal_right(me: Seq<Seq<Option<Mod3>>>, mz: Seq<Seq<Option<Mod3>>>, n: int)
    requires
        is_gpm(me, n),
        is_gpm(mz, n),
        forall|i: int| 0 <= i < n ==> #[trigger] mz[i][i] == Some(Mod3::Zero),
    ensures
        composed(me, mz) == me,
{
    let b = composed(me, mz);
    assert forall|i: int| 0 <= i < n implies #[trigger] b[i] == me[i] by {
        assert(mz[i][i] is Some);
        assert(first_some(mz[i]) == i);
        let k = first_some(me[i]);
        assert(me[i][k] is Some);
        let x = me[i][k]->Some_0;
        assert(Mod3::Zero.add_spec(x) == x);
        assert(b[i] =~= me[i]) by {
            assert forall|c: int| 0 <= c < n implies #[trigger] b[i][c] == me[i][c] by {
                if me[i][c] is Some {
                    assert(c == k);
                }
            }
        }
    }
    assert(b =~= me);
}

/// Composing the matrix of an element with the matrix of the identity, on either side, gives
/// the element's matrix again, which decodes to the element.
pub proof fn lemma_compose_identity(e: WreathElm, z: WreathElm)
    requires
        e.wf(),
        z.wf(),
        z.labels().len() == e.labels().len(),
        forall|x: int| x >= 1 ==> #[trigger] z.perm().img(x) == x,
        forall|i: int| 0 <= i < z.labels().len() ==> #[trigger] z.labels()[i] == Mod3::Zero,
    ensures
        ({
            let me = encoding(e.perm(), e.labels());
            let mz = encoding(z.perm(), z.labels());
            &&& compose_ok(mz, me)
            &&& compose_ok(me, mz)
            &&& composed(mz, me) == me
            &&& composed(me, mz) == me
            &&& forall|d: WreathElm|
                #[trigger] decodes_to(d, composed(mz, me)) ==> same_action(d.perm(), e.perm())
                    && d.labels() == e.labels()
            &&& forall|d: WreathElm|
                #[trigger] decodes_to(d, composed(me, mz)) ==> same_action(d.perm(), e.perm())
                    && d.labels() == e.labels()
        }),
{
    let n = e.labels().len() as int;
    let me = encoding(e.perm(), e.labels());
    let mz = encoding(z.perm(), z.labels());
    assert(encodes(me, e.perm(), e.labels()));
    assert(encodes(mz, z.perm(), z.labels()));
    lemma_encoding_is_gpm(me, e.perm(), e.labels());
    lemma_encoding_is_gpm(mz, z.perm(), z.labels());
    lemma_compose_gpm(mz, me, n);
    lemma_compose_gpm(me, mz, n);
    assert forall|i: int| 0 <= i < n implies #[trigger] mz[i][i] == Some(Mod3::Zero) by {
        assert(z.perm().img(i + 1) == i + 1);
    }
    lemma_diagonal_left(me, mz, n);
    lemma_diagonal_right(me, mz, n);
    lemma_decode_encode(e);
}

/// A generalized permutation matrix can be decoded, and encoding what it decodes to gives the
/// matrix back.
pub proof fn lemma_gpm_decode(ms: Seq<Seq<Option<Mod3>>>, n: int)
    requires
        is_gpm(ms, n),
        n <= usize::MAX,
    ensures
        decodable(ms),
        forall|d: WreathElm| #[trigger] decodes_to(d, ms) ==> encoding(d.perm(), d.labels()) == ms,
{
    let t = decode_table(ms);
    assert forall|a: int| 0 <= a < n implies 1 <= #[trigger] t[a] <= n by {}
    assert forall|a: int, b: int| 0 <= a < n && 0 <= b < n && #[trigger] t[a] == #[trigger] t[b] implies a
        == b by {
        let i = first_some(col_of(ms, a));
        assert(ms[i][a] is Some);
        assert(ms[i][b] is Some);
    }
    assert forall|d: WreathElm| #[trigger] decodes_to(d, ms) implies encoding(d.perm(), d.labels())
        == ms by {
        let en = encoding(d.perm(), d.labels());
        assert forall|i: int| 0 <= i < n implies #[trigger] en[i] == ms[i] by {
            assert forall|j: int| 0 <= j < n implies #[trigger] en[i][j] == ms[i][j] by {
                assert(d.perm().img(j + 1) == t[j]);
                if ms[i][j] is Some {
                    assert(j == first_some(ms[i]));
                }
            }
            assert(en[i] =~= ms[i]);
        }
        assert(en =~= ms);
    }
}

/// The inverse of an element whose fourth power is the identity is its cube: decoding the
/// cube of its matrix and composing the matrix of that with the element's matrix gives a
/// matrix that decodes to the identity.
pub proof fn lemma_small_order_inverse(e: WreathElm, z: WreathElm)
    requires
        e.wf(),
        z.wf(),
        z.labels().len() == e.labels().len(),
        forall|x: int| x >= 1 ==> #[trigger] z.perm().img(x) == x,
        forall|i: int| 0 <= i < z.labels().len() ==> #[trigger] z.labels()[i] == Mod3::Zero,
        ({
            let m = encoding(e.perm(), e.labels());
            composed(composed(composed(m, m), m), m) == encoding(z.perm(), z.labels())
        }),
    ensures
        ({
            let m = encoding(e.perm(), e.labels());
            let cube = composed(composed(m, m), m);
            &&& decodable(cube)
            &&& forall|inv: WreathElm|
                #[trigger] decodes_to(inv, cube) ==> compose_ok(encoding(inv.perm(), inv.labels()), m)
                    && forall|d: WreathElm|
                    #[trigger] decodes_to(d, composed(encoding(inv.perm(), inv.labels()), m))
                        ==> same_action(d.perm(), z.perm()) && d.labels() == z.labels()
        }),
{
    let n = e.labels().len() as int;
    let m = encoding(e.perm(), e.labels());
    assert(encodes(m, e.perm(), e.labels()));
    lemma_encoding_is_gpm(m, e.perm(), e.labels());
    lemma_compose_gpm(m, m, n);
    lemma_compose_gpm(composed(m, m), m, n);
    let cube = composed(composed(m, m), m);
    lemma_compose_gpm(cube, m, n);
    lemma_gpm_decode(cube, n);
    lemma_decode_encode(z);
}

/// The labels as the integers `0`, `1`, `2`, separated by a comma and a space.
pub open spec fn labels_text(v: Seq<Mod3>) -> Seq<char>
    decreases v.len(),
{
    if v.len() == 0 {
        Seq::empty()
    } else if v.len() == 1 {
        decimal(v[0].val() as nat)
    } else {
        labels_text(v.drop_last()) + seq![',', ' '] + decimal(v.last().val() as nat)
    }
}

impl WreathElm {
    /// The element in the form `{Replacement: (1 2 3 4), Vector: [0, 1, 2, 0]}`, with the
    /// permutation in cycle notation.
    pub fn to_string(&self) -> (r: String)
        ensures
            r@ == "{Replacement: "@ + (if self.perm().bound() == 0 {
                seq!['e']
            } else {
                cycles_text(self.perm().cycles())
            }) + ", Vector: ["@ + labels_text(self.labels()) + "]}"@,
    {
        let mut s = String::new();
        s.append("{Replacement: ");
        let p = self.replacement.to_string();
        s.append(p.as_str());
        s.append(", Vector: [");
        let ghost start = s@;
        let mut i: usize = 0;
        while i < self.vector.len()
            invariant
                0 <= i <= self.vector@.len(),
                s@ == start + labels_text(self.vector@.subrange(0, i as int)),
            decreases self.vector@.len() - i,
        {
            let ghost before = s@;
            proof {
                reveal_strlit(", ");
            }
            if i > 0 {
                s.append(", ");
            }
            push_decimal(&mut s, self.vector[i].to_usize());
            proof {
                let sub = self.vector@.subrange(0, i + 1);
                assert(sub.drop_last() =~= self.vector@.subrange(0, i as int));
                if i == 0 {
                    assert(labels_text(sub) == decimal(sub[0].val() as nat));
                    assert(labels_text(self.vector@.subrange(0, 0)) =~= Seq::<char>::empty());
                    assert(before =~= start);
                    assert(start + labels_text(sub) == before + decimal(self.vector@[0].val() as nat));
                } else {
                    assert(", "@ =~= seq![',', ' ']);
                    assert(sub.last() == self.vector@[i as int]);
                    assert(s@ =~= start + labels_text(sub));
                }
            }
            i = i + 1;
        }
        s.append("]}");
        assert(self.vector@.subrange(0, self.vector@.len() as int) =~= self.vector@);
        s
    }
}

} // verus!
