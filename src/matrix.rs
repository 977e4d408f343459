//! Fixed-size vectors and square matrices over a ring.
use vstd::prelude::*;
use crate::algebra::{Group, Ring};
use core::marker::PhantomData;

verus! {

/// `N` elements of a ring.
#[derive(Debug, Copy, Clone)]
pub struct Vector<T: Ring, const N: usize> {
    pub values: [T; N],
}

/// Sum of the products `a[k] * b[k]` for `k < n`, accumulated from zero.
pub open spec fn dot<T: Ring>(a: Seq<T>, b: Seq<T>, n: int) -> T
    decreases n,
{
    if n <= 0 {
        T::zero_spec()
    } else {
        T::add_spec(dot(a, b, n - 1), T::mul_spec(a[n - 1], b[n - 1]))
    }
}

impl<T: Ring, const N: usize> Vector<T, N> {
    pub open spec fn view(&self) -> Seq<T> {
        self.values@
    }

    /// All elements zero.
    pub fn zero() -> (r: Self)
        ensures
            r@ == Seq::new(N as nat, |i: int| T::zero_spec()),
    {
        let r = Vector { values: [T::zero(); N] };
        assert(r@ =~= Seq::new(N as nat, |i: int| T::zero_spec()));
        r
    }

    /// All elements neutral.
    pub fn neutral() -> (r: Self)
        ensures
            r@ == Seq::new(N as nat, |i: int| T::neutral_spec()),
    {
        let r = Vector { values: [T::neutral(); N] };
        assert(r@ =~= Seq::new(N as nat, |i: int| T::neutral_spec()));
        r
    }

    /// Component-wise sum.
    pub fn add(&self, rhs: &Self) -> (r: Self)
        ensures
            r@ == Seq::new(N as nat, |i: int| T::add_spec(self@[i], rhs@[i])),
    {
        let mut values = self.values;
        let mut i: usize = 0;
        while i < N
            invariant
                i <= N,
                values@.len() == N,
                forall|k: int| 0 <= k < i ==> values@[k] == T::add_spec(self@[k], rhs@[k]),
                forall|k: int| i <= k < N ==> values@[k] == self@[k],
            decreases N - i,
        {
            values[i] = self.values[i].plus(&rhs.values[i]);
            i += 1;
        }
        let r = Vector { values };
        assert(r@ =~= Seq::new(N as nat, |i: int| T::add_spec(self@[i], rhs@[i])));
        r
    }

    /// Component-wise negation.
    pub fn minus(&self) -> (r: Self)
        ensures
            r@ == Seq::new(N as nat, |i: int| T::minus_spec(self@[i])),
    {
        let mut values = self.values;
        let mut i: usize = 0;
        while i < N
            invariant
                i <= N,
                values@.len() == N,
                forall|k: int| 0 <= k < i ==> values@[k] == T::minus_spec(self@[k]),
            decreases N - i,
        {
            values[i] = self.values[i].minus();
            i += 1;
        }
        let r = Vector { values };
        assert(r@ =~= Seq::new(N as nat, |i: int| T::minus_spec(self@[i])));
        r
    }

    /// Component-wise inverse, if every component has one.
    pub fn inverse(&self) -> (r: Option<Self>)
        ensures
            r is Some <==> forall|i: int| 0 <= i < N ==> (#[trigger] T::inverse_spec(self@[i])) is Some,
            r matches Some(v) ==> v@ == Seq::new(N as nat, |i: int| T::inverse_spec(self@[i])->0),
    {
        let mut values = self.values;
        let mut i: usize = 0;
        while i < N
            invariant
                i <= N,
                values@.len() == N,
                forall|k: int| 0 <= k < i ==> T::inverse_spec(self@[k]) is Some,
                forall|k: int| 0 <= k < i ==> values@[k] == T::inverse_spec(self@[k])->0,
            decreases N - i,
        {
            match self.values[i].inverse() {
                Some(v) => {
                    values[i] = v;
                },
                None => {
                    return None;
                },
            }
            i += 1;
        }
        let r = Vector { values };
        assert(r@ =~= Seq::new(N as nat, |i: int| T::inverse_spec(self@[i])->0));
        Some(r)
    }

    /// Inner product: the sum of the component-wise products.
    pub fn mul(&self, rhs: &Self) -> (r: T)
        ensures
            r == dot(self@, rhs@, N as int),
    {
        let mut r = T::zero();
        let mut i: usize = 0;
        while i < N
            invariant
                i <= N,
                r == dot(self@, rhs@, i as int),
            decreases N - i,
        {
            r = r.plus(&self.values[i].times(&rhs.values[i]));
            i += 1;
        }
        r
    }
}

/// An array of length `N` whose element `i` is `f(i)`.
pub open spec fn array_of<A, const N: usize>(f: spec_fn(int) -> A) -> [A; N] {
    choose|a: [A; N]| a@ == Seq::new(N as nat, f)
}

proof fn lemma_array_prefix<A, const N: usize>(f: spec_fn(int) -> A, start: [A; N], k: int) -> (a: [A; N])
    requires
        0 <= k <= N,
    ensures
        forall|i: int| 0 <= i < k ==> a@[i] == f(i),
    decreases k,
{
    broadcast use vstd::array::group_array_axioms;
    if k == 0 {
        start
    } else {
        let a = lemma_array_prefix(f, start, k - 1);
        let b = vstd::array::spec_array_update(a, k - 1, f(k - 1));
        vstd::array::array_len_matches_n(&a);
        assert(b@ == a@.update(k - 1, f(k - 1)));
        b
    }
}

/// `array_of(f)` has the elements `f(i)`; any array of length `N` shows
/// that one exists.
proof fn lemma_array_of<A, const N: usize>(f: spec_fn(int) -> A, start: [A; N])
    ensures
        forall|i: int| 0 <= i < N ==> (#[trigger] array_of::<A, N>(f)@[i]) == f(i),
{
    broadcast use vstd::array::group_array_axioms;
    let a = lemma_array_prefix(f, start, N as int);
    vstd::array::array_len_matches_n(&a);
    assert(a@ =~= Seq::new(N as nat, f));
}

/// An array with the elements `f(i)` is `array_of(f)`.
proof fn lemma_array_of_unique<A, const N: usize>(f: spec_fn(int) -> A, a: [A; N])
    requires
        forall|i: int| 0 <= i < N ==> a@[i] == f(i),
    ensures
        array_of::<A, N>(f) == a,
{
    broadcast use vstd::array::group_array_axioms;
    lemma_array_of(f, a);
    vstd::array::array_len_matches_n(&a);
    let c = array_of::<A, N>(f);
    vstd::array::array_len_matches_n(&c);
    assert(c =~= a);
}

/// Vectors form a group under component-wise addition.
impl<T: Ring, const N: usize> Group for Vector<T, N> {
    open spec fn zero_spec() -> Self {
        Vector { values: array_of(|i: int| T::zero_spec()) }
    }

    open spec fn add_spec(a: Self, b: Self) -> Self {
        Vector { values: array_of(|i: int| T::add_spec(a.values@[i], b.values@[i])) }
    }

    open spec fn minus_spec(a: Self) -> Self {
        Vector { values: array_of(|i: int| T::minus_spec(a.values@[i])) }
    }

    fn zero() -> (r: Self) {
        let r = Vector::<T, N>::zero();
        proof {
            lemma_array_of_unique(|i: int| T::zero_spec(), r.values);
        }
        r
    }

    fn plus(&self, other: &Self) -> (r: Self) {
        let r = self.add(other);
        proof {
            lemma_array_of_unique(|i: int| T::add_spec(self.values@[i], other.values@[i]), r.values);
        }
        r
    }

    fn minus(&self) -> (r: Self) {
        let r = Vector::<T, N>::minus(self);
        proof {
            lemma_array_of_unique(|i: int| T::minus_spec(self.values@[i]), r.values);
        }
        r
    }

    proof fn lemma_group_laws(x: Self) {
        let z = Self::zero_spec();
        let m = Self::minus_spec(x);
        lemma_array_of(|i: int| T::zero_spec(), x.values);
        lemma_array_of(|i: int| T::minus_spec(x.values@[i]), x.values);
        assert forall|i: int| 0 <= i < N implies x.values@[i] == T::add_spec(x.values@[i], z.values@[i])
            && x.values@[i] == T::add_spec(z.values@[i], x.values@[i])
            && z.values@[i] == T::add_spec(x.values@[i], m.values@[i]) by {
            T::lemma_group_laws(x.values@[i]);
        }
        lemma_array_of_unique(|i: int| T::add_spec(x.values@[i], z.values@[i]), x.values);
        lemma_array_of_unique(|i: int| T::add_spec(z.values@[i], x.values@[i]), x.values);
        lemma_array_of_unique(|i: int| T::add_spec(x.values@[i], m.values@[i]), z.values);
    }
}

/// A ring element that can act on scalars of the ring `T`.
pub trait MatrixElement<T: Ring>: Ring {
    /// The scalar that this element makes of `x`.
    spec fn act_spec(a: Self, x: T) -> T;

    fn mult(&self, x: T) -> (r: T)
        ensures
            r == Self::act_spec(*self, x),
    ;

    fn multiply(&self, r: Self) -> (p: Self)
        ensures
            p == Self::mul_spec(*self, r),
    ;
}

/// An integer acts on integers by multiplication.
impl MatrixElement<i64> for i64 {
    open spec fn act_spec(a: i64, x: i64) -> i64 {
        <i64 as Ring>::mul_spec(a, x)
    }

    fn mult(&self, x: i64) -> (r: i64) {
        self.times(&x)
    }

    fn multiply(&self, r: i64) -> (p: i64) {
        self.times(&r)
    }
}

/// An `N`×`N` matrix of elements `U`, tied to the scalar ring `T`.
///
/// Matrices add, negate and multiply; a multiplicative inverse is not
/// provided, as a matrix over a ring need not have one.
#[derive(Copy)]
pub struct Matrix<T: Ring, U: MatrixElement<T>, const N: usize> {
    pub elements: [Vector<U, N>; N],
    pub scalar: PhantomData<T>,
}

impl<T: Ring, U: MatrixElement<T>, const N: usize> Clone for Matrix<T, U, N> {
    fn clone(&self) -> (r: Self)
        ensures
            r == *self,
    {
        *self
    }
}

proof fn lemma_markers_equal<T>(a: PhantomData<T>, b: PhantomData<T>)
    ensures
        a == b,
{
}

/// Column `j` of a matrix model.
pub open spec fn column<U>(m: Seq<Seq<U>>, j: int) -> Seq<U> {
    Seq::new(m.len(), |k: int| m[k][j])
}

/// The `n`×`n` matrix of zeros.
pub open spec fn zero_matrix<U: Ring>(n: nat) -> Seq<Seq<U>> {
    Seq::new(n, |i: int| Seq::new(n, |j: int| U::zero_spec()))
}

/// The `n`×`n` identity matrix.
pub open spec fn identity_matrix<U: Ring>(n: nat) -> Seq<Seq<U>> {
    Seq::new(n, |i: int| Seq::new(n, |j: int| if i == j { U::neutral_spec() } else { U::zero_spec() }))
}

/// Entry-wise sum of two `n`×`n` matrices.
pub open spec fn matrix_sum<U: Ring>(a: Seq<Seq<U>>, b: Seq<Seq<U>>, n: nat) -> Seq<Seq<U>> {
    Seq::new(n, |i: int| Seq::new(n, |j: int| U::add_spec(a[i][j], b[i][j])))
}

/// Row-by-column product of two `n`×`n` matrices.
pub open spec fn matrix_product<U: Ring>(a: Seq<Seq<U>>, b: Seq<Seq<U>>, n: nat) -> Seq<Seq<U>> {
    Seq::new(n, |i: int| Seq::new(n, |j: int| dot(a[i], column(b, j), n as int)))
}

impl<T: Ring, U: MatrixElement<T>, const N: usize> Matrix<T, U, N> {
    pub open spec fn view(&self) -> Seq<Seq<U>> {
        Seq::new(N as nat, |i: int| self.elements@[i]@)
    }

    /// A matrix with the given rows.
    pub fn new(elements: [Vector<U, N>; N]) -> (r: Self)
        ensures
            r.elements == elements,
    {
        Matrix { elements, scalar: PhantomData }
    }

    /// All entries zero.
    pub fn zero() -> (r: Self)
        ensures
            r@ == zero_matrix::<U>(N as nat),
    {
        let r = Matrix { elements: [Vector::<U, N>::zero(); N], scalar: PhantomData };
        assert(r@ =~= zero_matrix::<U>(N as nat));
        r
    }

    /// The identity: neutral on the diagonal, zero elsewhere.
    pub fn neutral() -> (r: Self)
        ensures
            r@ == identity_matrix::<U>(N as nat),
    {
        let mut elements = [Vector::<U, N>::zero(); N];
        let mut line: usize = 0;
        while line < N
            invariant
                line <= N,
                elements@.len() == N,
                forall|i: int| 0 <= i < N ==> #[trigger] elements@[i]@.len() == N,
                forall|i: int, j: int| 0 <= i < N && 0 <= j < N ==> #[trigger] elements@[i]@[j] == (
                    if i == j && i < line { U::neutral_spec() } else { U::zero_spec() }),
            decreases N - line,
        {
            let ghost before = elements@;
            let mut row = elements[line];
            row.values[line] = U::neutral();
            elements[line] = row;
            proof {
                assert forall|i: int, j: int| 0 <= i < N && 0 <= j < N implies #[trigger] elements@[i]@[j] == (
                    if i == j && i < line + 1 { U::neutral_spec() } else { U::zero_spec() }) by {
                    if i != line {
                        assert(elements@[i] == before[i]);
                    } else {
                        assert(row@ == before[i]@.update(line as int, U::neutral_spec()));
                    }
                }
            }
            line += 1;
        }
        let r = Matrix { elements, scalar: PhantomData };
        assert(r@ =~= identity_matrix::<U>(N as nat)) by {
            assert forall|i: int| 0 <= i < N implies r@[i] =~= identity_matrix::<U>(N as nat)[i] by {}
        }
        r
    }

    /// Entry-wise sum.
    pub fn add(&self, rhs: &Self) -> (r: Self)
        ensures
            r@ == matrix_sum(self@, rhs@, N as nat),
    {
        let mut elements = self.elements;
        let mut i: usize = 0;
        while i < N
            invariant
                i <= N,
                elements@.len() == N,
                forall|k: int| 0 <= k < i ==> #[trigger] elements@[k]@ == Seq::new(
                    N as nat,
                    |j: int| U::add_spec(self@[k][j], rhs@[k][j]),
                ),
            decreases N - i,
        {
            elements[i] = self.elements[i].add(&rhs.elements[i]);
            i += 1;
        }
        let r = Matrix { elements, scalar: PhantomData };
        assert(r@ =~= matrix_sum(self@, rhs@, N as nat));
        r
    }

    /// Entry-wise negation.
    pub fn minus(&self) -> (r: Self)
        ensures
            r@ == Seq::new(N as nat, |i: int| Seq::new(N as nat, |j: int| U::minus_spec(self@[i][j]))),
    {
        let mut elements = self.elements;
        let mut i: usize = 0;
        while i < N
            invariant
                i <= N,
                elements@.len() == N,
                forall|k: int| 0 <= k < i ==> #[trigger] elements@[k]@ == Seq::new(
                    N as nat,
                    |j: int| U::minus_spec(self@[k][j]),
                ),
            decreases N - i,
        {
            elements[i] = self.elements[i].minus();
            i += 1;
        }
        let r = Matrix { elements, scalar: PhantomData };
        assert(r@ =~= Seq::new(N as nat, |i: int| Seq::new(N as nat, |j: int| U::minus_spec(self@[i][j]))));
        r
    }

    /// Row-by-column product.
    pub fn mul(&self, rhs: &Self) -> (r: Self)
        ensures
            r@ == matrix_product(self@, rhs@, N as nat),
    {
        let mut elements = [Vector::<U, N>::zero(); N];
        let mut line: usize = 0;
        while line < N
            invariant
                line <= N,
                elements@.len() == N,
                forall|i: int| 0 <= i < line ==> #[trigger] elements@[i]@ == Seq::new(
                    N as nat,
                    |j: int| dot(self@[i], column(rhs@, j), N as int),
                ),
            decreases N - line,
        {
            let mut row = Vector::<U, N>::zero();
            let mut col: usize = 0;
            while col < N
                invariant
                    line < N,
                    col <= N,
                    row@.len() == N,
                    forall|j: int| 0 <= j < col ==> row@[j] == dot(self@[line as int], column(rhs@, j), N as int),
                decreases N - col,
            {
                let mut acc = U::zero();
                let mut index: usize = 0;
                while index < N
                    invariant
                        line < N,
                        col < N,
                        index <= N,
                        acc == dot(self@[line as int], column(rhs@, col as int), index as int),
                    decreases N - index,
                {
                    proof {
                        assert(self@[line as int][index as int] == self.elements[line as int].values[index as int]);
                        assert(column(rhs@, col as int)[index as int] == rhs.elements[index as int].values[col as int]);
                    }
                    acc = acc.plus(&self.elements[line].values[index].times(&rhs.elements[index].values[col]));
                    index += 1;
                }
                row.values[col] = acc;
                col += 1;
            }
            assert(row@ =~= Seq::new(N as nat, |j: int| dot(self@[line as int], column(rhs@, j), N as int)));
            elements[line] = row;
            line += 1;
        }
        let r = Matrix { elements, scalar: PhantomData };
        assert(r@ =~= matrix_product(self@, rhs@, N as nat));
        r
    }
}

/// Row `i` of `m`, as the model of a vector.
proof fn lemma_rows<T: Ring, U: MatrixElement<T>, const N: usize>(m: Matrix<T, U, N>, rows: Seq<Seq<U>>)
    requires
        m@ == rows,
    ensures
        forall|i: int, j: int| 0 <= i < N && 0 <= j < N ==> #[trigger] m.elements@[i].values@[j] == rows[i][j],
{
    assert forall|i: int, j: int| 0 <= i < N && 0 <= j < N implies m.elements@[i].values@[j] == rows[i][j] by {
        assert(m@[i] == m.elements@[i]@);
    }
}

/// Square matrices form a group under entry-wise addition.
impl<T: Ring, U: MatrixElement<T>, const N: usize> Group for Matrix<T, U, N> {
    open spec fn zero_spec() -> Self {
        Matrix { elements: array_of(|i: int| <Vector<U, N> as Group>::zero_spec()), scalar: PhantomData }
    }

    open spec fn add_spec(a: Self, b: Self) -> Self {
        Matrix {
            elements: array_of(|i: int| <Vector<U, N> as Group>::add_spec(a.elements@[i], b.elements@[i])),
            scalar: PhantomData,
        }
    }

    open spec fn minus_spec(a: Self) -> Self {
        Matrix {
            elements: array_of(|i: int| <Vector<U, N> as Group>::minus_spec(a.elements@[i])),
            scalar: PhantomData,
        }
    }

    fn zero() -> (r: Self) {
        let r = Matrix::<T, U, N>::zero();
        proof {
            lemma_rows(r, zero_matrix::<U>(N as nat));
            assert forall|i: int| 0 <= i < N implies r.elements@[i] == <Vector<U, N> as Group>::zero_spec() by {
                lemma_array_of_unique(|j: int| U::zero_spec(), r.elements@[i].values);
            }
            lemma_array_of_unique(|i: int| <Vector<U, N> as Group>::zero_spec(), r.elements);
        }
        r
    }

    fn plus(&self, other: &Self) -> (r: Self) {
        let r = self.add(other);
        proof {
            lemma_rows(r, matrix_sum(self@, other@, N as nat));
            assert forall|i: int| 0 <= i < N implies r.elements@[i] == <Vector<U, N> as Group>::add_spec(
                self.elements@[i],
                other.elements@[i],
            ) by {
                assert(self@[i] == self.elements@[i]@ && other@[i] == other.elements@[i]@);
                lemma_array_of_unique(
                    |j: int| U::add_spec(self.elements@[i].values@[j], other.elements@[i].values@[j]),
                    r.elements@[i].values,
                );
            }
            lemma_array_of_unique(
                |i: int| <Vector<U, N> as Group>::add_spec(self.elements@[i], other.elements@[i]),
                r.elements,
            );
        }
        r
    }

    fn minus(&self) -> (r: Self) {
        let r = Matrix::<T, U, N>::minus(self);
        proof {
            let rows = Seq::new(N as nat, |i: int| Seq::new(N as nat, |j: int| U::minus_spec(self@[i][j])));
            lemma_rows(r, rows);
            assert forall|i: int| 0 <= i < N implies r.elements@[i] == <Vector<U, N> as Group>::minus_spec(
                self.elements@[i],
            ) by {
                assert(self@[i] == self.elements@[i]@);
                lemma_array_of_unique(|j: int| U::minus_spec(self.elements@[i].values@[j]), r.elements@[i].values);
            }
            lemma_array_of_unique(|i: int| <Vector<U, N> as Group>::minus_spec(self.elements@[i]), r.elements);
        }
        r
    }

    proof fn lemma_group_laws(x: Self) {
        let z = Self::zero_spec();
        let m = Self::minus_spec(x);
        let vz = <Vector<U, N> as Group>::zero_spec();
        lemma_array_of(|i: int| vz, x.elements);
        lemma_array_of(|i: int| <Vector<U, N> as Group>::minus_spec(x.elements@[i]), x.elements);
        assert forall|i: int| 0 <= i < N implies x.elements@[i] == <Vector<U, N> as Group>::add_spec(
            x.elements@[i],
            z.elements@[i],
        ) && x.elements@[i] == <Vector<U, N> as Group>::add_spec(z.elements@[i], x.elements@[i])
            && z.elements@[i] == <Vector<U, N> as Group>::add_spec(x.elements@[i], m.elements@[i]) by {
            <Vector<U, N> as Group>::lemma_group_laws(x.elements@[i]);
        }
        lemma_array_of_unique(
            |i: int| <Vector<U, N> as Group>::add_spec(x.elements@[i], z.elements@[i]),
            x.elements,
        );
        lemma_array_of_unique(
            |i: int| <Vector<U, N> as Group>::add_spec(z.elements@[i], x.elements@[i]),
            x.elements,
        );
        lemma_array_of_unique(
            |i: int| <Vector<U, N> as Group>::add_spec(x.elements@[i], m.elements@[i]),
            z.elements,
        );
        lemma_markers_equal(x.scalar, z.scalar);
    }
}

/// The first `k` products of a row with column `j` of the identity add up
/// to the row's element `j` if `j < k`, and to zero otherwise.
pub proof fn lemma_dot_identity_column<U: Ring>(row: Seq<U>, n: nat, j: int, k: int)
    requires
        row.len() == n,
        0 <= j < n,
        0 <= k <= n,
    ensures
        dot(row, column(identity_matrix::<U>(n), j), k) == (if j < k {
            row[j]
        } else {
            U::zero_spec()
        }),
    decreases k,
{
    if k > 0 {
        lemma_dot_identity_column(row, n, j, k - 1);
        let prev = dot(row, column(identity_matrix::<U>(n), j), k - 1);
        U::lemma_ring_laws(row[k - 1]);
        U::lemma_group_laws(prev);
        U::lemma_group_laws(row[k - 1]);
    }
}

/// The first `k` products of row `i` of the identity with a column add up
/// to the column's element `i` if `i < k`, and to zero otherwise.
pub proof fn lemma_dot_identity_row<U: Ring>(col: Seq<U>, n: nat, i: int, k: int)
    requires
        col.len() == n,
        0 <= i < n,
        0 <= k <= n,
    ensures
        dot(identity_matrix::<U>(n)[i], col, k) == (if i < k {
            col[i]
        } else {
            U::zero_spec()
        }),
    decreases k,
{
    if k > 0 {
        lemma_dot_identity_row(col, n, i, k - 1);
        let prev = dot(identity_matrix::<U>(n)[i], col, k - 1);
        U::lemma_ring_laws(col[k - 1]);
        U::lemma_group_laws(prev);
        U::lemma_group_laws(col[k - 1]);
    }
}

/// Products with a zero on either side add up to zero.
pub proof fn lemma_dot_zero<U: Ring>(a: Seq<U>, b: Seq<U>, k: int)
    requires
        0 <= k <= a.len(),
        a.len() == b.len(),
        (forall|i: int| 0 <= i < a.len() ==> a[i] == U::zero_spec()) || (forall|i: int|
            0 <= i < b.len() ==> b[i] == U::zero_spec()),
    ensures
        dot(a, b, k) == U::zero_spec(),
    decreases k,
{
    if k > 0 {
        lemma_dot_zero(a, b, k - 1);
        U::lemma_ring_laws(a[k - 1]);
        U::lemma_ring_laws(b[k - 1]);
        U::lemma_group_laws(U::zero_spec());
    }
}

/// The matrix whose model is `rows`.
pub open spec fn matrix_of<T: Ring, U: MatrixElement<T>, const N: usize>(rows: Seq<Seq<U>>) -> Matrix<T, U, N> {
    Matrix {
        elements: array_of(|i: int| Vector::<U, N> { values: array_of::<U, N>(|j: int| rows[i][j]) }),
        scalar: PhantomData,
    }
}

/// A matrix is `matrix_of` its model.
proof fn lemma_matrix_of<T: Ring, U: MatrixElement<T>, const N: usize>(m: Matrix<T, U, N>)
    ensures
        matrix_of::<T, U, N>(m@) == m,
{
    let rows = m@;
    assert forall|i: int| 0 <= i < N implies (Vector::<U, N> { values: array_of::<U, N>(|j: int| rows[i][j]) })
        == m.elements@[i] by {
        assert(rows[i] == m.elements@[i]@);
        lemma_array_of_unique(|j: int| rows[i][j], m.elements@[i].values);
    }
    lemma_array_of_unique(|i: int| Vector::<U, N> { values: array_of::<U, N>(|j: int| rows[i][j]) }, m.elements);
    lemma_markers_equal(m.scalar, matrix_of::<T, U, N>(rows).scalar);
}

/// The model of `matrix_of(rows)` is `rows`.
proof fn lemma_matrix_of_view<T: Ring, U: MatrixElement<T>, const N: usize>(rows: Seq<Seq<U>>)
    requires
        rows.len() == N,
        forall|i: int| 0 <= i < N ==> (#[trigger] rows[i]).len() == N,
    ensures
        matrix_of::<T, U, N>(rows)@ == rows,
{
    let m = matrix_of::<T, U, N>(rows);
    let row_start = vstd::array::spec_array_fill_for_copy_type::<U, N>(U::zero_spec());
    let start = vstd::array::spec_array_fill_for_copy_type::<Vector<U, N>, N>(Vector { values: row_start });
    lemma_array_of(|i: int| Vector::<U, N> { values: array_of::<U, N>(|j: int| rows[i][j]) }, start);
    assert forall|i: int| 0 <= i < N implies m@[i] =~= rows[i] by {
        lemma_array_of(|j: int| rows[i][j], row_start);
        vstd::array::array_len_matches_n(&m.elements@[i].values);
    }
    assert(m@ =~= rows);
}

/// Square matrices form a ring under the row-by-column product. The
/// inverse is not provided: `inverse` reports that with `None`.
impl<T: Ring, U: MatrixElement<T>, const N: usize> Ring for Matrix<T, U, N> {
    open spec fn neutral_spec() -> Self {
        matrix_of(identity_matrix::<U>(N as nat))
    }

    open spec fn mul_spec(a: Self, b: Self) -> Self {
        matrix_of(matrix_product(a@, b@, N as nat))
    }

    open spec fn inverse_spec(a: Self) -> Option<Self> {
        None
    }

    fn neutral() -> (r: Self) {
        let r = Matrix::<T, U, N>::neutral();
        proof {
            lemma_matrix_of(r);
        }
        r
    }

    fn times(&self, other: &Self) -> (r: Self) {
        let r = self.mul(other);
        proof {
            lemma_matrix_of(r);
        }
        r
    }

    fn inverse(&self) -> (r: Option<Self>) {
        None
    }

    proof fn lemma_ring_laws(x: Self) {
        let n = N as nat;
        let id = identity_matrix::<U>(n);
        let z = zero_matrix::<U>(n);
        lemma_matrix_of(x);
        lemma_matrix_of_view::<T, U, N>(id);
        lemma_matrix_of_view::<T, U, N>(z);
        // The group's zero is the matrix of zeros.
        let zr = <Self as Group>::zero_spec();
        let vz = <Vector<U, N> as Group>::zero_spec();
        let row_start = vstd::array::spec_array_fill_for_copy_type::<U, N>(U::zero_spec());
        lemma_array_of(|i: int| vz, x.elements);
        lemma_array_of(|j: int| U::zero_spec(), row_start);
        assert(zr@ =~= z) by {
            assert forall|i: int| 0 <= i < n implies zr@[i] =~= z[i] by {
                assert(zr.elements@[i] == vz);
                vstd::array::array_len_matches_n(&vz.values);
            }
        }
        assert(matrix_product(x@, id, n) =~= x@) by {
            assert forall|i: int| 0 <= i < n implies matrix_product(x@, id, n)[i] =~= x@[i] by {
                assert forall|j: int| 0 <= j < n implies matrix_product(x@, id, n)[i][j] == x@[i][j] by {
                    lemma_dot_identity_column(x@[i], n, j, n as int);
                }
            }
        }
        assert(matrix_product(id, x@, n) =~= x@) by {
            assert forall|i: int| 0 <= i < n implies matrix_product(id, x@, n)[i] =~= x@[i] by {
                assert forall|j: int| 0 <= j < n implies matrix_product(id, x@, n)[i][j] == x@[i][j] by {
                    lemma_dot_identity_row(column(x@, j), n, i, n as int);
                }
            }
        }
        assert(matrix_product(x@, zr@, n) =~= zr@) by {
            assert forall|i: int| 0 <= i < n implies matrix_product(x@, zr@, n)[i] =~= zr@[i] by {
                assert forall|j: int| 0 <= j < n implies matrix_product(x@, zr@, n)[i][j] == zr@[i][j] by {
                    lemma_dot_zero(x@[i], column(zr@, j), n as int);
                }
            }
        }
        assert(matrix_product(zr@, x@, n) =~= zr@) by {
            assert forall|i: int| 0 <= i < n implies matrix_product(zr@, x@, n)[i] =~= zr@[i] by {
                assert forall|j: int| 0 <= j < n implies matrix_product(zr@, x@, n)[i][j] == zr@[i][j] by {
                    lemma_dot_zero(zr@[i], column(x@, j), n as int);
                }
            }
        }
        lemma_matrix_of(zr);
    }
}

} // verus!
