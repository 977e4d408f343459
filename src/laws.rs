//! Laws that the simplifier and the matrix operations obey, proved over
//! their models.
use vstd::prelude::*;
use crate::algebra::{Group, OrderedRing, Ring};
use crate::matrix::{
    Matrix, MatrixElement, identity_matrix, lemma_dot_identity_column, matrix_product, matrix_sum,
    zero_matrix,
};
use crate::symbolic::{
    Function, Term, simp, simp_all, flat, fold_total, times, plus, negate, combine_product, term_cmp,
    seq_cmp_from, insert_sorted, sort_terms, combine_sum, folded_children, non_constants,
    has_constant, collapse,
};

verus! {

proof fn lemma_times_zero<T: OrderedRing>(x: T)
    ensures
        times(x, T::zero_spec()) == T::zero_spec(),
        times(T::zero_spec(), x) == T::zero_spec(),
{
    T::lemma_ring_laws(x);
}

proof fn lemma_plus_negate<T: OrderedRing>(x: T)
    ensures
        plus(x, negate(x)) == T::zero_spec(),
{
    T::lemma_group_laws(x);
}

/// Flattening keeps every constant child.
proof fn lemma_flat_keeps_constant<T: OrderedRing>(f: Function, s: Seq<Term<T>>, k: int)
    requires
        0 <= k < s.len(),
        s[k] is Cons,
    ensures
        exists|j: int| 0 <= j < flat(f, s).len() && flat(f, s)[j] == s[k],
    decreases s.len(),
{
    let last = s[s.len() - 1];
    let init = flat(f, s.drop_last());
    if k == s.len() - 1 {
        assert(flat(f, s)[init.len() as int] == s[k]);
    } else {
        lemma_flat_keeps_constant(f, s.drop_last(), k);
        let j = choose|j: int| 0 <= j < init.len() && init[j] == s[k];
        assert(flat(f, s)[j] == s[k]);
    }
}

/// A zero among the constants makes their product zero.
proof fn lemma_fold_zero<T: OrderedRing>(s: Seq<Term<T>>, j: int)
    requires
        0 <= j < s.len(),
        s[j] == Term::Cons(T::zero_spec()),
    ensures
        fold_total(Function::Product, s) == T::zero_spec(),
    decreases s.len(),
{
    let t = fold_total(Function::Product, s.drop_last());
    if j == s.len() - 1 {
        lemma_times_zero(t);
    } else {
        lemma_fold_zero(s.drop_last(), j);
        if let Term::Cons(c) = s.last() {
            lemma_times_zero(c);
        }
    }
}

/// Subtracting an expression from itself simplifies to the constant zero.
pub proof fn lemma_self_cancellation<T: OrderedRing>(e: Term<T>)
    ensures
        simp(Term::App(Function::Sub, seq![e, e])) == Term::Cons(T::zero_spec()),
{
    let sa = simp_all(seq![e, e]);
    assert(sa[0] == sa[1]);
    if let Term::Cons(c) = sa[0] {
        lemma_plus_negate(c);
    }
}

/// A product with a zero constant among its arguments simplifies to the
/// constant zero.
pub proof fn lemma_product_absorbs_zero<T: OrderedRing>(args: Seq<Term<T>>, k: int)
    requires
        0 <= k < args.len(),
        args[k] == Term::Cons(T::zero_spec()),
    ensures
        simp(Term::App(Function::Product, args)) == Term::Cons(T::zero_spec()),
{
    let sa = simp_all(args);
    assert(sa[k] == Term::Cons(T::zero_spec()));
    if args.len() != 1 {
        lemma_flat_keeps_constant(Function::Product, sa, k);
        let fl = flat(Function::Product, sa);
        let j = choose|j: int| 0 <= j < fl.len() && fl[j] == sa[k];
        lemma_fold_zero(fl, j);
        assert(combine_product(sa) == Term::Cons(T::zero_spec()));
    }
}

/// Multiplying a square matrix by the identity, or adding the zero matrix
/// to it, gives the matrix back.
pub proof fn lemma_matrix_identity<T: Ring, U: MatrixElement<T>, const N: usize>(m: Matrix<T, U, N>)
    ensures
        matrix_product(m@, identity_matrix::<U>(N as nat), N as nat) == m@,
        matrix_sum(m@, zero_matrix::<U>(N as nat), N as nat) == m@,
{
    let n = N as nat;
    assert forall|i: int| 0 <= i < n implies matrix_product(m@, identity_matrix::<U>(n), n)[i] =~= m@[i] by {
        assert forall|j: int| 0 <= j < n implies matrix_product(m@, identity_matrix::<U>(n), n)[i][j] == m@[i][j] by {
            lemma_dot_identity_column(m@[i], n, j, n as int);
        }
    }
    assert(matrix_product(m@, identity_matrix::<U>(n), n) =~= m@);
    assert forall|i: int| 0 <= i < n implies matrix_sum(m@, zero_matrix::<U>(n), n)[i] =~= m@[i] by {
        assert forall|j: int| 0 <= j < n implies matrix_sum(m@, zero_matrix::<U>(n), n)[i][j] == m@[i][j] by {
            U::lemma_group_laws(m@[i][j]);
        }
    }
    assert(matrix_sum(m@, zero_matrix::<U>(n), n) =~= m@);
}

/// Swapping the operands of the canonical order negates the result.
pub proof fn lemma_cmp_antisymmetric<T: OrderedRing>(a: Term<T>, b: Term<T>)
    ensures
        term_cmp(a, b) == -term_cmp(b, a),
    decreases a, 0int,
{
    if let (Term::Cons(x), Term::Cons(y)) = (a, b) {
        T::lemma_order_laws(x, y, x);
    }
    if let (Term::App(f, s), Term::App(g, t)) = (a, b) {
        if f.rank() == g.rank() && s.len() == t.len() {
            lemma_seq_cmp_antisymmetric(s, t, 0);
        }
    }
}

proof fn lemma_seq_cmp_antisymmetric<T: OrderedRing>(s: Seq<Term<T>>, t: Seq<Term<T>>, i: int)
    requires
        s.len() == t.len(),
        0 <= i,
    ensures
        seq_cmp_from(s, t, i) == -seq_cmp_from(t, s, i),
    decreases s, s.len() - i,
{
    if i < s.len() {
        lemma_cmp_antisymmetric(s[i], t[i]);
        lemma_seq_cmp_antisymmetric(s, t, i + 1);
    }
}

/// Only equal terms compare equal.
pub proof fn lemma_cmp_zero_equal<T: OrderedRing>(a: Term<T>, b: Term<T>)
    requires
        term_cmp(a, b) == 0,
    ensures
        a == b,
    decreases a, 0int,
{
    if let (Term::Cons(x), Term::Cons(y)) = (a, b) {
        T::lemma_order_laws(x, y, x);
    }
    if let (Term::App(f, s), Term::App(g, t)) = (a, b) {
        lemma_seq_cmp_zero_equal(s, t, 0);
        assert(s =~= t);
        assert(f.rank() == g.rank());
    }
}

proof fn lemma_seq_cmp_zero_equal<T: OrderedRing>(s: Seq<Term<T>>, t: Seq<Term<T>>, i: int)
    requires
        s.len() == t.len(),
        0 <= i,
        seq_cmp_from(s, t, i) == 0,
    ensures
        forall|k: int| i <= k < s.len() ==> s[k] == t[k],
    decreases s, s.len() - i,
{
    if i < s.len() {
        lemma_cmp_zero_equal(s[i], t[i]);
        lemma_seq_cmp_zero_equal(s, t, i + 1);
    }
}

/// The strict canonical order is transitive.
pub proof fn lemma_cmp_transitive<T: OrderedRing>(a: Term<T>, b: Term<T>, c: Term<T>)
    requires
        term_cmp(a, b) < 0,
        term_cmp(b, c) < 0,
    ensures
        term_cmp(a, c) < 0,
    decreases a, 0int,
{
    if let (Term::Cons(x), Term::Cons(y), Term::Cons(z)) = (a, b, c) {
        T::lemma_order_laws(x, y, z);
    }
    if let (Term::App(f, s), Term::App(g, t), Term::App(h, u)) = (a, b, c) {
        if f.rank() == h.rank() && s.len() == u.len() {
            assert(f.rank() == g.rank() && s.len() == t.len());
            lemma_seq_cmp_transitive(s, t, u, 0);
        }
    }
}

proof fn lemma_seq_cmp_transitive<T: OrderedRing>(s: Seq<Term<T>>, t: Seq<Term<T>>, u: Seq<Term<T>>, i: int)
    requires
        s.len() == t.len(),
        t.len() == u.len(),
        0 <= i,
        seq_cmp_from(s, t, i) < 0,
        seq_cmp_from(t, u, i) < 0,
    ensures
        seq_cmp_from(s, u, i) < 0,
    decreases s, s.len() - i,
{
    if i < s.len() {
        let c1 = term_cmp(s[i], t[i]);
        let c2 = term_cmp(t[i], u[i]);
        if c1 < 0 && c2 < 0 {
            lemma_cmp_transitive(s[i], t[i], u[i]);
        } else if c1 == 0 && c2 == 0 {
            lemma_cmp_zero_equal(s[i], t[i]);
            lemma_cmp_zero_equal(t[i], u[i]);
            lemma_cmp_antisymmetric(s[i], u[i]);
            lemma_seq_cmp_transitive(s, t, u, i + 1);
        } else if c1 == 0 {
            lemma_cmp_zero_equal(s[i], t[i]);
        } else {
            lemma_cmp_zero_equal(t[i], u[i]);
        }
    }
}

/// The canonical order, with equality, is transitive.
pub proof fn lemma_le_transitive<T: OrderedRing>(a: Term<T>, b: Term<T>, c: Term<T>)
    requires
        term_cmp(a, b) <= 0,
        term_cmp(b, c) <= 0,
    ensures
        term_cmp(a, c) <= 0,
{
    if term_cmp(a, b) == 0 {
        lemma_cmp_zero_equal(a, b);
    } else if term_cmp(b, c) == 0 {
        lemma_cmp_zero_equal(b, c);
    } else {
        lemma_cmp_transitive(a, b, c);
    }
}

/// Each element is at or below every later one in the canonical order.
pub open spec fn is_sorted<T: OrderedRing>(s: Seq<Term<T>>) -> bool {
    forall|i: int, j: int| 0 <= i < j < s.len() ==> term_cmp(s[i], s[j]) <= 0
}

proof fn lemma_insert_sorted<T: OrderedRing>(x: Term<T>, s: Seq<Term<T>>)
    requires
        is_sorted(s),
    ensures
        is_sorted(insert_sorted(x, s)),
        insert_sorted(x, s).to_multiset() == s.to_multiset().insert(x),
    decreases s.len(),
{
    broadcast use vstd::seq_lib::group_to_multiset_ensures;
    if s.len() == 0 {
        assert(seq![x] =~= Seq::<Term<T>>::empty().push(x));
    } else if term_cmp(x, s[0]) <= 0 {
        let r = seq![x] + s;
        assert(r =~= s.insert(0, x));
        vstd::seq_lib::to_multiset_insert(s, 0, x);
        assert forall|i: int, j: int| 0 <= i < j < r.len() implies term_cmp(r[i], r[j]) <= 0 by {
            if i == 0 && j > 1 {
                lemma_le_transitive(x, s[0], s[j - 1]);
            }
        }
    } else {
        let t = s.skip(1);
        assert(t =~= s.remove(0));
        vstd::seq_lib::to_multiset_remove(s, 0);
        let rt = insert_sorted(x, t);
        lemma_insert_sorted(x, t);
        let r = seq![s[0]] + rt;
        assert(r =~= rt.insert(0, s[0]));
        vstd::seq_lib::to_multiset_insert(rt, 0, s[0]);
        assert(r.to_multiset() =~= s.to_multiset().insert(x));
        lemma_cmp_antisymmetric(x, s[0]);
        assert forall|i: int, j: int| 0 <= i < j < r.len() implies term_cmp(r[i], r[j]) <= 0 by {
            if i == 0 {
                let y = rt[j - 1];
                assert(rt.to_multiset().count(y) > 0);
                if y != x {
                    assert(t.to_multiset().count(y) > 0);
                    assert(t.contains(y));
                    let k = choose|k: int| 0 <= k < t.len() && t[k] == y;
                    assert(s[k + 1] == y);
                }
            }
        }
    }
}

/// Sorting gives a sequence in canonical order with the same elements.
pub proof fn lemma_sort_terms<T: OrderedRing>(s: Seq<Term<T>>)
    ensures
        is_sorted(sort_terms(s)),
        sort_terms(s).to_multiset() == s.to_multiset(),
    decreases s.len(),
{
    broadcast use vstd::seq_lib::group_to_multiset_ensures;
    if s.len() > 0 {
        lemma_sort_terms(s.drop_last());
        lemma_insert_sorted(s.last(), sort_terms(s.drop_last()));
        assert(s =~= s.drop_last().push(s.last()));
    }
}

proof fn lemma_sorted_unique<T: OrderedRing>(r1: Seq<Term<T>>, r2: Seq<Term<T>>)
    requires
        is_sorted(r1),
        is_sorted(r2),
        r1.to_multiset() == r2.to_multiset(),
    ensures
        r1 == r2,
    decreases r1.len(),
{
    broadcast use vstd::seq_lib::group_to_multiset_ensures;
    assert(r1.to_multiset().len() == r1.len());
    assert(r2.to_multiset().len() == r2.len());
    if r1.len() == 0 {
        assert(r1 =~= r2);
    } else {
        assert(r1.contains(r1[0]) && r2.contains(r2[0])) by {
            assert(r1[0] == r1[0] && r2[0] == r2[0]);
        }
        assert(r1.to_multiset().count(r1[0]) > 0);
        assert(r2.to_multiset().count(r2[0]) > 0);
        assert(r2.contains(r1[0]));
        let k2 = choose|k: int| 0 <= k < r2.len() && r2[k] == r1[0];
        assert(r1.contains(r2[0]));
        let k1 = choose|k: int| 0 <= k < r1.len() && r1[k] == r2[0];
        assert(term_cmp(r2[0], r1[0]) <= 0) by {
            if k2 > 0 {
                assert(term_cmp(r2[0], r2[k2]) <= 0);
            } else {
                lemma_cmp_antisymmetric(r2[0], r2[0]);
            }
        }
        assert(term_cmp(r1[0], r2[0]) <= 0) by {
            if k1 > 0 {
                assert(term_cmp(r1[0], r1[k1]) <= 0);
            } else {
                lemma_cmp_antisymmetric(r1[0], r1[0]);
            }
        }
        lemma_cmp_antisymmetric(r1[0], r2[0]);
        lemma_cmp_zero_equal(r1[0], r2[0]);
        let t1 = r1.remove(0);
        let t2 = r2.remove(0);
        assert(t1.to_multiset() == t2.to_multiset());
        assert forall|i: int, j: int| 0 <= i < j < t1.len() implies term_cmp(t1[i], t1[j]) <= 0 by {
            assert(t1[i] == r1[i + 1] && t1[j] == r1[j + 1]);
        }
        assert forall|i: int, j: int| 0 <= i < j < t2.len() implies term_cmp(t2[i], t2[j]) <= 0 by {
            assert(t2[i] == r2[i + 1] && t2[j] == r2[j + 1]);
        }
        lemma_sorted_unique(t1, t2);
        assert(r1 =~= r2) by {
            assert forall|i: int| 0 < i < r1.len() implies r1[i] == r2[i] by {
                assert(r1[i] == t1[i - 1] && r2[i] == t2[i - 1]);
            }
        }
    }
}

/// Sorting two orderings of the same children gives the same sequence.
pub proof fn lemma_sort_order_independent<T: OrderedRing>(s1: Seq<Term<T>>, s2: Seq<Term<T>>)
    requires
        s1.to_multiset() == s2.to_multiset(),
    ensures
        sort_terms(s1) == sort_terms(s2),
{
    lemma_sort_terms(s1);
    lemma_sort_terms(s2);
    lemma_sorted_unique(sort_terms(s1), sort_terms(s2));
}

/// Whether `t` is a node of operator `f`.
pub open spec fn is_node_of<T: OrderedRing>(f: Function, t: Term<T>) -> bool {
    t matches Term::App(g, _) && g == f
}

proof fn lemma_flat_concat<T: OrderedRing>(f: Function, s1: Seq<Term<T>>, s2: Seq<Term<T>>)
    ensures
        flat(f, s1 + s2) == flat(f, s1) + flat(f, s2),
    decreases s2.len(),
{
    if s2.len() == 0 {
        assert(s1 + s2 =~= s1);
        assert(flat(f, s1) + flat(f, s2) =~= flat(f, s1));
    } else {
        let s = s1 + s2;
        assert(s.drop_last() =~= s1 + s2.drop_last());
        assert(s[s.len() - 1] == s2[s2.len() - 1]);
        lemma_flat_concat(f, s1, s2.drop_last());
        let last = s2[s2.len() - 1];
        let piece = match last {
            Term::App(g, cs) => if g == f {
                flat(f, cs)
            } else {
                seq![last]
            },
            Term::Cons(_) => seq![last],
        };
        assert(flat(f, s) == flat(f, s.drop_last()) + piece);
        assert(flat(f, s2) == flat(f, s2.drop_last()) + piece);
        assert(flat(f, s) =~= flat(f, s1) + flat(f, s2));
    }
}

proof fn lemma_flat_has_no_node<T: OrderedRing>(f: Function, s: Seq<Term<T>>)
    ensures
        forall|k: int| 0 <= k < flat(f, s).len() ==> !is_node_of(f, #[trigger] flat(f, s)[k]),
    decreases s,
{
    if s.len() > 0 {
        let last = s[s.len() - 1];
        lemma_flat_has_no_node(f, s.drop_last());
        if let Term::App(g, cs) = last {
            if g == f {
                lemma_flat_has_no_node(f, cs);
            }
        }
        let a = flat(f, s.drop_last());
        assert forall|k: int| 0 <= k < flat(f, s).len() implies !is_node_of(f, #[trigger] flat(f, s)[k]) by {
            if k >= a.len() {
                if let Term::App(g, cs) = last {
                    if g == f {
                        assert(flat(f, s)[k] == flat(f, cs)[k - a.len()]);
                    }
                }
            } else {
                assert(flat(f, s)[k] == a[k]);
            }
        }
    }
}

proof fn lemma_flat_identity<T: OrderedRing>(f: Function, s: Seq<Term<T>>)
    requires
        forall|k: int| 0 <= k < s.len() ==> !is_node_of(f, #[trigger] s[k]),
    ensures
        flat(f, s) == s,
    decreases s.len(),
{
    if s.len() > 0 {
        lemma_flat_identity(f, s.drop_last());
        assert(!is_node_of(f, s[s.len() - 1]));
        assert(flat(f, s) =~= s);
    }
}

proof fn lemma_non_constants_concat<T: OrderedRing>(s1: Seq<Term<T>>, s2: Seq<Term<T>>)
    ensures
        non_constants(s1 + s2) == non_constants(s1) + non_constants(s2),
    decreases s2.len(),
{
    if s2.len() == 0 {
        assert(s1 + s2 =~= s1);
        assert(non_constants(s1) + non_constants(s2) =~= non_constants(s1));
    } else {
        let s = s1 + s2;
        assert(s.drop_last() =~= s1 + s2.drop_last());
        lemma_non_constants_concat(s1, s2.drop_last());
        assert(non_constants(s) =~= non_constants(s1) + non_constants(s2));
    }
}

/// `non_constants` keeps only elements of its argument, and no constant.
proof fn lemma_non_constants_members<T: OrderedRing>(s: Seq<Term<T>>)
    ensures
        forall|k: int| 0 <= k < non_constants(s).len() ==> {
            &&& !(#[trigger] non_constants(s)[k] is Cons)
            &&& s.contains(non_constants(s)[k])
        },
    decreases s.len(),
{
    if s.len() > 0 {
        lemma_non_constants_members(s.drop_last());
        let a = non_constants(s.drop_last());
        assert forall|k: int| 0 <= k < non_constants(s).len() implies {
            &&& !(#[trigger] non_constants(s)[k] is Cons)
            &&& s.contains(non_constants(s)[k])
        } by {
            if k < a.len() {
                assert(non_constants(s)[k] == a[k]);
                let j = choose|j: int| 0 <= j < s.drop_last().len() && s.drop_last()[j] == a[k];
                assert(s[j] == a[k]);
            } else {
                assert(non_constants(s)[k] == s[s.len() - 1]);
            }
        }
    }
}

proof fn lemma_non_constants_identity<T: OrderedRing>(s: Seq<Term<T>>)
    requires
        forall|k: int| 0 <= k < s.len() ==> !(#[trigger] s[k] is Cons),
    ensures
        non_constants(s) == s,
    decreases s.len(),
{
    if s.len() > 0 {
        lemma_non_constants_identity(s.drop_last());
        assert(!(s[s.len() - 1] is Cons));
        assert(non_constants(s) =~= s);
    }
}

/// Combines two folded totals as `f` does: by addition for `Sum`, by
/// multiplication otherwise.
pub open spec fn fold_op<T: OrderedRing>(f: Function, a: T, b: T) -> T {
    if f == Function::Sum {
        plus(a, b)
    } else {
        times(a, b)
    }
}

proof fn lemma_fold_op_laws<T: OrderedRing>(f: Function, a: T, b: T, c: T)
    ensures
        fold_op(f, fold_op(f, a, b), c) == fold_op(f, a, fold_op(f, b, c)),
        fold_op(f, a, b) == fold_op(f, b, a),
{
    T::lemma_addition_laws(a, b, c);
    T::lemma_multiplication_laws(a, b, c);
}

proof fn lemma_fold_concat<T: OrderedRing>(f: Function, s1: Seq<Term<T>>, s2: Seq<Term<T>>)
    ensures
        fold_total(f, s1 + s2) == fold_op(f, fold_total(f, s1), fold_total(f, s2)),
    decreases s2.len(),
{
    if s2.len() == 0 {
        assert(s1 + s2 =~= s1);
        T::lemma_group_laws(fold_total(f, s1));
        T::lemma_ring_laws(fold_total(f, s1));
    } else {
        let s = s1 + s2;
        assert(s.drop_last() =~= s1 + s2.drop_last());
        assert(s.last() == s2.last());
        lemma_fold_concat(f, s1, s2.drop_last());
        if let Term::Cons(c) = s2.last() {
            lemma_fold_op_laws(f, fold_total(f, s1), fold_total(f, s2.drop_last()), c);
        }
    }
}

proof fn lemma_fold_sum_without_constants<T: OrderedRing>(s: Seq<Term<T>>)
    requires
        forall|k: int| 0 <= k < s.len() ==> !(#[trigger] s[k] is Cons),
    ensures
        fold_total(Function::Sum, s) == T::zero_spec(),
    decreases s.len(),
{
    if s.len() > 0 {
        lemma_fold_sum_without_constants(s.drop_last());
        assert(!(s[s.len() - 1] is Cons));
    }
}

/// The children that a simplified sum contributes when it is flattened
/// into an enclosing sum: exactly its folded children.
proof fn lemma_sum_piece<T: OrderedRing>(s: Seq<Term<T>>)
    ensures
        flat(Function::Sum, seq![combine_sum(s)]) == folded_children(
            Function::Sum,
            flat(Function::Sum, s),
        ),
        forall|k: int|
            0 <= k < folded_children(Function::Sum, flat(Function::Sum, s)).len() ==> !is_node_of(
                Function::Sum,
                #[trigger] folded_children(Function::Sum, flat(Function::Sum, s))[k],
            ),
{
    broadcast use vstd::seq_lib::group_to_multiset_ensures;
    let fl = flat(Function::Sum, s);
    let nc = non_constants(fl);
    let rest = sort_terms(nc);
    let items = folded_children(Function::Sum, fl);
    lemma_flat_has_no_node(Function::Sum, s);
    lemma_non_constants_members(fl);
    lemma_sort_terms(nc);
    assert forall|k: int| 0 <= k < rest.len() implies !is_node_of(Function::Sum, #[trigger] rest[k])
        && !(rest[k] is Cons) by {
        assert(rest.to_multiset().count(rest[k]) > 0);
        assert(nc.contains(rest[k]));
        let j = choose|j: int| 0 <= j < nc.len() && nc[j] == rest[k];
        let i = choose|i: int| 0 <= i < fl.len() && fl[i] == nc[j];
    }
    assert forall|k: int| 0 <= k < items.len() implies !is_node_of(Function::Sum, #[trigger] items[k]) by {
        if has_constant(fl) && k > 0 {
            assert(items[k] == rest[k - 1]);
        }
    }
    let x = combine_sum(s);
    let one = seq![x];
    assert(x == collapse(Function::Sum, items));
    assert(one.drop_last() =~= Seq::<Term<T>>::empty());
    assert(flat(Function::Sum, one.drop_last()) == Seq::<Term<T>>::empty());
    assert(one[one.len() - 1] == x);
    if items.len() == 1 {
        assert(x == items[0]);
        assert(!is_node_of(Function::Sum, x));
        assert(flat(Function::Sum, one) =~= items);
    } else {
        lemma_flat_identity(Function::Sum, items);
        assert(flat(Function::Sum, one) =~= items);
    }
}

/// The constants that folding gathered, followed by the sorted other
/// elements.
proof fn lemma_folded_parts<T: OrderedRing>(fab: Seq<Term<T>>)
    ensures
        ({
            let rest = sort_terms(non_constants(fab));
            &&& forall|k: int| 0 <= k < rest.len() ==> !(#[trigger] rest[k] is Cons)
            &&& non_constants(folded_children(Function::Sum, fab)) == rest
            &&& fold_total(Function::Sum, folded_children(Function::Sum, fab)) == fold_total(Function::Sum, fab)
            &&& has_constant(folded_children(Function::Sum, fab)) == has_constant(fab)
            &&& rest.to_multiset() == non_constants(fab).to_multiset()
        }),
{
    broadcast use vstd::seq_lib::group_to_multiset_ensures;
    let nc = non_constants(fab);
    let rest = sort_terms(nc);
    let items = folded_children(Function::Sum, fab);
    lemma_non_constants_members(fab);
    lemma_sort_terms(nc);
    assert forall|k: int| 0 <= k < rest.len() implies !(#[trigger] rest[k] is Cons) by {
        assert(rest.to_multiset().count(rest[k]) > 0);
        assert(nc.contains(rest[k]));
    }
    lemma_non_constants_identity(rest);
    lemma_fold_sum_without_constants(rest);
    if has_constant(fab) {
        let t = fold_total(Function::Sum, fab);
        let head = seq![Term::Cons(t)];
        assert(items == head + rest);
        lemma_fold_concat(Function::Sum, head, rest);
        assert(head.drop_last() =~= Seq::<Term<T>>::empty());
        lemma_non_constants_concat(head, rest);
        assert(non_constants(head.drop_last()) =~= Seq::<Term<T>>::empty());
        assert(non_constants(head) =~= Seq::<Term<T>>::empty());
        assert(head.last() == Term::Cons(t));
        assert(fold_total(Function::Sum, head.drop_last()) == T::zero_spec());
        assert(fold_total(Function::Sum, head) == plus(T::zero_spec(), t));
        T::lemma_group_laws(t);
        assert(fold_total(Function::Sum, items) == t);
        assert(non_constants(items) =~= rest);
        assert(items[0] is Cons);
    } else {
        assert forall|k: int| 0 <= k < fab.len() implies !(#[trigger] fab[k] is Cons) by {}
        lemma_fold_sum_without_constants(fab);
        assert(items == rest);
        assert(!has_constant(rest));
    }
}

/// Whether a concatenation holds a constant.
proof fn lemma_has_constant_concat<T: OrderedRing>(s1: Seq<Term<T>>, s2: Seq<Term<T>>)
    ensures
        has_constant(s1 + s2) == (has_constant(s1) || has_constant(s2)),
{
    let s = s1 + s2;
    if has_constant(s) {
        let k = choose|k: int| 0 <= k < s.len() && s[k] is Cons;
        if k >= s1.len() {
            assert(s2[k - s1.len()] == s[k]);
        } else {
            assert(s1[k] == s[k]);
        }
    }
    if has_constant(s1) {
        let k = choose|k: int| 0 <= k < s1.len() && s1[k] is Cons;
        assert(s[k] == s1[k]);
    }
    if has_constant(s2) {
        let k = choose|k: int| 0 <= k < s2.len() && s2[k] is Cons;
        assert(s[k + s1.len()] == s2[k]);
    }
}

/// Folding a list whose front was folded already gives what folding the
/// whole list gives.
proof fn lemma_folded_children_concat<T: OrderedRing>(fab: Seq<Term<T>>, pc: Seq<Term<T>>)
    ensures
        folded_children(Function::Sum, folded_children(Function::Sum, fab) + pc) == folded_children(
            Function::Sum,
            fab + pc,
        ),
{
    broadcast use vstd::seq_lib::group_to_multiset_ensures;
    let items = folded_children(Function::Sum, fab);
    let outer = items + pc;
    let direct = fab + pc;
    let rest = sort_terms(non_constants(fab));
    lemma_folded_parts(fab);
    lemma_has_constant_concat(items, pc);
    lemma_has_constant_concat(fab, pc);
    lemma_fold_concat(Function::Sum, items, pc);
    lemma_fold_concat(Function::Sum, fab, pc);
    lemma_non_constants_concat(items, pc);
    lemma_non_constants_concat(fab, pc);
    vstd::seq_lib::lemma_multiset_commutative(rest, non_constants(pc));
    vstd::seq_lib::lemma_multiset_commutative(non_constants(fab), non_constants(pc));
    lemma_sort_order_independent(non_constants(outer), non_constants(direct));
}

/// Simplifying a two-child sum and a three-child sum.
proof fn lemma_simp_sums<T: OrderedRing>(a: Term<T>, b: Term<T>, c: Term<T>)
    ensures
        simp(Term::App(Function::Sum, seq![a, b])) == combine_sum(seq![simp(a), simp(b)]),
        simp(Term::App(Function::Sum, seq![a, b, c])) == combine_sum(seq![simp(a), simp(b), simp(c)]),
{
    assert(simp_all(seq![a, b]) =~= seq![simp(a), simp(b)]);
    assert(simp_all(seq![a, b, c]) =~= seq![simp(a), simp(b), simp(c)]);
}

/// A sum nested as the first argument of a sum simplifies as if its
/// children were the outer sum's own: simplifying Sum(Sum(a, b), c) and
/// Sum(a, b, c) gives the same term.
#[verifier::rlimit(50)]
pub proof fn lemma_sum_flattening<T: OrderedRing>(a: Term<T>, b: Term<T>, c: Term<T>)
    ensures
        simp(Term::App(Function::Sum, seq![Term::App(Function::Sum, seq![a, b]), c])) == simp(
            Term::App(Function::Sum, seq![a, b, c]),
        ),
{
    let sa = simp(a);
    let sb = simp(b);
    let sc = simp(c);
    let inner = Term::App(Function::Sum, seq![a, b]);
    let si = simp(inner);
    lemma_simp_sums(a, b, c);
    lemma_simp_sums(inner, c, c);
    let fab = flat(Function::Sum, seq![sa, sb]);
    let pc = flat(Function::Sum, seq![sc]);
    lemma_sum_piece(seq![sa, sb]);
    assert(seq![si, sc] =~= seq![si] + seq![sc]);
    lemma_flat_concat(Function::Sum, seq![si], seq![sc]);
    assert(seq![sa, sb, sc] =~= seq![sa, sb] + seq![sc]);
    lemma_flat_concat(Function::Sum, seq![sa, sb], seq![sc]);
    lemma_folded_children_concat(fab, pc);
}

/// What folding the children of an `f` node keeps of them: whether one is a constant,
/// the constants' total, and the other children as a multiset.
pub open spec fn same_parts<T: OrderedRing>(f: Function, u: Seq<Term<T>>, v: Seq<Term<T>>) -> bool {
    &&& has_constant(u) == has_constant(v)
    &&& fold_total(f, u) == fold_total(f, v)
    &&& non_constants(u).to_multiset() == non_constants(v).to_multiset()
}

proof fn lemma_parts_concat<T: OrderedRing>(f: Function, a: Seq<Term<T>>, b: Seq<Term<T>>)
    ensures
        has_constant(a + b) == (has_constant(a) || has_constant(b)),
        fold_total(f, a + b) == fold_op(f, fold_total(f, a), fold_total(f, b)),
        non_constants(a + b).to_multiset() == non_constants(a).to_multiset().add(non_constants(b).to_multiset()),
{
    lemma_has_constant_concat(a, b);
    lemma_fold_concat(f, a, b);
    lemma_non_constants_concat(a, b);
    vstd::seq_lib::lemma_multiset_commutative(non_constants(a), non_constants(b));
}

/// Writes `t` as the part before position `j`, the element there, and the
/// part after it.
proof fn lemma_split_at<T: OrderedRing>(t: Seq<Term<T>>, j: int)
    requires
        0 <= j < t.len(),
    ensures
        t == t.take(j) + (seq![t[j]] + t.skip(j + 1)),
        t.remove(j) == t.take(j) + t.skip(j + 1),
{
    assert(t =~= t.take(j) + (seq![t[j]] + t.skip(j + 1)));
    assert(t.remove(j) =~= t.take(j) + t.skip(j + 1));
}

proof fn lemma_simp_all_concat<T: OrderedRing>(a: Seq<Term<T>>, b: Seq<Term<T>>)
    ensures
        simp_all(a + b) == simp_all(a) + simp_all(b),
{
    assert(simp_all(a + b) =~= simp_all(a) + simp_all(b));
}

/// Simplifying the children of two orderings gives two orderings of the
/// same simplified children.
proof fn lemma_simp_all_permutation<T: OrderedRing>(s1: Seq<Term<T>>, s2: Seq<Term<T>>)
    requires
        s1.to_multiset() == s2.to_multiset(),
    ensures
        simp_all(s1).to_multiset() == simp_all(s2).to_multiset(),
    decreases s1.len(),
{
    broadcast use vstd::seq_lib::group_to_multiset_ensures;
    assert(s1.to_multiset().len() == s1.len() && s2.to_multiset().len() == s2.len());
    if s1.len() == 0 {
        assert(simp_all(s1) =~= simp_all(s2));
    } else {
        let x = s1.last();
        let r1 = s1.drop_last();
        assert(s1 =~= r1.push(x));
        assert(s1.to_multiset().count(x) > 0);
        assert(s2.contains(x));
        let j = choose|j: int| 0 <= j < s2.len() && s2[j] == x;
        let p = s2.take(j);
        let q = s2.skip(j + 1);
        lemma_split_at(s2, j);
        assert(r1.to_multiset() =~= s2.remove(j).to_multiset());
        lemma_simp_all_permutation(r1, p + q);
        lemma_simp_all_concat(r1, seq![x]);
        lemma_simp_all_concat(p, q);
        lemma_simp_all_concat(p, seq![x] + q);
        lemma_simp_all_concat(seq![x], q);
        assert(r1 + seq![x] =~= s1);
        vstd::seq_lib::lemma_multiset_commutative(simp_all(r1), simp_all(seq![x]));
        vstd::seq_lib::lemma_multiset_commutative(simp_all(p), simp_all(q));
        vstd::seq_lib::lemma_multiset_commutative(simp_all(p), simp_all(seq![x] + q));
        vstd::seq_lib::lemma_multiset_commutative(simp_all(seq![x]), simp_all(q));
        assert(simp_all(s1).to_multiset() =~= simp_all(s2).to_multiset());
    }
}

/// Flattening two orderings of the same children keeps the same parts.
proof fn lemma_flat_permutation<T: OrderedRing>(f: Function, t1: Seq<Term<T>>, t2: Seq<Term<T>>)
    requires
        t1.to_multiset() == t2.to_multiset(),
    ensures
        same_parts(f, flat(f, t1), flat(f, t2)),
    decreases t1.len(),
{
    broadcast use vstd::seq_lib::group_to_multiset_ensures;
    assert(t1.to_multiset().len() == t1.len() && t2.to_multiset().len() == t2.len());
    if t1.len() == 0 {
        assert(t1 =~= t2);
    } else {
        let x = t1.last();
        let r1 = t1.drop_last();
        assert(t1 =~= r1.push(x));
        assert(t1.to_multiset().count(x) > 0);
        assert(t2.contains(x));
        let j = choose|j: int| 0 <= j < t2.len() && t2[j] == x;
        let p = t2.take(j);
        let q = t2.skip(j + 1);
        lemma_split_at(t2, j);
        assert(r1.to_multiset() =~= t2.remove(j).to_multiset());
        lemma_flat_permutation(f, r1, p + q);
        assert(r1 + seq![x] =~= t1);
        lemma_flat_concat(f, r1, seq![x]);
        lemma_flat_concat(f, p, q);
        lemma_flat_concat(f, p, seq![x] + q);
        lemma_flat_concat(f, seq![x], q);
        let fr = flat(f, r1);
        let fp = flat(f, p);
        let fq = flat(f, q);
        let fx = flat(f, seq![x]);
        lemma_parts_concat(f, fr, fx);
        lemma_parts_concat(f, fp, fq);
        lemma_parts_concat(f, fp, fx + fq);
        lemma_parts_concat(f, fx, fq);
        let (a, b, c) = (
            fold_total(f, fp),
            fold_total(f, fq),
            fold_total(f, fx),
        );
        lemma_fold_op_laws(f, a, b, c);
        lemma_fold_op_laws(f, a, c, b);
        lemma_fold_op_laws(f, b, c, a);
        assert(non_constants(flat(f, t1)).to_multiset() =~= non_constants(flat(f, t2)).to_multiset());
    }
}

/// Two orderings of the same children of a sum simplify to the same term:
/// the children come out in one canonical order whatever order they went
/// in.
pub proof fn lemma_sum_order_independent<T: OrderedRing>(s1: Seq<Term<T>>, s2: Seq<Term<T>>)
    requires
        s1.to_multiset() == s2.to_multiset(),
    ensures
        simp(Term::App(Function::Sum, s1)) == simp(Term::App(Function::Sum, s2)),
{
    broadcast use vstd::seq_lib::group_to_multiset_ensures;
    assert(s1.to_multiset().len() == s1.len() && s2.to_multiset().len() == s2.len());
    if s1.len() == 1 {
        assert(s1.to_multiset().count(s1[0]) > 0);
        assert(s2.contains(s1[0]));
        assert(s1 =~= s2);
    } else {
        let t1 = simp_all(s1);
        let t2 = simp_all(s2);
        lemma_simp_all_permutation(s1, s2);
        lemma_flat_permutation(Function::Sum, t1, t2);
        let fl1 = flat(Function::Sum, t1);
        let fl2 = flat(Function::Sum, t2);
        lemma_sort_order_independent(non_constants(fl1), non_constants(fl2));
        assert(folded_children(Function::Sum, fl1) == folded_children(Function::Sum, fl2));
    }
}

/// Whether a subtraction of `args` simplifies to a sum: its first operand
/// simplifies to a non-constant and its second to a constant.
pub open spec fn subtracts_constant<T: OrderedRing>(args: Seq<Term<T>>) -> bool {
    args.len() == 2 && simp(args[1]) is Cons && !(simp(args[0]) is Cons)
}

/// Whether `t` holds no product node and no subtraction of a constant from
/// a non-constant.
pub open spec fn without_product_or_subtracted_constant<T: OrderedRing>(t: Term<T>) -> bool
    decreases t,
{
    match t {
        Term::Cons(_) => true,
        Term::App(f, args) => f != Function::Product && !(f == Function::Sub && subtracts_constant(args))
            && forall|i: int|
            0 <= i < args.len() ==> without_product_or_subtracted_constant(#[trigger] args[i]),
    }
}

/// Whether simplifying `t` gives `t` back.
pub open spec fn is_fixed<T: OrderedRing>(t: Term<T>) -> bool {
    simp(t) == t
}

/// Whether `t` is simplified and, if it is a sum, its children are
/// simplified and are not sums.
pub open spec fn is_stable<T: OrderedRing>(t: Term<T>) -> bool {
    &&& is_fixed(t)
    &&& t matches Term::App(Function::Sum, cs) ==> forall|k: int|
        0 <= k < cs.len() ==> is_fixed(#[trigger] cs[k]) && !is_node_of(Function::Sum, cs[k])
}

/// Flattening stable terms gives simplified terms that are not sums.
proof fn lemma_flat_of_stable<T: OrderedRing>(s: Seq<Term<T>>)
    requires
        forall|i: int| 0 <= i < s.len() ==> is_stable(#[trigger] s[i]),
    ensures
        forall|k: int| 0 <= k < flat(Function::Sum, s).len() ==> is_fixed(
            #[trigger] flat(Function::Sum, s)[k],
        ) && !is_node_of(Function::Sum, flat(Function::Sum, s)[k]),
    decreases s.len(),
{
    if s.len() > 0 {
        let last = s[s.len() - 1];
        lemma_flat_of_stable(s.drop_last());
        assert(is_stable(last));
        let a = flat(Function::Sum, s.drop_last());
        if let Term::App(g, cs) = last {
            if g == Function::Sum {
                lemma_flat_identity(Function::Sum, cs);
            }
        }
        assert forall|k: int| 0 <= k < flat(Function::Sum, s).len() implies is_fixed(
            #[trigger] flat(Function::Sum, s)[k],
        ) && !is_node_of(Function::Sum, flat(Function::Sum, s)[k]) by {
            if k < a.len() {
                assert(flat(Function::Sum, s)[k] == a[k]);
            } else if let Term::App(g, cs) = last {
                if g == Function::Sum {
                    assert(flat(Function::Sum, s)[k] == cs[k - a.len()]);
                }
            }
        }
    }
}

/// A sum of stable terms simplifies to a stable term.
proof fn lemma_combine_sum_stable<T: OrderedRing>(sa: Seq<Term<T>>)
    requires
        forall|i: int| 0 <= i < sa.len() ==> is_stable(#[trigger] sa[i]),
    ensures
        is_stable(combine_sum(sa)),
{
    broadcast use vstd::seq_lib::group_to_multiset_ensures;
    let fl = flat(Function::Sum, sa);
    let nc = non_constants(fl);
    let rest = sort_terms(nc);
    let items = folded_children(Function::Sum, fl);
    lemma_flat_of_stable(sa);
    lemma_sum_piece(sa);
    lemma_folded_parts(fl);
    lemma_non_constants_members(fl);
    lemma_sort_terms(nc);
    assert forall|k: int| 0 <= k < rest.len() implies is_fixed(#[trigger] rest[k]) by {
        assert(rest.to_multiset().count(rest[k]) > 0);
        assert(nc.contains(rest[k]));
        let j = choose|j: int| 0 <= j < nc.len() && nc[j] == rest[k];
        let i = choose|i: int| 0 <= i < fl.len() && fl[i] == nc[j];
    }
    assert forall|k: int| 0 <= k < items.len() implies is_fixed(#[trigger] items[k]) by {
        if has_constant(fl) && k > 0 {
            assert(items[k] == rest[k - 1]);
        } else if !has_constant(fl) {
            assert(items[k] == rest[k]);
        }
    }
    if items.len() != 1 {
        assert(simp_all(items) =~= items);
        lemma_flat_identity(Function::Sum, items);
        lemma_sort_terms(rest);
        lemma_sorted_unique(sort_terms(rest), rest);
        assert(non_constants(items) == rest);
        assert(folded_children(Function::Sum, items) =~= items);
        assert(simp(Term::App(Function::Sum, items)) == combine_sum(items));
    }
}

/// Simplifying a second time changes nothing, for a term without product
/// nodes and without a subtraction of a constant from a non-constant.
pub proof fn lemma_simplify_idempotent<T: OrderedRing>(t: Term<T>)
    requires
        without_product_or_subtracted_constant(t),
    ensures
        simp(simp(t)) == simp(t),
        is_stable(simp(t)),
    decreases t,
{
    if let Term::App(f, args) = t {
        let sa = simp_all(args);
        assert forall|i: int| 0 <= i < sa.len() implies is_stable(#[trigger] sa[i]) by {
            assert(without_product_or_subtracted_constant(args[i]));
            lemma_simplify_idempotent(args[i]);
        }
        match f {
            Function::Sum => {
                if args.len() != 1 {
                    lemma_combine_sum_stable(sa);
                }
            },
            Function::Sub => {
                if args.len() == 2 {
                    if sa[0] != sa[1] && !(sa[0] is Cons && sa[1] is Cons) {
                        assert(simp_all(sa) =~= sa);
                    }
                } else {
                    assert(simp_all(sa) =~= sa);
                }
            },
            Function::Cos => {
                if args.len() == 1 {
                    if sa[0] != Term::Cons(T::zero_spec()) {
                        assert(simp_all(seq![sa[0]]) =~= seq![sa[0]]);
                    }
                } else {
                    assert(simp_all(sa) =~= sa);
                }
            },
            _ => {
                assert(simp_all(sa) =~= sa);
            },
        }
    }
}

/// Two orderings of the same factors of a product simplify to the same
/// term: the factors come out in one canonical order whatever order they
/// went in.
pub proof fn lemma_product_order_independent<T: OrderedRing>(s1: Seq<Term<T>>, s2: Seq<Term<T>>)
    requires
        s1.to_multiset() == s2.to_multiset(),
    ensures
        simp(Term::App(Function::Product, s1)) == simp(Term::App(Function::Product, s2)),
{
    broadcast use vstd::seq_lib::group_to_multiset_ensures;
    assert(s1.to_multiset().len() == s1.len() && s2.to_multiset().len() == s2.len());
    if s1.len() == 1 {
        assert(s1.to_multiset().count(s1[0]) > 0);
        assert(s2.contains(s1[0]));
        assert(s1 =~= s2);
    } else {
        let t1 = simp_all(s1);
        let t2 = simp_all(s2);
        lemma_simp_all_permutation(s1, s2);
        lemma_flat_permutation(Function::Product, t1, t2);
        let fl1 = flat(Function::Product, t1);
        let fl2 = flat(Function::Product, t2);
        lemma_sort_order_independent(non_constants(fl1), non_constants(fl2));
        assert(folded_children(Function::Product, fl1) == folded_children(Function::Product, fl2));
    }
}

} // verus!
