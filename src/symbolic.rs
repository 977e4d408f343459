//! Expression<T> trees, their canonical order and the simplifier.
use vstd::prelude::*;
use crate::algebra::{Group, OrderedRing, Ring};

verus! {

broadcast use vstd::std_specs::vec::axiom_vec_index_decreases;

/// The closed set of operators, ordered as declared.
#[derive(PartialEq, Eq, Structural, Debug, Clone, Copy, PartialOrd, Ord)]
pub enum Function {
    Sum,
    Sub,
    Product,
    Div,
    Cos,
    Sin,
}

impl Function {
    /// Position of the operator in the declaration order.
    pub open spec fn rank(self) -> int {
        match self {
            Function::Sum => 0,
            Function::Sub => 1,
            Function::Product => 2,
            Function::Div => 3,
            Function::Cos => 4,
            Function::Sin => 5,
        }
    }

    pub fn rank_of(&self) -> (r: u8)
        ensures
            r as int == self.rank(),
    {
        match self {
            Function::Sum => 0,
            Function::Sub => 1,
            Function::Product => 2,
            Function::Div => 3,
            Function::Cos => 4,
            Function::Sin => 5,
        }
    }
}

/// Why an operator cannot be evaluated on given arguments.
#[derive(PartialEq, Eq, Structural, Debug, Clone, Copy)]
pub enum EvalError {
    /// The operator was given the wrong number of arguments.
    ArityError,
    /// A division by zero.
    DivisionByZeroError,
}

impl Function {
    /// Whether the operator takes `n` arguments: `Sum` and `Product` one or
    /// more, `Sub` and `Div` two, `Cos` and `Sin` one.
    pub open spec fn accepts(self, n: nat) -> bool {
        match self {
            Function::Sum | Function::Product => n >= 1,
            Function::Sub | Function::Div => n == 2,
            Function::Cos | Function::Sin => n == 1,
        }
    }

    /// Decides whether the operator can be evaluated on `count` arguments,
    /// the second of which is zero when `divisor_is_zero`.
    pub fn check_arguments(&self, count: usize, divisor_is_zero: bool) -> (r: Result<(), EvalError>)
        ensures
            r == (if !self.accepts(count as nat) {
                Err(EvalError::ArityError)
            } else if *self == Function::Div && divisor_is_zero {
                Err(EvalError::DivisionByZeroError)
            } else {
                Ok(())
            }),
    {
        let ok = match self {
            Function::Sum | Function::Product => count >= 1,
            Function::Sub | Function::Div => count == 2,
            Function::Cos | Function::Sin => count == 1,
        };
        if !ok {
            Err(EvalError::ArityError)
        } else if *self == Function::Div && divisor_is_zero {
            Err(EvalError::DivisionByZeroError)
        } else {
            Ok(())
        }
    }
}

/// Mathematical model of an expression tree.
pub enum Term<T> {
    Cons(T),
    App(Function, Seq<Term<T>>),
}

/// An expression tree: a constant leaf, or an operator applied to children.
#[derive(Debug)]
pub enum Expression<T: OrderedRing> {
    Cons(T),
    Exp { f: Function, arguments: Vec<Expression<T>> },
}

/// The models of a sequence of expressions.
pub open spec fn views<T: OrderedRing>(v: Seq<Expression<T>>) -> Seq<Term<T>>
    decreases v,
{
    Seq::new(v.len(), |i: int| if 0 <= i < v.len() { v[i].view() } else { Term::Cons(T::zero_spec()) })
}

impl<T: OrderedRing> Expression<T> {
    pub open spec fn view(self) -> Term<T>
        decreases self,
    {
        match self {
            Expression::Cons(x) => Term::Cons(x),
            Expression::Exp { f, arguments } => Term::App(f, views(arguments@)),
        }
    }

    /// A structural copy.
    pub fn copy(&self) -> (r: Expression<T>)
        ensures
            r@ == self@,
        decreases self,
    {
        match self {
            Expression::Cons(x) => Expression::Cons(*x),
            Expression::Exp { f, arguments } => Expression::Exp {
                f: *f,
                arguments: copy_all(arguments),
            },
        }
    }
}

impl<T: OrderedRing> Clone for Expression<T> {
    fn clone(&self) -> (r: Self)
        ensures
            r@ == self@,
    {
        self.copy()
    }
}

proof fn lemma_views_push<T: OrderedRing>(s: Seq<Expression<T>>, x: Expression<T>)
    ensures
        views(s.push(x)) == views(s).push(x@),
{
    assert(views(s.push(x)) =~= views(s).push(x@));
}

/// A structural copy of each expression.
pub fn copy_all<T: OrderedRing>(v: &Vec<Expression<T>>) -> (r: Vec<Expression<T>>)
    ensures
        views(r@) == views(v@),
    decreases v,
{
    let mut r: Vec<Expression<T>> = Vec::new();
    let mut i: usize = 0;
    while i < v.len()
        invariant
            i <= v.len(),
            views(r@) == views(v@.take(i as int)),
        decreases v.len() - i,
    {
        let c = v[i].copy();
        proof {
            lemma_views_push(r@, c);
            assert(v@.take(i + 1) =~= v@.take(i as int).push(v@[i as int]));
        }
        r.push(c);
        i += 1;
    }
    assert(v@.take(i as int) =~= v@);
    r
}

/// Sign of the comparison of two integers: -1, 0 or 1.
pub open spec fn sign(a: int, b: int) -> int {
    if a < b {
        -1
    } else if a == b {
        0
    } else {
        1
    }
}

/// Canonical order: constants before applications; constants by value;
/// applications by operator, then by number of children, then by the
/// children from the first on. The result is -1, 0 or 1.
pub open spec fn term_cmp<T: OrderedRing>(a: Term<T>, b: Term<T>) -> int
    decreases a, 0int,
{
    match (a, b) {
        (Term::Cons(x), Term::Cons(y)) => T::cmp_spec(x, y),
        (Term::Cons(_), Term::App(_, _)) => -1,
        (Term::App(_, _), Term::Cons(_)) => 1,
        (Term::App(f, s), Term::App(g, t)) => {
            if f.rank() != g.rank() {
                sign(f.rank(), g.rank())
            } else if s.len() != t.len() {
                sign(s.len() as int, t.len() as int)
            } else {
                seq_cmp_from(s, t, 0)
            }
        },
    }
}

/// Lexicographic comparison of two sequences from position `i` on.
pub open spec fn seq_cmp_from<T: OrderedRing>(s: Seq<Term<T>>, t: Seq<Term<T>>, i: int) -> int
    decreases s, s.len() - i,
{
    if i < 0 || i >= s.len() || i >= t.len() {
        0
    } else {
        let c = term_cmp(s[i], t[i]);
        if c != 0 {
            c
        } else {
            seq_cmp_from(s, t, i + 1)
        }
    }
}

impl<T: OrderedRing> Expression<T> {
    /// Structural equality.
    pub fn equals(&self, other: &Expression<T>) -> (r: bool)
        ensures
            r == (self@ == other@),
        decreases self,
    {
        match self {
            Expression::Cons(x) => match other {
                Expression::Cons(y) => {
                    proof {
                        T::lemma_order_laws(*x, *y, *x);
                        T::lemma_order_laws(*x, *x, *x);
                    }
                    x.compare(y) == 0
                },
                _ => false,
            },
            Expression::Exp { f, arguments: a } => match other {
                Expression::Exp { f: g, arguments: b } => {
                    if *f != *g {
                        return false;
                    }
                    let r = equal_all(a, b);
                    r
                },
                _ => false,
            },
        }
    }

    /// Compares in the canonical order: -1, 0 or 1.
    pub fn compare(&self, other: &Expression<T>) -> (r: i8)
        ensures
            r as int == term_cmp(self@, other@),
        decreases self,
    {
        match self {
            Expression::Cons(x) => match other {
                Expression::Cons(y) => x.compare(y),
                _ => -1,
            },
            Expression::Exp { f, arguments: a } => match other {
                Expression::Cons(_) => 1,
                Expression::Exp { f: g, arguments: b } => {
                    let rf = f.rank_of();
                    let rg = g.rank_of();
                    if rf < rg {
                        return -1;
                    } else if rf > rg {
                        return 1;
                    }
                    if a.len() < b.len() {
                        return -1;
                    } else if a.len() > b.len() {
                        return 1;
                    }
                    compare_all(a, b)
                },
            },
        }
    }
}

/// Element-wise structural equality of two lists.
pub fn equal_all<T: OrderedRing>(a: &Vec<Expression<T>>, b: &Vec<Expression<T>>) -> (r: bool)
    ensures
        r == (views(a@) == views(b@)),
    decreases a,
{
    if a.len() != b.len() {
        assert(views(a@).len() != views(b@).len());
        return false;
    }
    let mut i: usize = 0;
    while i < a.len()
        invariant
            i <= a.len(),
            a.len() == b.len(),
            forall|k: int| 0 <= k < i ==> views(a@)[k] == views(b@)[k],
        decreases a.len() - i,
    {
        if !a[i].equals(&b[i]) {
            assert(views(a@)[i as int] != views(b@)[i as int]);
            return false;
        }
        i += 1;
    }
    assert(views(a@) =~= views(b@));
    true
}

/// Lexicographic comparison of two lists of the same length.
pub fn compare_all<T: OrderedRing>(a: &Vec<Expression<T>>, b: &Vec<Expression<T>>) -> (r: i8)
    requires
        a.len() == b.len(),
    ensures
        r as int == seq_cmp_from(views(a@), views(b@), 0),
    decreases a,
{
    let ghost s = views(a@);
    let ghost t = views(b@);
    let mut i: usize = 0;
    while i < a.len()
        invariant
            i <= a.len(),
            a.len() == b.len(),
            s == views(a@),
            t == views(b@),
            seq_cmp_from(s, t, 0) == seq_cmp_from(s, t, i as int),
        decreases a.len() - i,
    {
        let c = a[i].compare(&b[i]);
        if c != 0 {
            return c;
        }
        i += 1;
    }
    0
}

impl<T: OrderedRing> PartialEq for Expression<T> {
    fn eq(&self, other: &Expression<T>) -> (r: bool) {
        self.equals(other)
    }
}

impl<T: OrderedRing> vstd::std_specs::cmp::PartialEqSpecImpl for Expression<T> {
    open spec fn obeys_eq_spec() -> bool {
        true
    }

    open spec fn eq_spec(&self, other: &Expression<T>) -> bool {
        self@ == other@
    }
}

impl<T: OrderedRing> Eq for Expression<T> {
}

/// Inserts `x` before the first element that is not below it.
pub open spec fn insert_sorted<T: OrderedRing>(x: Term<T>, s: Seq<Term<T>>) -> Seq<Term<T>>
    decreases s.len(),
{
    if s.len() == 0 {
        seq![x]
    } else if term_cmp(x, s[0]) <= 0 {
        seq![x] + s
    } else {
        seq![s[0]] + insert_sorted(x, s.skip(1))
    }
}

/// Insertion sort in the canonical order.
pub open spec fn sort_terms<T: OrderedRing>(s: Seq<Term<T>>) -> Seq<Term<T>>
    decreases s.len(),
{
    if s.len() == 0 {
        s
    } else {
        insert_sorted(s.last(), sort_terms(s.drop_last()))
    }
}

proof fn lemma_insert_at<T: OrderedRing>(x: Term<T>, s: Seq<Term<T>>, j: int)
    requires
        0 <= j <= s.len(),
        forall|k: int| 0 <= k < j ==> term_cmp(x, s[k]) > 0,
        j == s.len() || term_cmp(x, s[j]) <= 0,
    ensures
        insert_sorted(x, s) == s.insert(j, x),
    decreases j,
{
    if j == 0 {
        assert(s.insert(0, x) =~= seq![x] + s);
    } else {
        let t = s.skip(1);
        assert forall|k: int| 0 <= k < j - 1 implies term_cmp(x, t[k]) > 0 by {
            assert(t[k] == s[k + 1]);
        }
        if j < s.len() {
            assert(t[j - 1] == s[j]);
        }
        lemma_insert_at(x, t, j - 1);
        assert(seq![s[0]] + t.insert(j - 1, x) =~= s.insert(j, x));
    }
}

proof fn lemma_views_insert<T: OrderedRing>(s: Seq<Expression<T>>, j: int, x: Expression<T>)
    requires
        0 <= j <= s.len(),
    ensures
        views(s.insert(j, x)) == views(s).insert(j, x@),
{
    assert(views(s.insert(j, x)) =~= views(s).insert(j, x@));
}

/// Sorts a list in the canonical order.
pub fn sort_exprs<T: OrderedRing>(v: &Vec<Expression<T>>) -> (r: Vec<Expression<T>>)
    ensures
        views(r@) == sort_terms(views(v@)),
{
    let mut r: Vec<Expression<T>> = Vec::new();
    let mut i: usize = 0;
    while i < v.len()
        invariant
            i <= v.len(),
            views(r@) == sort_terms(views(v@.take(i as int))),
        decreases v.len() - i,
    {
        let x = v[i].copy();
        let mut j: usize = 0;
        while j < r.len() && x.compare(&r[j]) > 0
            invariant
                j <= r.len(),
                forall|k: int| 0 <= k < j ==> term_cmp(x@, views(r@)[k]) > 0,
            decreases r.len() - j,
        {
            j += 1;
        }
        proof {
            let vt = views(v@.take(i + 1));
            assert(views(v@.take(i as int)) =~= vt.drop_last());
            assert(vt.last() == x@);
            lemma_insert_at(x@, views(r@), j as int);
            lemma_views_insert(r@, j as int, x);
        }
        r.insert(j, x);
        i += 1;
    }
    assert(v@.take(i as int) =~= v@);
    r
}

/// Ring addition of constants.
pub open spec fn plus<T: OrderedRing>(a: T, b: T) -> T {
    T::add_spec(a, b)
}

/// Ring multiplication of constants.
pub open spec fn times<T: OrderedRing>(a: T, b: T) -> T {
    T::mul_spec(a, b)
}

/// Additive inverse of a constant.
pub open spec fn negate<T: OrderedRing>(a: T) -> T {
    T::minus_spec(a)
}

/// The children that a node of operator `f` contributes when it is
/// flattened: the spliced children of nested `f` nodes, at any depth.
pub open spec fn flat<T: OrderedRing>(f: Function, s: Seq<Term<T>>) -> Seq<Term<T>>
    decreases s,
{
    if s.len() == 0 {
        s
    } else {
        let last = s[s.len() - 1];
        let piece = match last {
            Term::App(g, cs) => if g == f {
                flat(f, cs)
            } else {
                seq![last]
            },
            Term::Cons(_) => seq![last],
        };
        flat(f, s.drop_last()) + piece
    }
}

/// Whether some element is a constant.
pub open spec fn has_constant<T: OrderedRing>(s: Seq<Term<T>>) -> bool {
    exists|k: int| 0 <= k < s.len() && s[k] is Cons
}

/// The elements that are not constants, in order.
pub open spec fn non_constants<T: OrderedRing>(s: Seq<Term<T>>) -> Seq<Term<T>>
    decreases s.len(),
{
    if s.len() == 0 {
        s
    } else if s.last() is Cons {
        non_constants(s.drop_last())
    } else {
        non_constants(s.drop_last()).push(s.last())
    }
}

/// The constants folded together: by addition from zero for `Sum`, by
/// multiplication from one otherwise.
pub open spec fn fold_total<T: OrderedRing>(f: Function, s: Seq<Term<T>>) -> T
    decreases s.len(),
{
    if s.len() == 0 {
        if f == Function::Sum {
            T::zero_spec()
        } else {
            T::neutral_spec()
        }
    } else {
        let t = fold_total(f, s.drop_last());
        match s.last() {
            Term::Cons(c) => if f == Function::Sum {
                plus(t, c)
            } else {
                times(t, c)
            },
            _ => t,
        }
    }
}

/// The folded constant, if any, followed by the other children in
/// canonical order.
pub open spec fn folded_children<T: OrderedRing>(f: Function, s: Seq<Term<T>>) -> Seq<Term<T>> {
    let rest = sort_terms(non_constants(s));
    if has_constant(s) {
        seq![Term::Cons(fold_total(f, s))] + rest
    } else {
        rest
    }
}

/// A node over `items`, or the item itself when there is only one.
pub open spec fn collapse<T: OrderedRing>(f: Function, items: Seq<Term<T>>) -> Term<T> {
    if items.len() == 1 {
        items[0]
    } else {
        Term::App(f, items)
    }
}

/// Sum of already simplified children: flatten, fold, sort.
pub open spec fn combine_sum<T: OrderedRing>(s: Seq<Term<T>>) -> Term<T> {
    collapse(Function::Sum, folded_children(Function::Sum, flat(Function::Sum, s)))
}

/// Difference of two already simplified operands.
pub open spec fn combine_sub<T: OrderedRing>(x: Term<T>, y: Term<T>) -> Term<T> {
    match (x, y) {
        (Term::Cons(a), Term::Cons(b)) => Term::Cons(plus(a, negate(b))),
        (_, Term::Cons(b)) => Term::App(Function::Sum, seq![x, Term::Cons(negate(b))]),
        _ => if x == y {
            Term::Cons(T::zero_spec())
        } else {
            Term::App(Function::Sub, seq![x, y])
        },
    }
}

/// Cosine of an already simplified operand.
pub open spec fn combine_cos<T: OrderedRing>(x: Term<T>) -> Term<T> {
    if x == Term::Cons(T::zero_spec()) {
        Term::Cons(T::neutral_spec())
    } else {
        Term::App(Function::Cos, seq![x])
    }
}

/// Whether `t` is a cosine of exactly one operand.
pub open spec fn is_cosine<T: OrderedRing>(t: Term<T>) -> bool {
    match t {
        Term::App(f, a) => f == Function::Cos && a.len() == 1,
        _ => false,
    }
}

/// The first operand of a node.
pub open spec fn operand<T: OrderedRing>(t: Term<T>) -> Term<T> {
    match t {
        Term::App(_, a) => a[0],
        _ => t,
    }
}

/// cos(a)·cos(b) = (cos(a+b) + cos(a−b)) / 2, with the sum simplified.
pub open spec fn cos_product<T: OrderedRing>(a: Term<T>, b: Term<T>) -> Term<T> {
    Term::App(
        Function::Div,
        seq![
            combine_sum(seq![combine_cos(combine_sum(seq![a, b])), combine_cos(combine_sub(a, b))]),
            Term::Cons(plus(T::neutral_spec(), T::neutral_spec())),
        ],
    )
}

/// Rewrites each adjacent pair of cosines, scanning from the front.
pub open spec fn cos_pairs<T: OrderedRing>(s: Seq<Term<T>>) -> Seq<Term<T>>
    decreases s.len(),
{
    if s.len() < 2 {
        s
    } else if is_cosine(s[0]) && is_cosine(s[1]) {
        seq![cos_product(operand(s[0]), operand(s[1]))] + cos_pairs(s.skip(2))
    } else {
        seq![s[0]] + cos_pairs(s.skip(1))
    }
}

/// Product of already simplified children: flatten, fold, absorb a zero,
/// sort, rewrite products of cosines.
pub open spec fn combine_product<T: OrderedRing>(s: Seq<Term<T>>) -> Term<T> {
    let fl = flat(Function::Product, s);
    if fold_total(Function::Product, fl) == T::zero_spec() {
        Term::Cons(T::zero_spec())
    } else {
        let items = folded_children(Function::Product, fl);
        if items.len() == 1 {
            items[0]
        } else {
            Term::App(Function::Product, cos_pairs(items))
        }
    }
}

/// The simplified form of a term, in one bottom-up pass: the arguments of
/// every operator are simplified, then the operator's own rule applies. The
/// result is not simplified again, so a rewrite may leave further
/// simplification to a later call.
pub open spec fn simp<T: OrderedRing>(t: Term<T>) -> Term<T>
    decreases t,
{
    match t {
        Term::Cons(_) => t,
        Term::App(f, args) => {
            let sa = simp_all(args);
            match f {
                Function::Sum => if args.len() == 1 {
                    sa[0]
                } else {
                    combine_sum(sa)
                },
                Function::Product => if args.len() == 1 {
                    sa[0]
                } else {
                    combine_product(sa)
                },
                Function::Sub => if args.len() == 2 {
                    combine_sub(sa[0], sa[1])
                } else {
                    Term::App(f, sa)
                },
                Function::Cos => if args.len() == 1 {
                    combine_cos(sa[0])
                } else {
                    Term::App(f, sa)
                },
                _ => Term::App(f, sa),
            }
        },
    }
}

/// Each term simplified.
pub open spec fn simp_all<T: OrderedRing>(s: Seq<Term<T>>) -> Seq<Term<T>>
    decreases s,
{
    Seq::new(s.len(), |i: int| if 0 <= i < s.len() { simp(s[i]) } else { Term::Cons(T::zero_spec()) })
}

/// Appends to `out` the children that `items` contribute under `f`,
/// splicing nested `f` nodes.
pub fn flatten_into<T: OrderedRing>(f: Function, items: &Vec<Expression<T>>, out: &mut Vec<Expression<T>>)
    ensures
        views(final(out)@) == views(old(out)@) + flat(f, views(items@)),
    decreases items,
{
    let ghost start = views(out@);
    let mut i: usize = 0;
    while i < items.len()
        invariant
            i <= items.len(),
            views(out@) == start + flat(f, views(items@.take(i as int))),
        decreases items.len() - i,
    {
        let ghost before = views(out@);
        let ghost vt = views(items@.take(i + 1));
        proof {
            assert(vt.drop_last() =~= views(items@.take(i as int)));
            assert(vt[vt.len() - 1] == items@[i as int]@);
        }
        match &items[i] {
            Expression::Exp { f: g, arguments: cs } => {
                if *g == f {
                    flatten_into(f, cs, out);
                } else {
                    let c = items[i].copy();
                    proof {
                        lemma_views_push(out@, c);
                    }
                    out.push(c);
                }
            },
            Expression::Cons(x) => {
                proof {
                    lemma_views_push(out@, Expression::Cons(*x));
                }
                out.push(Expression::Cons(*x));
            },
        }
        proof {
            assert(views(out@) =~= start + flat(f, vt));
        }
        i += 1;
    }
    assert(items@.take(i as int) =~= items@);
}

/// Splits off the constants: whether there is one, their fold under `f`
/// and the other elements in order.
pub fn fold_constants<T: OrderedRing>(f: Function, items: &Vec<Expression<T>>) -> (r: (bool, T, Vec<Expression<T>>))
    ensures
        r.0 == has_constant(views(items@)),
        r.1 == fold_total(f, views(items@)),
        views(r.2@) == non_constants(views(items@)),
{
    let mut found = false;
    let mut total: T = if f == Function::Sum {
        T::zero()
    } else {
        T::neutral()
    };
    let mut rest: Vec<Expression<T>> = Vec::new();
    let mut i: usize = 0;
    while i < items.len()
        invariant
            i <= items.len(),
            found == has_constant(views(items@.take(i as int))),
            total == fold_total(f, views(items@.take(i as int))),
            views(rest@) == non_constants(views(items@.take(i as int))),
        decreases items.len() - i,
    {
        let ghost vp = views(items@.take(i as int));
        let ghost vt = views(items@.take(i + 1));
        proof {
            assert(vt.drop_last() =~= vp);
            assert(vt.last() == items@[i as int]@);
            assert forall|k: int| 0 <= k < vp.len() implies vt[k] == vp[k] by {}
        }
        match &items[i] {
            Expression::Cons(c) => {
                found = true;
                total = if f == Function::Sum {
                    total.plus(c)
                } else {
                    total.times(c)
                };
                assert(vt[i as int] is Cons);
            },
            Expression::Exp { .. } => {
                let e = items[i].copy();
                proof {
                    lemma_views_push(rest@, e);
                    if has_constant(vt) {
                        let k = choose|k: int| 0 <= k < vt.len() && vt[k] is Cons;
                        assert(k < i);
                    }
                }
                rest.push(e);
            },
        }
        i += 1;
    }
    assert(items@.take(i as int) =~= items@);
    (found, total, rest)
}

/// The folded constant, if `found`, followed by `rest` sorted.
pub fn assemble<T: OrderedRing>(found: bool, total: T, rest: &Vec<Expression<T>>) -> (r: Vec<Expression<T>>)
    ensures
        views(r@) == (if found {
            seq![Term::Cons(total)] + sort_terms(views(rest@))
        } else {
            sort_terms(views(rest@))
        }),
{
    let sorted = sort_exprs(rest);
    if found {
        let mut r: Vec<Expression<T>> = Vec::new();
        r.push(Expression::Cons(total));
        let mut i: usize = 0;
        while i < sorted.len()
            invariant
                i <= sorted.len(),
                views(r@) == seq![Term::Cons(total)] + views(sorted@.take(i as int)),
            decreases sorted.len() - i,
        {
            let e = sorted[i].copy();
            proof {
                lemma_views_push(r@, e);
                assert(views(sorted@.take(i + 1)) =~= views(sorted@.take(i as int)).push(e@));
            }
            r.push(e);
            i += 1;
        }
        assert(sorted@.take(i as int) =~= sorted@);
        r
    } else {
        sorted
    }
}

/// A node over `items`, or the item itself when there is only one.
pub fn collapse_node<T: OrderedRing>(f: Function, items: Vec<Expression<T>>) -> (r: Expression<T>)
    ensures
        r@ == collapse(f, views(items@)),
{
    if items.len() == 1 {
        items[0].copy()
    } else {
        Expression::Exp { f, arguments: items }
    }
}

/// Sum of already simplified children.
pub fn sum_of<T: OrderedRing>(items: &Vec<Expression<T>>) -> (r: Expression<T>)
    ensures
        r@ == combine_sum(views(items@)),
{
    let mut fl: Vec<Expression<T>> = Vec::new();
    flatten_into(Function::Sum, items, &mut fl);
    assert(views(fl@) =~= flat(Function::Sum, views(items@)));
    let (found, total, rest) = fold_constants(Function::Sum, &fl);
    let folded = assemble(found, total, &rest);
    collapse_node(Function::Sum, folded)
}

/// Difference of two already simplified operands.
pub fn difference_of<T: OrderedRing>(x: Expression<T>, y: Expression<T>) -> (r: Expression<T>)
    ensures
        r@ == combine_sub(x@, y@),
{
    match (&x, &y) {
        (Expression::Cons(a), Expression::Cons(b)) => Expression::Cons(a.plus(&b.minus())),
        (_, Expression::Cons(b)) => {
            let nb = b.minus();
            let mut v: Vec<Expression<T>> = Vec::new();
            v.push(x);
            v.push(Expression::Cons(nb));
            assert(views(v@) =~= seq![x@, Term::Cons(nb)]);
            Expression::Exp { f: Function::Sum, arguments: v }
        },
        _ => {
            if x.equals(&y) {
                Expression::Cons(T::zero())
            } else {
                let mut v: Vec<Expression<T>> = Vec::new();
                v.push(x);
                v.push(y);
                assert(views(v@) =~= seq![x@, y@]);
                Expression::Exp { f: Function::Sub, arguments: v }
            }
        },
    }
}

/// Cosine of an already simplified operand.
pub fn cosine_of<T: OrderedRing>(x: Expression<T>) -> (r: Expression<T>)
    ensures
        r@ == combine_cos(x@),
{
    if let Expression::Cons(c) = &x {
        let z = T::zero();
        proof {
            T::lemma_order_laws(*c, z, *c);
            T::lemma_order_laws(*c, *c, *c);
        }
        if c.compare(&z) == 0 {
            return Expression::Cons(T::neutral());
        }
    }
    let mut v: Vec<Expression<T>> = Vec::new();
    v.push(x);
    assert(views(v@) =~= seq![x@]);
    Expression::Exp { f: Function::Cos, arguments: v }
}

/// The operand of a cosine of exactly one operand.
pub fn cosine_operand<T: OrderedRing>(e: &Expression<T>) -> (r: Option<Expression<T>>)
    ensures
        r.is_some() == is_cosine(e@),
        r matches Some(a) ==> a@ == operand(e@),
{
    match e {
        Expression::Exp { f: Function::Cos, arguments } => {
            if arguments.len() == 1 {
                Some(arguments[0].copy())
            } else {
                None
            }
        },
        _ => None,
    }
}

/// The rewrite of cos(a)·cos(b) as (cos(a+b) + cos(a−b)) / 2.
pub fn cos_product_of<T: OrderedRing>(a: &Expression<T>, b: &Expression<T>) -> (r: Expression<T>)
    ensures
        r@ == cos_product(a@, b@),
{
    let mut ab: Vec<Expression<T>> = Vec::new();
    ab.push(a.copy());
    ab.push(b.copy());
    assert(views(ab@) =~= seq![a@, b@]);
    let cos_s = cosine_of(sum_of(&ab));
    let cos_d = cosine_of(difference_of(a.copy(), b.copy()));
    let ghost num_v = seq![cos_s@, cos_d@];
    let mut num: Vec<Expression<T>> = Vec::new();
    num.push(cos_s);
    num.push(cos_d);
    assert(views(num@) =~= num_v);
    let top = sum_of(&num);
    let one = T::neutral();
    let two = one.plus(&one);
    let mut quot: Vec<Expression<T>> = Vec::new();
    quot.push(top);
    quot.push(Expression::Cons(two));
    assert(views(quot@) =~= seq![combine_sum(num_v), Term::Cons(two)]);
    Expression::Exp { f: Function::Div, arguments: quot }
}

/// Rewrites each adjacent pair of cosines, scanning from the front.
pub fn pair_cosines<T: OrderedRing>(items: &Vec<Expression<T>>) -> (r: Vec<Expression<T>>)
    ensures
        views(r@) == cos_pairs(views(items@)),
{
    let ghost s = views(items@);
    let mut out: Vec<Expression<T>> = Vec::new();
    let mut i: usize = 0;
    assert(s.skip(0) =~= s);
    while i < items.len()
        invariant
            i <= items.len(),
            s == views(items@),
            views(out@) + cos_pairs(s.skip(i as int)) == cos_pairs(s),
        decreases items.len() - i,
    {
        let ghost t = s.skip(i as int);
        assert(t[0] == items@[i as int]@);
        let mut paired = false;
        if i + 1 < items.len() {
            assert(t[1] == items@[i + 1]@);
            let a = cosine_operand(&items[i]);
            let b = cosine_operand(&items[i + 1]);
            if let (Some(x), Some(y)) = (a, b) {
                let e = cos_product_of(&x, &y);
                proof {
                    assert(t.skip(2) =~= s.skip(i + 2));
                    lemma_views_push(out@, e);
                    assert(views(out@.push(e)) + cos_pairs(s.skip(i + 2)) =~= views(out@) + cos_pairs(t));
                }
                out.push(e);
                i += 2;
                paired = true;
            }
        }
        if !paired {
            let e = items[i].copy();
            proof {
                assert(t.skip(1) =~= s.skip(i + 1));
                lemma_views_push(out@, e);
                assert(views(out@.push(e)) + cos_pairs(s.skip(i + 1)) =~= views(out@) + cos_pairs(t));
            }
            out.push(e);
            i += 1;
        }
    }
    assert(s.skip(i as int) =~= Seq::<Term<T>>::empty());
    assert(views(out@) =~= views(out@) + cos_pairs(s.skip(i as int)));
    out
}

/// Product of already simplified children.
pub fn product_of<T: OrderedRing>(items: &Vec<Expression<T>>) -> (r: Expression<T>)
    ensures
        r@ == combine_product(views(items@)),
{
    let mut fl: Vec<Expression<T>> = Vec::new();
    flatten_into(Function::Product, items, &mut fl);
    assert(views(fl@) =~= flat(Function::Product, views(items@)));
    let (found, total, rest) = fold_constants(Function::Product, &fl);
    let z = T::zero();
    proof {
        T::lemma_order_laws(total, z, total);
        T::lemma_order_laws(total, total, total);
    }
    if total.compare(&z) == 0 {
        return Expression::Cons(T::zero());
    }
    let folded = assemble(found, total, &rest);
    if folded.len() == 1 {
        return folded[0].copy();
    }
    let paired = pair_cosines(&folded);
    Expression::Exp { f: Function::Product, arguments: paired }
}

impl<T: OrderedRing> Expression<T> {
    /// The simplified form of this expression.
    pub fn simplify(&self) -> (r: Expression<T>)
        ensures
            r@ == simp(self@),
        decreases self, 3int,
    {
        match self {
            Expression::Cons(x) => Expression::Cons(*x),
            Expression::Exp { f, arguments } => Expression::simplify_call(*f, arguments),
        }
    }

    /// The simplified form of `f` applied to `arguments`.
    pub fn simplify_call(f: Function, arguments: &Vec<Expression<T>>) -> (r: Expression<T>)
        ensures
            r@ == simp(Term::App(f, views(arguments@))),
        decreases arguments, 2int,
    {
        match f {
            Function::Sum => Expression::simplify_add(arguments),
            Function::Sub => Expression::simplify_sub(arguments),
            Function::Product => Expression::simplify_mul(arguments),
            Function::Cos => Expression::simplify_cos(arguments),
            _ => Expression::Exp { f, arguments: simplify_all(arguments) },
        }
    }

    /// The simplified form of the sum of `arguments`.
    pub fn simplify_add(arguments: &Vec<Expression<T>>) -> (r: Expression<T>)
        ensures
            r@ == simp(Term::App(Function::Sum, views(arguments@))),
        decreases arguments, 1int,
    {
        let sa = simplify_all(arguments);
        if arguments.len() == 1 {
            sa[0].copy()
        } else {
            sum_of(&sa)
        }
    }

    /// The simplified form of the product of `arguments`.
    pub fn simplify_mul(arguments: &Vec<Expression<T>>) -> (r: Expression<T>)
        ensures
            r@ == simp(Term::App(Function::Product, views(arguments@))),
        decreases arguments, 1int,
    {
        let sa = simplify_all(arguments);
        if arguments.len() == 1 {
            sa[0].copy()
        } else {
            product_of(&sa)
        }
    }

    /// The simplified form of the difference of `arguments`.
    pub fn simplify_sub(arguments: &Vec<Expression<T>>) -> (r: Expression<T>)
        ensures
            r@ == simp(Term::App(Function::Sub, views(arguments@))),
        decreases arguments, 1int,
    {
        let sa = simplify_all(arguments);
        if arguments.len() == 2 {
            difference_of(sa[0].copy(), sa[1].copy())
        } else {
            Expression::Exp { f: Function::Sub, arguments: sa }
        }
    }

    /// The simplified form of the cosine of `arguments`.
    pub fn simplify_cos(arguments: &Vec<Expression<T>>) -> (r: Expression<T>)
        ensures
            r@ == simp(Term::App(Function::Cos, views(arguments@))),
        decreases arguments, 1int,
    {
        let sa = simplify_all(arguments);
        if arguments.len() == 1 {
            cosine_of(sa[0].copy())
        } else {
            Expression::Exp { f: Function::Cos, arguments: sa }
        }
    }
}

/// Each expression simplified.
pub fn simplify_all<T: OrderedRing>(v: &Vec<Expression<T>>) -> (r: Vec<Expression<T>>)
    ensures
        views(r@) == simp_all(views(v@)),
    decreases v, 0int,
{
    let mut r: Vec<Expression<T>> = Vec::new();
    let mut i: usize = 0;
    while i < v.len()
        invariant
            i <= v.len(),
            views(r@) == simp_all(views(v@.take(i as int))),
        decreases v.len() - i,
    {
        let c = v[i].simplify();
        proof {
            lemma_views_push(r@, c);
            assert(simp_all(views(v@.take(i + 1))) =~= simp_all(views(v@.take(i as int))).push(c@));
        }
        r.push(c);
        i += 1;
    }
    assert(v@.take(i as int) =~= v@);
    r
}

} // verus!
