//! Expressions over integers with a complexity measure.
use vstd::prelude::*;

verus! {

broadcast use vstd::std_specs::vec::axiom_vec_index_decreases;

/// How many arguments an operator takes.
#[derive(PartialEq, Eq, Structural, Debug, Clone, Copy)]
pub enum Cardinality {
    _1,
    _2,
    _N,
}

/// What an operator tells about itself.
pub trait FunctionDef {
    spec fn weight(&self) -> nat;

    fn name(&self) -> String;

    fn cardinality(&self) -> Cardinality;

    fn inner_complexity(&self) -> (r: u16)
        ensures
            r as nat == self.weight(),
    ;
}

#[derive(PartialEq, Eq, Structural, Debug, Clone, Copy)]
pub enum Functions {
    Add,
    Mult,
    Cos,
}

impl FunctionDef for Functions {
    open spec fn weight(&self) -> nat {
        match self {
            Functions::Add => 1,
            Functions::Mult => 5,
            Functions::Cos => 30,
        }
    }

    /// The operator's symbol.
    fn name(&self) -> (r: String)
        ensures
            r@ == (match self {
                Functions::Add => "+"@,
                Functions::Mult => "*"@,
                Functions::Cos => "cos"@,
            }),
    {
        match self {
            Functions::Add => String::from_str("+"),
            Functions::Mult => String::from_str("*"),
            Functions::Cos => String::from_str("cos"),
        }
    }

    fn cardinality(&self) -> (r: Cardinality)
        ensures
            r == (match self {
                Functions::Add => Cardinality::_N,
                Functions::Mult => Cardinality::_N,
                Functions::Cos => Cardinality::_1,
            }),
    {
        match self {
            Functions::Add => Cardinality::_N,
            Functions::Mult => Cardinality::_N,
            Functions::Cos => Cardinality::_1,
        }
    }

    fn inner_complexity(&self) -> (r: u16) {
        match self {
            Functions::Add => 1,
            Functions::Mult => 5,
            Functions::Cos => 30,
        }
    }
}

pub enum Expression {
    Constant(i64),
    Expr(Functions, Vec<Expression>),
}

/// Complexity of an expression: zero for a constant; for an application,
/// the operator's weight, plus one per argument, plus the arguments'
/// complexities.
pub open spec fn complexity(e: Expression) -> nat
    decreases e,
{
    match e {
        Expression::Constant(_) => 0,
        Expression::Expr(f, args) => (f.weight() + args.len() + complexity_sum(args@)) as nat,
    }
}

/// Sum of the complexities of a sequence of expressions.
pub open spec fn complexity_sum(s: Seq<Expression>) -> nat
    decreases s,
{
    if s.len() == 0 {
        0
    } else {
        complexity_sum(s.drop_last()) + complexity(s.last())
    }
}

pub trait Complexity {
    spec fn measure(&self) -> nat;

    fn calc(&self) -> (r: u16)
        requires
            self.measure() <= u16::MAX,
        ensures
            r as nat == self.measure(),
    ;
}

proof fn lemma_complexity_sum_prefix(s: Seq<Expression>, i: int)
    requires
        0 <= i <= s.len(),
    ensures
        complexity_sum(s.take(i)) <= complexity_sum(s),
    decreases s.len(),
{
    if i < s.len() {
        assert(s.drop_last().take(i) =~= s.take(i));
        lemma_complexity_sum_prefix(s.drop_last(), i);
    } else {
        assert(s.take(i) =~= s);
    }
}

impl Expression {
    /// The complexity of this expression.
    pub fn complexity_of(&self) -> (r: u16)
        requires
            complexity(*self) <= u16::MAX,
        ensures
            r as nat == complexity(*self),
        decreases self,
    {
        match self {
            Expression::Constant(_) => 0,
            Expression::Expr(f, args) => {
                let total = complexity_all(args, Ghost((f.weight() + args.len()) as nat));
                f.inner_complexity() + total + args.len() as u16
            },
        }
    }
}

/// Sum of the complexities of `args`, where `extra` more still fits in a
/// `u16`.
fn complexity_all(args: &Vec<Expression>, extra: Ghost<nat>) -> (r: u16)
    requires
        extra + complexity_sum(args@) <= u16::MAX,
    ensures
        r as nat == complexity_sum(args@),
    decreases args,
{
    let mut total: u16 = 0;
    let mut i: usize = 0;
    while i < args.len()
        invariant
            i <= args.len(),
            extra + complexity_sum(args@) <= u16::MAX,
            total as nat == complexity_sum(args@.take(i as int)),
        decreases args.len() - i,
    {
        proof {
            assert(args@.take(i + 1).drop_last() =~= args@.take(i as int));
            lemma_complexity_sum_prefix(args@, i + 1);
        }
        total = total + args[i].complexity_of();
        i += 1;
    }
    assert(args@.take(i as int) =~= args@);
    total
}

impl Complexity for Expression {
    open spec fn measure(&self) -> nat {
        complexity(*self)
    }

    fn calc(&self) -> (r: u16) {
        self.complexity_of()
    }
}

/// Simplification of a value into an equivalent one.
pub trait Simplify: Sized {
    fn simply(e: Self) -> Self;
}

} // verus!
