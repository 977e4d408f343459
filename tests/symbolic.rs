use vision3d::symbolic::{EvalError, Expression, Function};

fn cons(x: i64) -> Expression<i64> {
    Expression::Cons(x)
}

fn node(f: Function, arguments: Vec<Expression<i64>>) -> Expression<i64> {
    Expression::Exp { f, arguments }
}

#[test]
fn simplify() {
    let x1: Expression<i64> = Expression::Cons(1);
    let x2: Expression<i64> = Expression::Exp { f: Function::Cos, arguments: vec![x1.clone()] };
    let x3: Expression<i64> = Expression::Cons(2);
    let x4: Expression<i64> = Expression::Cons(3);
    let exp: Expression<i64> = Expression::Exp { f: Function::Sum, arguments: vec![x1.clone(), x2.clone(), x3, x4] };
    let result: Expression<i64> = exp.simplify();

    let expected_result: Expression<i64> = Expression::Exp {
        f: Function::Sum,
        arguments: vec![Expression::Cons(6), x2.clone()],
    };
    assert_eq!(expected_result, result);

    let mul_zero: Expression<i64> = Expression::Exp {
        f: Function::Product,
        arguments: vec![x2.clone(), x1.clone(), Expression::Cons(0)],
    };
    assert_eq!(Expression::Cons(0), mul_zero.simplify());

    let minus_same: Expression<i64> = Expression::Exp {
        f: Function::Sub,
        arguments: vec![exp.clone(), expected_result.clone()],
    };
    assert_eq!(Expression::Cons(0), minus_same.simplify());

    match result {
        Expression::Exp { f, arguments } => {
            assert_eq!(f, Function::Sum);
            assert_eq!(arguments.len(), 2);
            let mut nbc: u16 = 0;
            let mut nbf: u16 = 0;
            match arguments.get(0) {
                Option::Some(Expression::Cons(x)) => {
                    assert_eq!(6, *x);
                    nbc = nbc + 1;
                }
                Option::Some(Expression::Exp { f: f1, arguments: arguments1 }) => {
                    assert_eq!(Function::Cos, *f1);
                    assert_eq!(1, arguments1.len());
                    nbf = nbf + 1;
                }
                _ => panic!("not good type"),
            }
            match arguments.get(1) {
                Option::Some(Expression::Cons(x)) => {
                    assert_eq!(6, *x);
                    nbc = nbc + 1;
                }
                Option::Some(Expression::Exp { f: f1, arguments: arguments1 }) => {
                    assert_eq!(Function::Cos, *f1);
                    assert_eq!(1, arguments1.len());
                    nbf = nbf + 1;
                }
                _ => panic!("not good type"),
            }
            assert_eq!(1, nbc);
            assert_eq!(1, nbf);
        }
        _ => panic!("not ok"),
    }
}

#[test]
fn nested_sum_flattens_like_flat_sum() {
    let cos2 = node(Function::Cos, vec![cons(2)]);
    let cos3 = node(Function::Cos, vec![cons(3)]);
    let nested = node(Function::Sum, vec![node(Function::Sum, vec![cos2.clone(), cons(1)]), cos3.clone()]);
    let flat = node(Function::Sum, vec![cos2.clone(), cons(1), cos3.clone()]);
    let expected = node(Function::Sum, vec![cons(1), cos2, cos3]);
    assert_eq!(expected, nested.simplify());
    assert_eq!(expected, flat.simplify());
}

#[test]
fn children_order_does_not_matter() {
    let cos2 = node(Function::Cos, vec![cons(2)]);
    let cos3 = node(Function::Cos, vec![cons(3)]);
    let a = node(Function::Sum, vec![cos3.clone(), cos2.clone(), cons(1)]);
    let b = node(Function::Sum, vec![cons(1), cos2.clone(), cos3.clone()]);
    let c = node(Function::Sum, vec![cos2.clone(), cons(1), cos3.clone()]);
    assert_eq!(a.simplify(), b.simplify());
    assert_eq!(b.simplify(), c.simplify());
}

#[test]
fn simplify_twice_is_simplify_once() {
    let e = node(Function::Sum, vec![cons(1), node(Function::Cos, vec![cons(1)]), cons(2), cons(3)]);
    let once = e.simplify();
    assert_eq!(once, once.simplify());
    let p = node(Function::Product, vec![cons(2), node(Function::Cos, vec![cons(5)]), cons(3)]);
    let once = p.simplify();
    assert_eq!(node(Function::Product, vec![cons(6), node(Function::Cos, vec![cons(5)])]), once);
    assert_eq!(once, once.simplify());
}

#[test]
fn subtracting_itself_gives_zero() {
    let e = node(Function::Product, vec![node(Function::Cos, vec![cons(4)]), node(Function::Sin, vec![cons(2)])]);
    let s = e.simplify();
    assert_eq!(cons(0), node(Function::Sub, vec![s.clone(), s]).simplify());
    assert_eq!(cons(0), node(Function::Sub, vec![cons(7), cons(7)]).simplify());
}

#[test]
fn product_with_zero_collapses() {
    let e = node(Function::Product, vec![node(Function::Cos, vec![cons(1)]), cons(1), cons(0)]);
    assert_eq!(cons(0), e.simplify());
    assert_eq!(cons(0), node(Function::Product, vec![cons(0)]).simplify());
}

#[test]
fn cosine_pair_becomes_quotient() {
    let e = node(Function::Product, vec![node(Function::Cos, vec![cons(2)]), node(Function::Cos, vec![cons(1)])]);
    let quotient = node(
        Function::Div,
        vec![
            node(
                Function::Sum,
                vec![node(Function::Cos, vec![cons(-1)]), node(Function::Cos, vec![cons(3)])],
            ),
            cons(2),
        ],
    );
    assert_eq!(node(Function::Product, vec![quotient]), e.simplify());
}

#[test]
fn cosine_of_equal_angles_pair() {
    let e = node(Function::Product, vec![cons(3), node(Function::Cos, vec![cons(2)]), node(Function::Cos, vec![cons(2)])]);
    let quotient = node(
        Function::Div,
        vec![node(Function::Sum, vec![cons(1), node(Function::Cos, vec![cons(4)])]), cons(2)],
    );
    assert_eq!(node(Function::Product, vec![cons(3), quotient]), e.simplify());
}

#[test]
fn subtracting_a_constant_becomes_a_sum() {
    let cos1 = node(Function::Cos, vec![cons(1)]);
    let e = node(Function::Sub, vec![cos1.clone(), cons(4)]);
    assert_eq!(node(Function::Sum, vec![cos1.clone(), cons(-4)]), e.simplify());
    assert_eq!(cons(6), node(Function::Sub, vec![cons(10), cons(4)]).simplify());
    let other = node(Function::Sin, vec![cons(1)]);
    assert_eq!(
        node(Function::Sub, vec![cos1.clone(), other.clone()]),
        node(Function::Sub, vec![cos1, other]).simplify()
    );
}

#[test]
fn cosine_of_zero_is_one() {
    let e = node(Function::Cos, vec![node(Function::Sub, vec![cons(3), cons(3)])]);
    assert_eq!(cons(1), e.simplify());
    assert_eq!(node(Function::Cos, vec![cons(5)]), node(Function::Cos, vec![cons(5)]).simplify());
}

// Deliberate: the arguments of quotients and sines are simplified too, as
// they are for every other operator.
#[test]
fn quotient_and_sine_arguments_are_simplified() {
    let e = node(
        Function::Div,
        vec![node(Function::Sum, vec![cons(1), cons(2)]), node(Function::Cos, vec![cons(0)])],
    );
    assert_eq!(node(Function::Div, vec![cons(3), cons(1)]), e.simplify());
    let s = node(Function::Sin, vec![node(Function::Product, vec![cons(2), cons(4)])]);
    assert_eq!(node(Function::Sin, vec![cons(8)]), s.simplify());
}

#[test]
fn single_argument_sum_is_its_argument() {
    let e = node(Function::Sum, vec![node(Function::Cos, vec![cons(2)])]);
    assert_eq!(node(Function::Cos, vec![cons(2)]), e.simplify());
    assert_eq!(cons(4), cons(4).simplify());
}

#[test]
fn constants_wrap_around() {
    let e = node(Function::Sum, vec![cons(i64::MAX), cons(1)]);
    assert_eq!(cons(i64::MIN), e.simplify());
}

#[test]
fn canonical_order() {
    let c = cons(5);
    let sum = node(Function::Sum, vec![cons(1), cons(2)]);
    let sub = node(Function::Sub, vec![cons(1), cons(2)]);
    let longer = node(Function::Sum, vec![cons(1), cons(2), cons(0)]);
    let bigger = node(Function::Sum, vec![cons(1), cons(3)]);
    assert_eq!(-1, c.compare(&sum));
    assert_eq!(1, sum.compare(&c));
    assert_eq!(-1, cons(2).compare(&cons(3)));
    assert_eq!(-1, sum.compare(&sub));
    assert_eq!(-1, sum.compare(&longer));
    assert_eq!(-1, sum.compare(&bigger));
    assert_eq!(0, sum.compare(&sum.clone()));
}

#[test]
fn evaluation_errors() {
    assert_eq!(Err(EvalError::DivisionByZeroError), Function::Div.check_arguments(2, true));
    assert_eq!(Err(EvalError::ArityError), Function::Cos.check_arguments(2, false));
    assert_eq!(Err(EvalError::ArityError), Function::Sum.check_arguments(0, false));
    assert_eq!(Err(EvalError::ArityError), Function::Div.check_arguments(3, true));
    assert_eq!(Ok(()), Function::Div.check_arguments(2, false));
    assert_eq!(Ok(()), Function::Product.check_arguments(4, false));
}

#[test]
fn factor_order_does_not_matter() {
    let c = node(Function::Cos, vec![cons(3)]);
    let s = node(Function::Sin, vec![cons(1)]);
    let a = node(Function::Product, vec![c.clone(), cons(2), s.clone(), cons(5)]);
    let b = node(Function::Product, vec![s.clone(), cons(5), c.clone(), cons(2)]);
    assert_eq!(a.simplify(), b.simplify());
    assert_eq!(node(Function::Product, vec![cons(10), c, s]), a.simplify());
}

#[test]
fn subtraction_simplified_twice() {
    let e = node(Function::Sub, vec![node(Function::Cos, vec![cons(1)]), node(Function::Sin, vec![cons(2)])]);
    let once = e.simplify();
    assert_eq!(once, once.simplify());
}
