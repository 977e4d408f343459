use vision3d::points::{Edge, EdgeAdder, Figure, Point, PointAdder};
use vision3d::expression::{Complexity, Expression, FunctionDef, Functions};

#[test]
fn test1() {
    println!("tests");
    let mut f: Figure<3> = Figure { points: vec![], edges: vec![] };
    f.add_point([3, 4, 5]);
    f.add_point([5, 7, 11]);
    let fig = f.add_edge(0, 1);
    let e: &Edge = &fig.edges[0];
    let p: (&Point<3>, &Point<3>) = fig.edge_points(e);
    let p1: &Point<3> = p.0;
    let p2 = p.1;
    assert_eq!(3, p1.coords[0]);
    assert_eq!(11, p2.coords[2]);
}

#[test]
fn complexity_of_expression() {
    let e = Expression::Expr(
        Functions::Add,
        vec![Expression::Constant(1), Expression::Expr(Functions::Cos, vec![Expression::Constant(2)])],
    );
    assert_eq!(34, e.calc());
    assert_eq!(0, Expression::Constant(9).calc());
    assert_eq!("+", Functions::Add.name());
    assert_eq!("cos", Functions::Cos.name());
    assert_eq!(5, Functions::Mult.inner_complexity());
}
