use eqn::forms::{Chart, DifferentialForm, ExteriorFormatter, GradedCommutativeFormatter, IntegerSpace};
use eqn::integer::Z;
use eqn::symbol::Symbol;

type Plane = IntegerSpace<2>;
type Form = DifferentialForm<Plane>;

fn chart(a: &str, b: &str) -> Chart<Plane> {
    Chart::new(vec![Symbol::new(a), Symbol::new(b)])
}

fn xy() -> Chart<Plane> {
    chart("x", "y")
}

fn c(v: i64) -> Form {
    Form::Const(Z::from_i64(v))
}

fn wedge(xs: Vec<Form>) -> Form {
    Form::Wedged(xs)
}

fn d(x: Form) -> Form {
    Form::Differential(Box::new(x))
}

fn function(name: &str) -> Form {
    Form::Function(Symbol::new(name))
}

#[test]
fn lib_two_charts_on_the_plane() {
    let cartesian = xy();
    let polar = chart("r", "θ");

    assert_eq!(cartesian.differential(0).unwrap(), d(function("x")));
    assert_ne!(cartesian.differential(0), polar.differential(0));
}

#[test]
fn differential_two_charts_on_the_plane() {
    let cartesian = xy();
    let polar = chart("r", "θ");

    assert_eq!(cartesian.differential(0).unwrap(), d(function("x")));
    assert_ne!(
        cartesian.differential(0).unwrap(),
        polar.differential(0).unwrap()
    );
}

#[test]
fn a_chart_has_one_coordinate_per_dimension() {
    let cartesian = xy();
    assert_eq!(cartesian.coordinates().len(), 2);
    assert_eq!(cartesian.coordinate(1).unwrap(), function("y"));
    assert!(cartesian.coordinate(2).is_none());
    assert!(cartesian.differential(2).is_none());
}

#[test]
fn substitute_replaces_coordinate_inside_differential() {
    let polar = chart("r", "θ");
    // ω = r ∧ dθ, two free functions
    let mut omega = wedge(vec![
        polar.coordinate(0).unwrap(),
        polar.differential(1).unwrap(),
    ]);
    assert_eq!(omega.degrees_of_freedom(), 2);

    // θ := 3  ⇒  r ∧ d3
    omega.substitute(Symbol::new("θ"), &c(3));
    assert_eq!(omega, wedge(vec![polar.coordinate(0).unwrap(), d(c(3))]));
    assert_eq!(omega.degrees_of_freedom(), 1);
}

#[test]
fn repeated_functions_count_once() {
    let f = Form::Add(vec![function("x"), d(function("x")), function("y")]);
    assert_eq!(f.degrees_of_freedom(), 2);
    assert_eq!(c(4).degrees_of_freedom(), 0);
}

#[test]
fn lib_d_squared_and_d_const_vanish() {
    let f = ExteriorFormatter::<Plane>::new();
    assert_eq!(f.format_expr(d(xy().differential(0).unwrap())), c(0));
    assert_eq!(f.format_expr(d(c(7))), c(0));
}

#[test]
fn leibniz_picks_up_sign() {
    let chart = xy();
    let (x, y, dx, dy) = (
        chart.coordinate(0).unwrap(),
        chart.coordinate(1).unwrap(),
        chart.differential(0).unwrap(),
        chart.differential(1).unwrap(),
    );
    let f = ExteriorFormatter::<Plane>::new();
    // d(x ∧ dy) = dx ∧ dy
    assert_eq!(
        f.format_expr(d(wedge(vec![x, dy.clone()]))),
        wedge(vec![dx.clone(), dy.clone()])
    );
    // d(dx ∧ y) = -(dx ∧ dy), no reordering in the plain formatter
    assert_eq!(
        f.format_expr(d(wedge(vec![dx.clone(), y]))),
        wedge(vec![c(-1), dx, dy])
    );
}

#[test]
fn lib_exterior_keeps_order_and_distributes() {
    let chart = xy();
    let (x, dx, dy) = (
        chart.coordinate(0).unwrap(),
        chart.differential(0).unwrap(),
        chart.differential(1).unwrap(),
    );
    let f = ExteriorFormatter::<Plane>::new();
    assert_eq!(
        f.format_expr(wedge(vec![dy.clone(), dx.clone()])),
        wedge(vec![dy.clone(), dx.clone()])
    );
    // 2 ∧ (x + dy) ∧ dx = 2 x ∧ dx + 2 dy ∧ dx
    let e = wedge(vec![c(2), Form::Add(vec![x.clone(), dy.clone()]), dx.clone()]);
    assert_eq!(
        f.format_expr(e),
        Form::Add(vec![
            wedge(vec![c(2), x, dx.clone()]),
            wedge(vec![c(2), dy, dx]),
        ])
    );
}

#[test]
fn lib_forms_above_dim_vanish() {
    let chart = xy();
    let dz = d(function("z"));
    let top = wedge(vec![
        chart.differential(0).unwrap(),
        chart.differential(1).unwrap(),
        dz,
    ]);
    assert_eq!(ExteriorFormatter::<Plane>::new().format_expr(top), c(0));
}

#[test]
fn negation_and_constants_fold() {
    let f = ExteriorFormatter::<Plane>::new();
    // -(3 ∧ x) = -3 x
    assert_eq!(
        f.format_expr(Form::Neg(Box::new(wedge(vec![c(3), function("x")])))),
        wedge(vec![c(-3), function("x")])
    );
    // 1 ∧ x = x, and a zero term drops out of a sum
    assert_eq!(
        f.format_expr(Form::Add(vec![wedge(vec![c(1), function("x")]), c(0)])),
        function("x")
    );
}

#[test]
fn lib_graded_commutative_sorts_with_sign() {
    let chart = xy();
    let (dx, dy) = (chart.differential(0).unwrap(), chart.differential(1).unwrap());
    let f = GradedCommutativeFormatter::<Plane>::new();
    // dy ∧ dx = -(dx ∧ dy)
    assert_eq!(
        f.format_expr(wedge(vec![dy.clone(), dx.clone()])),
        wedge(vec![c(-1), dx.clone(), dy.clone()])
    );
    // dx ∧ dx = 0
    assert_eq!(f.format_expr(wedge(vec![dx.clone(), dx.clone()])), c(0));
    // dx ∧ dy + dy ∧ dx = 0 ; dx ∧ dy + dx ∧ dy = 2 dx ∧ dy
    let a = wedge(vec![dx.clone(), dy.clone()]);
    let b = wedge(vec![dy.clone(), dx.clone()]);
    assert_eq!(f.format_expr(Form::Add(vec![a.clone(), b])), c(0));
    assert_eq!(
        f.format_expr(Form::Add(vec![a.clone(), a])),
        wedge(vec![c(2), dx, dy])
    );
}

#[test]
fn graded_commutative_moves_functions_first_and_sorts_terms() {
    let chart = xy();
    let (x, y, dx) = (
        chart.coordinate(0).unwrap(),
        chart.coordinate(1).unwrap(),
        chart.differential(0).unwrap(),
    );
    let f = GradedCommutativeFormatter::<Plane>::new();
    // dx ∧ y ∧ x = x ∧ y ∧ dx: functions commute with everything
    assert_eq!(
        f.format_expr(wedge(vec![dx.clone(), y.clone(), x.clone()])),
        wedge(vec![x.clone(), y.clone(), dx.clone()])
    );
    // dx + y + x sorts to x + y + dx, constants first
    assert_eq!(
        f.format_expr(Form::Add(vec![dx.clone(), y.clone(), c(3), x.clone()])),
        Form::Add(vec![c(3), x, y, dx])
    );
}

#[test]
fn graded_d_squared_and_d_const_vanish() {
    let f = GradedCommutativeFormatter::<Plane>::new();
    assert_eq!(f.format_expr(d(d(function("g")))), c(0));
    assert_eq!(f.format_expr(d(c(7))), c(0));
}
