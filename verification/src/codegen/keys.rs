//! Cache keys tell expressions apart.

use crate::codegen::ast::{
    dtype_name, has_char, hashed_text, pair, serializes, shapes_text, wrapped, Expr, ScalarText,
};
use crate::float::is_nan;
use crate::tensor::Dtype;
use crate::text::{
    bracketed, decimal, digit_char, joined, law_decimal_injective, lemma_decimal_nonempty,
};
use vstd::prelude::*;
use vstd::string::*;

verus! {

/// The host's texts tell numbers apart and hold no bracket.
pub open spec fn tells_numbers_apart<T: ScalarText>(t: T) -> bool {
    &&& forall|b: u32, c: u32, x: String, y: String|
        #[trigger] call_ensures(T::display, (&t, b), x) && #[trigger] call_ensures(
            T::display,
            (&t, c),
            y,
        ) && !is_nan(b) && !is_nan(c) && x@ == y@ ==> b == c
    &&& forall|b: u32, x: String| #[trigger]
        call_ensures(T::display, (&t, b), x) ==> !has_char(x@, ')')
}

/// All scalars of the expression are numbers.
pub open spec fn scalars_are_numbers(e: Expr) -> bool
    decreases e,
{
    match e {
        Expr::Input(_) => true,
        Expr::Scalar(b) => !is_nan(b),
        Expr::Add(a, b) | Expr::Mul(a, b) | Expr::Sub(a, b) | Expr::Div(a, b) => {
            scalars_are_numbers(*a) && scalars_are_numbers(*b)
        },
        Expr::Relu(a)
        | Expr::Tanh(a)
        | Expr::Sigmoid(a)
        | Expr::Neg(a)
        | Expr::Exp(a)
        | Expr::Sqrt(a)
        | Expr::Step(a) => scalars_are_numbers(*a),
    }
}

/// What the text of an expression begins with.
pub open spec fn opening(e: Expr) -> Seq<char> {
    match e {
        Expr::Input(_) => "Input("@,
        Expr::Scalar(_) => "Scalar("@,
        Expr::Add(_, _) => "Add("@,
        Expr::Mul(_, _) => "Mul("@,
        Expr::Sub(_, _) => "Sub("@,
        Expr::Div(_, _) => "Div("@,
        Expr::Relu(_) => "Relu("@,
        Expr::Tanh(_) => "Tanh("@,
        Expr::Sigmoid(_) => "Sigmoid("@,
        Expr::Neg(_) => "Neg("@,
        Expr::Exp(_) => "Exp("@,
        Expr::Sqrt(_) => "Sqrt("@,
        Expr::Step(_) => "Step("@,
    }
}

/// Openings that agree in two characters are the same.
proof fn lemma_openings(a: Expr, b: Expr)
    requires
        opening(a)[0] == opening(b)[0],
        opening(a)[1] == opening(b)[1],
    ensures
        opening(a) == opening(b),
        opening(a).len() >= 4,
        a is Input == b is Input,
        a is Scalar == b is Scalar,
        a is Add == b is Add,
        a is Mul == b is Mul,
        a is Sub == b is Sub,
        a is Div == b is Div,
        a is Relu == b is Relu,
        a is Tanh == b is Tanh,
        a is Sigmoid == b is Sigmoid,
        a is Neg == b is Neg,
        a is Exp == b is Exp,
        a is Sqrt == b is Sqrt,
        a is Step == b is Step,
{
    lemma_opening_chars();
}

proof fn lemma_opening_chars()
    ensures
        "Input("@.len() == 6 && "Input("@[0] == 'I' && "Input("@[1] == 'n',
        "Scalar("@.len() == 7 && "Scalar("@[0] == 'S' && "Scalar("@[1] == 'c',
        "Add("@.len() == 4 && "Add("@[0] == 'A' && "Add("@[1] == 'd',
        "Mul("@.len() == 4 && "Mul("@[0] == 'M' && "Mul("@[1] == 'u',
        "Sub("@.len() == 4 && "Sub("@[0] == 'S' && "Sub("@[1] == 'u',
        "Div("@.len() == 4 && "Div("@[0] == 'D' && "Div("@[1] == 'i',
        "Relu("@.len() == 5 && "Relu("@[0] == 'R' && "Relu("@[1] == 'e',
        "Tanh("@.len() == 5 && "Tanh("@[0] == 'T' && "Tanh("@[1] == 'a',
        "Sigmoid("@.len() == 8 && "Sigmoid("@[0] == 'S' && "Sigmoid("@[1] == 'i',
        "Neg("@.len() == 4 && "Neg("@[0] == 'N' && "Neg("@[1] == 'e',
        "Exp("@.len() == 4 && "Exp("@[0] == 'E' && "Exp("@[1] == 'x',
        "Sqrt("@.len() == 5 && "Sqrt("@[0] == 'S' && "Sqrt("@[1] == 'q',
        "Step("@.len() == 5 && "Step("@[0] == 'S' && "Step("@[1] == 't',
{
    reveal_strlit("Input(");
    reveal_strlit("Scalar(");
    reveal_strlit("Add(");
    reveal_strlit("Mul(");
    reveal_strlit("Sub(");
    reveal_strlit("Div(");
    reveal_strlit("Relu(");
    reveal_strlit("Tanh(");
    reveal_strlit("Sigmoid(");
    reveal_strlit("Neg(");
    reveal_strlit("Exp(");
    reveal_strlit("Sqrt(");
    reveal_strlit("Step(");
}

/// The text of an expression behind its opening: a word without brackets, or
/// the texts of its operands.
proof fn lemma_body<T: ScalarText>(t: T, e: Expr, s: Seq<char>) -> (r: (Seq<char>, Seq<char>))
    requires
        serializes(t, e, s),
    ensures
        match e {
            Expr::Input(i) => s == opening(e) + (decimal(i as nat) + ")"@),
            Expr::Scalar(b) => s == opening(e) + (r.0 + ")"@) && exists|x: String| #[trigger]
                call_ensures(T::display, (&t, b), x) && x@ == r.0,
            Expr::Add(a, b) | Expr::Mul(a, b) | Expr::Sub(a, b) | Expr::Div(a, b) => serializes(
                t,
                *a,
                r.0,
            ) && serializes(t, *b, r.1) && s == opening(e) + (r.0 + (","@ + (r.1 + ")"@))),
            Expr::Relu(a)
            | Expr::Tanh(a)
            | Expr::Sigmoid(a)
            | Expr::Neg(a)
            | Expr::Exp(a)
            | Expr::Sqrt(a)
            | Expr::Step(a) => serializes(t, *a, r.0) && s == opening(e) + (r.0 + ")"@),
        },
{
    match e {
        Expr::Input(i) => {
            assert(s =~= opening(e) + (decimal(i as nat) + ")"@));
            (s, s)
        },
        Expr::Scalar(b) => {
            let x = choose|x: String| #[trigger]
                call_ensures(T::display, (&t, b), x) && s == wrapped("Scalar("@, x@, ")"@);
            assert(s =~= opening(e) + (x@ + ")"@));
            (x@, x@)
        },
        Expr::Add(a, b) | Expr::Mul(a, b) | Expr::Sub(a, b) | Expr::Div(a, b) => {
            let (x, y) = choose|x: Seq<char>, y: Seq<char>|
                serializes(t, *a, x) && serializes(t, *b, y) && s == #[trigger] pair(
                    opening(e),
                    x,
                    y,
                );
            assert(s =~= opening(e) + (x + (","@ + (y + ")"@))));
            (x, y)
        },
        Expr::Relu(a)
        | Expr::Tanh(a)
        | Expr::Sigmoid(a)
        | Expr::Neg(a)
        | Expr::Exp(a)
        | Expr::Sqrt(a)
        | Expr::Step(a) => {
            let x = choose|x: Seq<char>|
                serializes(t, *a, x) && s == #[trigger] wrapped(opening(e), x, ")"@);
            assert(s =~= opening(e) + (x + ")"@));
            (x, x)
        },
    }
}

/// Texts without a character that are followed by it are the same where the
/// whole is.
proof fn lemma_until(c: char, x: Seq<char>, y: Seq<char>, u: Seq<char>, v: Seq<char>)
    requires
        !has_char(x, c),
        !has_char(y, c),
        x + (seq![c] + u) == y + (seq![c] + v),
    ensures
        x == y,
        u == v,
{
    let w = x + (seq![c] + u);
    let z = y + (seq![c] + v);
    assert(w[x.len() as int] == c);
    assert(z[y.len() as int] == c);
    if x.len() < y.len() {
        assert(y[x.len() as int] == z[x.len() as int]);
        assert(has_char(y, c));
    } else if y.len() < x.len() {
        assert(x[y.len() as int] == w[y.len() as int]);
        assert(has_char(x, c));
    }
    assert(x =~= w.take(x.len() as int));
    assert(y =~= z.take(y.len() as int));
    assert(u =~= w.skip(x.len() as int + 1));
    assert(v =~= z.skip(y.len() as int + 1));
}

/// Texts without a character that follow it are the same where the whole is.
proof fn lemma_since(c: char, u: Seq<char>, v: Seq<char>, x: Seq<char>, y: Seq<char>)
    requires
        !has_char(x, c),
        !has_char(y, c),
        u + seq![c] + x == v + seq![c] + y,
    ensures
        u == v,
        x == y,
{
    let w = u + seq![c] + x;
    let z = v + seq![c] + y;
    assert(w == z);
    assert(w.len() == u.len() + 1 + x.len() && z.len() == v.len() + 1 + y.len());
    assert(w[u.len() as int] == c);
    assert(z[v.len() as int] == c);
    if u.len() < v.len() {
        let k = v.len() - u.len() - 1;
        assert(0 <= k < x.len());
        assert(x[k] == w[v.len() as int]);
        assert(has_char(x, c));
    } else if v.len() < u.len() {
        let k = u.len() - v.len() - 1;
        assert(0 <= k < y.len());
        assert(y[k] == z[u.len() as int]);
        assert(has_char(y, c));
    }
    assert(u =~= w.take(u.len() as int));
    assert(v =~= z.take(v.len() as int));
    assert(x =~= w.skip(u.len() as int + 1));
    assert(y =~= z.skip(v.len() as int + 1));
}

/// Texts without a closing bracket that are followed by one are the same where
/// the whole is.
proof fn lemma_until_bracket(x: Seq<char>, y: Seq<char>, u: Seq<char>, v: Seq<char>)
    requires
        !has_char(x, ')'),
        !has_char(y, ')'),
        x + (")"@ + u) == y + (")"@ + v),
    ensures
        x == y,
        u == v,
{
    reveal_strlit(")");
    assert(")"@ =~= seq![')']);
    lemma_until(')', x, y, u, v);
}

/// A numeral holds digits only.
proof fn lemma_only_digits(n: nat, c: char)
    requires
        forall|d: nat| d < 10 ==> #[trigger] digit_char(d) != c,
    ensures
        !has_char(decimal(n), c),
    decreases n,
{
    let d = decimal(n);
    if n >= 10 {
        lemma_only_digits(n / 10, c);
        assert forall|i: int| 0 <= i < d.len() implies #[trigger] d[i] != c by {
            if i < d.len() - 1 {
                assert(d[i] == decimal(n / 10)[i]);
            } else {
                assert(d[i] == digit_char(n % 10));
            }
        }
    } else {
        assert forall|i: int| 0 <= i < d.len() implies #[trigger] d[i] != c by {
            assert(d[i] == digit_char(n));
        }
    }
}

/// A list of numbers holds no bracket.
proof fn lemma_joined_chars(xs: Seq<usize>)
    ensures
        !has_char(joined(xs), ']'),
    decreases xs.len(),
{
    reveal_strlit(", ");
    if xs.len() == 1 {
        lemma_only_digits(xs[0] as nat, ']');
    } else if xs.len() > 1 {
        let j = joined(xs);
        let a = joined(xs.drop_last());
        let d = decimal(xs.last() as nat);
        lemma_joined_chars(xs.drop_last());
        lemma_only_digits(xs.last() as nat, ']');
        assert forall|i: int| 0 <= i < j.len() implies #[trigger] j[i] != ']' by {
            if i < a.len() {
                assert(j[i] == a[i]);
            } else if i < a.len() + 2 {
                assert(j[i] == ", "@[i - a.len()]);
            } else {
                assert(j[i] == d[i - a.len() - 2]);
            }
        }
    }
}

/// The text of two or more numbers, split before the last one.
proof fn lemma_last_number(xs: Seq<usize>)
    requires
        xs.len() >= 2,
    ensures
        joined(xs) == joined(xs.drop_last()).push(',') + seq![' '] + decimal(xs.last() as nat),
        has_char(joined(xs), ' '),
{
    reveal_strlit(", ");
    let a = joined(xs.drop_last());
    assert(joined(xs) =~= a.push(',') + seq![' '] + decimal(xs.last() as nat));
    assert(joined(xs)[a.len() as int + 1] == ' ');
}

/// The text of a list of numbers determines the list.
proof fn lemma_joined_injective(xs: Seq<usize>, ys: Seq<usize>)
    requires
        joined(xs) == joined(ys),
    ensures
        xs == ys,
    decreases xs.len(),
{
    if xs.len() >= 2 {
        lemma_last_number(xs);
    }
    if ys.len() >= 2 {
        lemma_last_number(ys);
    }
    if xs.len() == 1 {
        lemma_decimal_nonempty(xs[0] as nat);
        lemma_only_digits(xs[0] as nat, ' ');
    }
    if ys.len() == 1 {
        lemma_decimal_nonempty(ys[0] as nat);
        lemma_only_digits(ys[0] as nat, ' ');
    }
    if xs.len() == 1 && ys.len() == 1 {
        law_decimal_injective(xs[0] as nat, ys[0] as nat);
        assert(xs =~= ys);
    } else if xs.len() >= 2 && ys.len() >= 2 {
        let a = joined(xs.drop_last());
        let b = joined(ys.drop_last());
        lemma_only_digits(xs.last() as nat, ' ');
        lemma_only_digits(ys.last() as nat, ' ');
        lemma_since(
            ' ',
            a.push(','),
            b.push(','),
            decimal(xs.last() as nat),
            decimal(ys.last() as nat),
        );
        assert(a =~= a.push(',').drop_last());
        assert(b =~= b.push(',').drop_last());
        lemma_joined_injective(xs.drop_last(), ys.drop_last());
        law_decimal_injective(xs.last() as nat, ys.last() as nat);
        assert(xs =~= xs.drop_last().push(xs.last()));
        assert(ys =~= ys.drop_last().push(ys.last()));
    } else {
        assert(xs =~= ys);
    }
}

/// The texts of shapes, split behind the first one.
proof fn lemma_first_shape(shapes: Seq<Seq<usize>>, n: nat)
    requires
        0 < n <= shapes.len(),
    ensures
        shapes_text(shapes, n) == bracketed(shapes[0]) + shapes_text(
            shapes.skip(1),
            (n - 1) as nat,
        ),
    decreases n,
{
    let rest = shapes.skip(1);
    if n > 1 {
        lemma_first_shape(shapes, (n - 1) as nat);
        assert(rest[n - 2] == shapes[n - 1]);
        assert(shapes_text(rest, (n - 1) as nat) == shapes_text(rest, (n - 2) as nat) + bracketed(
            shapes[n - 1],
        ));
    } else {
        assert(shapes_text(shapes, 0) =~= Seq::empty());
        assert(shapes_text(rest, 0) =~= Seq::empty());
    }
    assert(shapes_text(shapes, n) =~= bracketed(shapes[0]) + shapes_text(rest, (n - 1) as nat));
}

/// The names of element types differ, and none begins with a bracket.
proof fn lemma_dtype_names(a: Dtype, b: Dtype)
    ensures
        dtype_name(a).len() > 0,
        dtype_name(a)[0] != '[',
        dtype_name(a) == dtype_name(b) ==> a == b,
{
    reveal_strlit("F32");
    reveal_strlit("F16");
    reveal_strlit("BF16");
    reveal_strlit("Q8_0");
    reveal_strlit("Q4_K");
    reveal_strlit("Q5_K");
    reveal_strlit("Q6_K");
    let x = dtype_name(a);
    let y = dtype_name(b);
    assert(x == y ==> x.len() == y.len() && x[0] == y[0] && x[1] == y[1]);
}

/// The texts of shapes and an element type tell both.
proof fn lemma_shapes_injective(
    xs: Seq<Seq<usize>>,
    ys: Seq<Seq<usize>>,
    a: Dtype,
    b: Dtype,
)
    requires
        shapes_text(xs, xs.len()) + dtype_name(a) == shapes_text(ys, ys.len()) + dtype_name(b),
    ensures
        xs == ys,
        a == b,
    decreases xs.len(),
{
    reveal_strlit("[");
    reveal_strlit("]");
    lemma_dtype_names(a, b);
    lemma_dtype_names(b, a);
    let w = shapes_text(xs, xs.len()) + dtype_name(a);
    let z = shapes_text(ys, ys.len()) + dtype_name(b);
    if xs.len() > 0 {
        lemma_first_shape(xs, xs.len());
        assert(w[0] == '[');
    } else {
        assert(w =~= dtype_name(a));
    }
    if ys.len() > 0 {
        lemma_first_shape(ys, ys.len());
        assert(z[0] == '[');
    } else {
        assert(z =~= dtype_name(b));
    }
    if xs.len() > 0 && ys.len() > 0 {
        let xt = xs.skip(1);
        let yt = ys.skip(1);
        let u = shapes_text(xt, xt.len()) + dtype_name(a);
        let v = shapes_text(yt, yt.len()) + dtype_name(b);
        assert("["@ =~= seq!['['] && "]"@ =~= seq![']']);
        assert(w =~= seq!['['] + (joined(xs[0]) + (seq![']'] + u)));
        assert(z =~= seq!['['] + (joined(ys[0]) + (seq![']'] + v)));
        lemma_strip(
            seq!['['],
            joined(xs[0]) + (seq![']'] + u),
            joined(ys[0]) + (seq![']'] + v),
        );
        lemma_joined_chars(xs[0]);
        lemma_joined_chars(ys[0]);
        lemma_until(']', joined(xs[0]), joined(ys[0]), u, v);
        lemma_joined_injective(xs[0], ys[0]);
        lemma_shapes_injective(xt, yt, a, b);
        assert(xs =~= seq![xs[0]] + xt);
        assert(ys =~= seq![ys[0]] + yt);
    } else {
        assert(xs =~= ys);
    }
}

/// What follows a common part is the same where the whole is.
proof fn lemma_strip(a: Seq<char>, x: Seq<char>, y: Seq<char>)
    requires
        a + x == a + y,
    ensures
        x == y,
{
    assert(x =~= (a + x).skip(a.len() as int));
    assert(y =~= (a + y).skip(a.len() as int));
}

/// The operands of a pair, and what follows them, where the whole is the same.
proof fn lemma_pairs(
    o: Seq<char>,
    x0: Seq<char>,
    x1: Seq<char>,
    u: Seq<char>,
    y0: Seq<char>,
    y1: Seq<char>,
    v: Seq<char>,
)
    requires
        (o + (x0 + (","@ + (x1 + ")"@)))) + u == (o + (y0 + (","@ + (y1 + ")"@)))) + v,
    ensures
        x0 + (","@ + (x1 + (")"@ + u))) == y0 + (","@ + (y1 + (")"@ + v))),
{
    let xr = x0 + (","@ + (x1 + (")"@ + u)));
    let yr = y0 + (","@ + (y1 + (")"@ + v)));
    assert((o + (x0 + (","@ + (x1 + ")"@)))) + u =~= o + xr);
    assert((o + (y0 + (","@ + (y1 + ")"@)))) + v =~= o + yr);
    lemma_strip(o, xr, yr);
}

/// The operand, and what follows it, where the whole is the same.
proof fn lemma_wraps(o: Seq<char>, x: Seq<char>, u: Seq<char>, y: Seq<char>, v: Seq<char>)
    requires
        (o + (x + ")"@)) + u == (o + (y + ")"@)) + v,
    ensures
        x + (")"@ + u) == y + (")"@ + v),
{
    assert((o + (x + ")"@)) + u =~= o + (x + (")"@ + u)));
    assert((o + (y + ")"@)) + v =~= o + (y + (")"@ + v)));
    lemma_strip(o, x + (")"@ + u), y + (")"@ + v));
}

/// Expressions whose texts begin alike are of the same kind.
proof fn lemma_same_kind<T: ScalarText>(
    t: T,
    a: Expr,
    b: Expr,
    x: Seq<char>,
    y: Seq<char>,
    u: Seq<char>,
    v: Seq<char>,
)
    requires
        serializes(t, a, x),
        serializes(t, b, y),
        x + u == y + v,
    ensures
        opening(a) == opening(b),
        a is Input == b is Input,
        a is Scalar == b is Scalar,
        a is Add == b is Add,
        a is Mul == b is Mul,
        a is Sub == b is Sub,
        a is Div == b is Div,
        a is Relu == b is Relu,
        a is Tanh == b is Tanh,
        a is Sigmoid == b is Sigmoid,
        a is Neg == b is Neg,
        a is Exp == b is Exp,
        a is Sqrt == b is Sqrt,
        a is Step == b is Step,
{
    let _ = lemma_body(t, a, x);
    let _ = lemma_body(t, b, y);
    lemma_opening_chars();
    assert(opening(a).len() >= 2 && opening(b).len() >= 2);
    assert(x[0] == opening(a)[0] && x[1] == opening(a)[1]);
    assert(y[0] == opening(b)[0] && y[1] == opening(b)[1]);
    assert((x + u)[0] == x[0] && (x + u)[1] == x[1]);
    assert((y + v)[0] == y[0] && (y + v)[1] == y[1]);
    lemma_openings(a, b);
}

/// No text of an expression is the beginning of another's.
#[verifier::rlimit(60)]
proof fn lemma_prefix_free<T: ScalarText>(
    t: T,
    a: Expr,
    b: Expr,
    x: Seq<char>,
    y: Seq<char>,
    u: Seq<char>,
    v: Seq<char>,
)
    requires
        tells_numbers_apart(t),
        scalars_are_numbers(a),
        scalars_are_numbers(b),
        serializes(t, a, x),
        serializes(t, b, y),
        x + u == y + v,
    ensures
        a == b,
        x == y,
        u == v,
    decreases a,
{
    let (x0, x1) = lemma_body(t, a, x);
    let (y0, y1) = lemma_body(t, b, y);
    let o = opening(a);
    lemma_same_kind(t, a, b, x, y, u, v);
    match a {
        Expr::Input(i) => {
            let j = b->Input_0;
            let p = decimal(i as nat);
            let q = decimal(j as nat);
            lemma_wraps(o, p, u, q, v);
            lemma_only_digits(i as nat, ')');
            lemma_only_digits(j as nat, ')');
            lemma_until_bracket(p, q, u, v);
            law_decimal_injective(i as nat, j as nat);
        },
        Expr::Scalar(i) => {
            let j = b->Scalar_0;
            lemma_wraps(o, x0, u, y0, v);
            lemma_until_bracket(x0, y0, u, v);
            assert(i == j);
        },
        Expr::Add(a0, a1) | Expr::Mul(a0, a1) | Expr::Sub(a0, a1) | Expr::Div(a0, a1) => {
            match b {
                Expr::Add(b0, b1) | Expr::Mul(b0, b1) | Expr::Sub(b0, b1) | Expr::Div(b0, b1) => {
                    lemma_pairs(o, x0, x1, u, y0, y1, v);
                    let xr = x1 + (")"@ + u);
                    let yr = y1 + (")"@ + v);
                    lemma_prefix_free(t, *a0, *b0, x0, y0, ","@ + xr, ","@ + yr);
                    lemma_strip(","@, xr, yr);
                    lemma_prefix_free(t, *a1, *b1, x1, y1, ")"@ + u, ")"@ + v);
                    lemma_strip(")"@, u, v);
                },
                _ => {},
            }
        },
        Expr::Relu(a0)
        | Expr::Tanh(a0)
        | Expr::Sigmoid(a0)
        | Expr::Neg(a0)
        | Expr::Exp(a0)
        | Expr::Sqrt(a0)
        | Expr::Step(a0) => {
            match b {
                Expr::Relu(b0)
                | Expr::Tanh(b0)
                | Expr::Sigmoid(b0)
                | Expr::Neg(b0)
                | Expr::Exp(b0)
                | Expr::Sqrt(b0)
                | Expr::Step(b0) => {
                    lemma_wraps(o, x0, u, y0, v);
                    lemma_prefix_free(t, *a0, *b0, x0, y0, ")"@ + u, ")"@ + v);
                    lemma_strip(")"@, u, v);
                },
                _ => {},
            }
        },
    }
}

/// Expressions with the same serialization are the same.
pub proof fn law_serialization_injective<T: ScalarText>(t: T, a: Expr, b: Expr, s: Seq<char>)
    requires
        tells_numbers_apart(t),
        scalars_are_numbers(a),
        scalars_are_numbers(b),
        serializes(t, a, s),
        serializes(t, b, s),
    ensures
        a == b,
{
    lemma_prefix_free(t, a, b, s, s, Seq::empty(), Seq::empty());
}

/// What is hashed for a key tells the expression, the shapes and the element
/// type.
pub proof fn law_hashed_text_injective<T: ScalarText>(
    t: T,
    a: Expr,
    b: Expr,
    x: Seq<char>,
    y: Seq<char>,
    shapes: Seq<Seq<usize>>,
    shapes2: Seq<Seq<usize>>,
    dtype: Dtype,
    dtype2: Dtype,
)
    requires
        tells_numbers_apart(t),
        scalars_are_numbers(a),
        scalars_are_numbers(b),
        serializes(t, a, x),
        serializes(t, b, y),
        hashed_text(x, shapes, dtype) == hashed_text(y, shapes2, dtype2),
    ensures
        a == b,
        shapes == shapes2,
        dtype == dtype2,
{
    let u = shapes_text(shapes, shapes.len()) + dtype_name(dtype);
    let v = shapes_text(shapes2, shapes2.len()) + dtype_name(dtype2);
    assert(hashed_text(x, shapes, dtype) =~= x + u);
    assert(hashed_text(y, shapes2, dtype2) =~= y + v);
    lemma_prefix_free(t, a, b, x, y, u, v);
    lemma_shapes_injective(shapes, shapes2, dtype, dtype2);
}

} // verus!
