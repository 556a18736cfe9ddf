//! Elementwise computations as expressions: shader text, cache keys and
//! evaluation on the host.

use crate::float::{bits, computes, Float, Fx};
use crate::kernels::elementwise::{apply_binary, apply_unary, binary_of, unary_of, Binary, Unary};
use crate::op::shape_views;
use crate::shape::{
    broadcast_index, broadcast_position, get_strides, is_there, numel, same_dims, strides_fit,
    unravel, Shape,
};
use crate::tensor::Dtype;
use crate::text::{
    bracketed, decimal, hex_bytes, hex_of, lemma_hex_len, push_bracketed, push_decimal,
};
use sha2::Digest;
use vstd::prelude::*;
use vstd::string::*;
use vstd::utf8::encode_utf8;

verus! {

/// An elementwise computation. Scalars are given by their bits.
#[derive(Debug)]
pub enum Expr {
    /// An input buffer, by its position.
    Input(usize),
    /// A constant number.
    Scalar(u32),
    Add(Box<Expr>, Box<Expr>),
    Mul(Box<Expr>, Box<Expr>),
    Sub(Box<Expr>, Box<Expr>),
    Div(Box<Expr>, Box<Expr>),
    Relu(Box<Expr>),
    Tanh(Box<Expr>),
    Sigmoid(Box<Expr>),
    Neg(Box<Expr>),
    Exp(Box<Expr>),
    Sqrt(Box<Expr>),
    /// One where the number is at least zero, else zero.
    Step(Box<Expr>),
}

/// The host's text of a number.
///
/// The methods make no promise: the texts below are described through the
/// calls that were made.
pub trait ScalarText {
    /// The text for programmers, such as `2.0` or `1e30`.
    fn debug(&self, b: u32) -> String;

    /// The text for users, such as `2`.
    fn display(&self, b: u32) -> String;
}

/// The text contains the character.
pub open spec fn has_char(s: Seq<char>, c: char) -> bool {
    exists|i: int| 0 <= i < s.len() && #[trigger] s[i] == c
}

/// A number's text as a shader literal: with a point or an exponent.
pub open spec fn literal(s: Seq<char>) -> Seq<char> {
    if has_char(s, '.') || has_char(s, 'e') {
        s
    } else {
        s + ".0"@
    }
}

/// Two texts with an operator between, in brackets.
pub open spec fn infix(x: Seq<char>, op: Seq<char>, y: Seq<char>) -> Seq<char> {
    "("@ + x + op + y + ")"@
}

/// A text between two others.
pub open spec fn wrapped(before: Seq<char>, x: Seq<char>, after: Seq<char>) -> Seq<char> {
    before + x + after
}

/// `s` may be the shader text of the expression, where `names` says which
/// texts may stand for an input.
pub open spec fn renders<T: ScalarText>(
    t: T,
    names: spec_fn(usize, Seq<char>) -> bool,
    e: Expr,
    s: Seq<char>,
) -> bool
    decreases e,
{
    match e {
        Expr::Input(i) => names(i, s),
        Expr::Scalar(b) => exists|x: String| #[trigger]
            call_ensures(T::debug, (&t, b), x) && s == literal(x@),
        Expr::Add(a, b) => exists|x: Seq<char>, y: Seq<char>|
            renders(t, names, *a, x) && renders(t, names, *b, y) && s == #[trigger] infix(
                x,
                " + "@,
                y,
            ),
        Expr::Mul(a, b) => exists|x: Seq<char>, y: Seq<char>|
            renders(t, names, *a, x) && renders(t, names, *b, y) && s == #[trigger] infix(
                x,
                " * "@,
                y,
            ),
        Expr::Sub(a, b) => exists|x: Seq<char>, y: Seq<char>|
            renders(t, names, *a, x) && renders(t, names, *b, y) && s == #[trigger] infix(
                x,
                " - "@,
                y,
            ),
        Expr::Div(a, b) => exists|x: Seq<char>, y: Seq<char>|
            renders(t, names, *a, x) && renders(t, names, *b, y) && s == #[trigger] infix(
                x,
                " / "@,
                y,
            ),
        Expr::Relu(a) => exists|x: Seq<char>|
            renders(t, names, *a, x) && s == #[trigger] wrapped("max(0.0, "@, x, ")"@),
        Expr::Tanh(a) => exists|x: Seq<char>|
            renders(t, names, *a, x) && s == #[trigger] wrapped("tanh("@, x, ")"@),
        Expr::Sigmoid(a) => exists|x: Seq<char>|
            renders(t, names, *a, x) && s == #[trigger] wrapped(
                "(1.0 / (1.0 + exp(-("@,
                x,
                "))))"@,
            ),
        Expr::Neg(a) => exists|x: Seq<char>|
            renders(t, names, *a, x) && s == #[trigger] wrapped("(-("@, x, "))"@),
        Expr::Exp(a) => exists|x: Seq<char>|
            renders(t, names, *a, x) && s == #[trigger] wrapped("exp("@, x, ")"@),
        Expr::Sqrt(a) => exists|x: Seq<char>|
            renders(t, names, *a, x) && s == #[trigger] wrapped("sqrt("@, x, ")"@),
        Expr::Step(a) => exists|x: Seq<char>|
            renders(t, names, *a, x) && s == #[trigger] wrapped("step(0.0, "@, x, ")"@),
    }
}

/// `s` may be the cache key of the expression.
pub open spec fn serializes<T: ScalarText>(t: T, e: Expr, s: Seq<char>) -> bool
    decreases e,
{
    match e {
        Expr::Input(i) => s == wrapped("Input("@, decimal(i as nat), ")"@),
        Expr::Scalar(b) => exists|x: String| #[trigger]
            call_ensures(T::display, (&t, b), x) && s == wrapped("Scalar("@, x@, ")"@),
        Expr::Add(a, b) => exists|x: Seq<char>, y: Seq<char>|
            serializes(t, *a, x) && serializes(t, *b, y) && s == #[trigger] pair("Add("@, x, y),
        Expr::Mul(a, b) => exists|x: Seq<char>, y: Seq<char>|
            serializes(t, *a, x) && serializes(t, *b, y) && s == #[trigger] pair("Mul("@, x, y),
        Expr::Sub(a, b) => exists|x: Seq<char>, y: Seq<char>|
            serializes(t, *a, x) && serializes(t, *b, y) && s == #[trigger] pair("Sub("@, x, y),
        Expr::Div(a, b) => exists|x: Seq<char>, y: Seq<char>|
            serializes(t, *a, x) && serializes(t, *b, y) && s == #[trigger] pair("Div("@, x, y),
        Expr::Relu(a) => exists|x: Seq<char>|
            serializes(t, *a, x) && s == #[trigger] wrapped("Relu("@, x, ")"@),
        Expr::Tanh(a) => exists|x: Seq<char>|
            serializes(t, *a, x) && s == #[trigger] wrapped("Tanh("@, x, ")"@),
        Expr::Sigmoid(a) => exists|x: Seq<char>|
            serializes(t, *a, x) && s == #[trigger] wrapped("Sigmoid("@, x, ")"@),
        Expr::Neg(a) => exists|x: Seq<char>|
            serializes(t, *a, x) && s == #[trigger] wrapped("Neg("@, x, ")"@),
        Expr::Exp(a) => exists|x: Seq<char>|
            serializes(t, *a, x) && s == #[trigger] wrapped("Exp("@, x, ")"@),
        Expr::Sqrt(a) => exists|x: Seq<char>|
            serializes(t, *a, x) && s == #[trigger] wrapped("Sqrt("@, x, ")"@),
        Expr::Step(a) => exists|x: Seq<char>|
            serializes(t, *a, x) && s == #[trigger] wrapped("Step("@, x, ")"@),
    }
}

/// A name with two arguments.
pub open spec fn pair(name: Seq<char>, x: Seq<char>, y: Seq<char>) -> Seq<char> {
    name + x + ","@ + y + ")"@
}

/// The texts that a closure may give for an input.
pub open spec fn given_by<I: Fn(usize) -> String>(indexer: &I) -> spec_fn(usize, Seq<char>) -> bool {
    |i: usize, s: Seq<char>| exists|x: String| #[trigger]
        call_ensures(indexer, (i,), x) && s == x@
}

/// Where every name of one kind is one of the other, so is every text.
pub proof fn lemma_renders_more<T: ScalarText>(
    t: T,
    names: spec_fn(usize, Seq<char>) -> bool,
    more: spec_fn(usize, Seq<char>) -> bool,
    e: Expr,
    s: Seq<char>,
)
    requires
        renders(t, names, e, s),
        forall|i: usize, x: Seq<char>| #[trigger] names(i, x) ==> more(i, x),
    ensures
        renders(t, more, e, s),
    decreases e,
{
    match e {
        Expr::Input(_) => {},
        Expr::Scalar(_) => {},
        Expr::Add(a, b) => {
            let (x, y) = choose|x: Seq<char>, y: Seq<char>|
                renders(t, names, *a, x) && renders(t, names, *b, y) && s == #[trigger] infix(
                    x,
                    " + "@,
                    y,
                );
            lemma_renders_more(t, names, more, *a, x);
            lemma_renders_more(t, names, more, *b, y);
            assert(s == infix(x, " + "@, y));
        },
        Expr::Mul(a, b) => {
            let (x, y) = choose|x: Seq<char>, y: Seq<char>|
                renders(t, names, *a, x) && renders(t, names, *b, y) && s == #[trigger] infix(
                    x,
                    " * "@,
                    y,
                );
            lemma_renders_more(t, names, more, *a, x);
            lemma_renders_more(t, names, more, *b, y);
            assert(s == infix(x, " * "@, y));
        },
        Expr::Sub(a, b) => {
            let (x, y) = choose|x: Seq<char>, y: Seq<char>|
                renders(t, names, *a, x) && renders(t, names, *b, y) && s == #[trigger] infix(
                    x,
                    " - "@,
                    y,
                );
            lemma_renders_more(t, names, more, *a, x);
            lemma_renders_more(t, names, more, *b, y);
            assert(s == infix(x, " - "@, y));
        },
        Expr::Div(a, b) => {
            let (x, y) = choose|x: Seq<char>, y: Seq<char>|
                renders(t, names, *a, x) && renders(t, names, *b, y) && s == #[trigger] infix(
                    x,
                    " / "@,
                    y,
                );
            lemma_renders_more(t, names, more, *a, x);
            lemma_renders_more(t, names, more, *b, y);
            assert(s == infix(x, " / "@, y));
        },
        Expr::Relu(a) => {
            let x = choose|x: Seq<char>|
                renders(t, names, *a, x) && s == #[trigger] wrapped("max(0.0, "@, x, ")"@);
            lemma_renders_more(t, names, more, *a, x);
            assert(s == wrapped("max(0.0, "@, x, ")"@));
        },
        Expr::Tanh(a) => {
            let x = choose|x: Seq<char>|
                renders(t, names, *a, x) && s == #[trigger] wrapped("tanh("@, x, ")"@);
            lemma_renders_more(t, names, more, *a, x);
            assert(s == wrapped("tanh("@, x, ")"@));
        },
        Expr::Sigmoid(a) => {
            let x = choose|x: Seq<char>|
                renders(t, names, *a, x) && s == #[trigger] wrapped(
                    "(1.0 / (1.0 + exp(-("@,
                    x,
                    "))))"@,
                );
            lemma_renders_more(t, names, more, *a, x);
            assert(s == wrapped("(1.0 / (1.0 + exp(-("@, x, "))))"@));
        },
        Expr::Neg(a) => {
            let x = choose|x: Seq<char>|
                renders(t, names, *a, x) && s == #[trigger] wrapped("(-("@, x, "))"@);
            lemma_renders_more(t, names, more, *a, x);
            assert(s == wrapped("(-("@, x, "))"@));
        },
        Expr::Exp(a) => {
            let x = choose|x: Seq<char>|
                renders(t, names, *a, x) && s == #[trigger] wrapped("exp("@, x, ")"@);
            lemma_renders_more(t, names, more, *a, x);
            assert(s == wrapped("exp("@, x, ")"@));
        },
        Expr::Sqrt(a) => {
            let x = choose|x: Seq<char>|
                renders(t, names, *a, x) && s == #[trigger] wrapped("sqrt("@, x, ")"@);
            lemma_renders_more(t, names, more, *a, x);
            assert(s == wrapped("sqrt("@, x, ")"@));
        },
        Expr::Step(a) => {
            let x = choose|x: Seq<char>|
                renders(t, names, *a, x) && s == #[trigger] wrapped("step(0.0, "@, x, ")"@);
            lemma_renders_more(t, names, more, *a, x);
            assert(s == wrapped("step(0.0, "@, x, ")"@));
        },
    }
}

/// Whether a text contains a character.
fn contains_char(s: &str, c: char) -> (r: bool)
    ensures
        r == has_char(s@, c),
{
    let n: usize = s.unicode_len();
    for i in 0..n
        invariant
            n == s@.len(),
            forall|j: int| 0 <= j < i ==> #[trigger] s@[j] != c,
    {
        if s.get_char(i) == c {
            return true;
        }
    }
    false
}

/// Two texts with an operator between, in brackets.
fn infix_text(x: &String, op: &str, y: &String) -> (s: String)
    ensures
        s@ == infix(x@, op@, y@),
{
    let mut s = String::from_str("(");
    s.append(x.as_str());
    s.append(op);
    s.append(y.as_str());
    s.append(")");
    s
}

/// A text between two others.
fn wrapped_text(before: &str, x: &String, after: &str) -> (s: String)
    ensures
        s@ == wrapped(before@, x@, after@),
{
    let mut s = String::from_str(before);
    s.append(x.as_str());
    s.append(after);
    s
}

/// A name with two arguments.
fn pair_text(name: &str, x: &String, y: &String) -> (s: String)
    ensures
        s@ == pair(name@, x@, y@),
{
    let mut s = String::from_str(name);
    s.append(x.as_str());
    s.append(",");
    s.append(y.as_str());
    s.append(")");
    s
}

impl Expr {
    /// The shader text of the expression. The closure gives the text of an
    /// input.
    pub fn to_wgsl<T: ScalarText, I: Fn(usize) -> String>(&self, t: &T, input_indexer: &I) -> (s:
        String)
        requires
            forall|i: usize| #[trigger] call_requires(input_indexer, (i,)),
        ensures
            renders(*t, given_by(input_indexer), *self, s@),
        decreases self,
    {
        match self {
            Expr::Input(i) => {
                let s = input_indexer(*i);
                proof {
                    assert(call_ensures(input_indexer, (*i,), s));
                }
                s
            },
            Expr::Scalar(b) => {
                let s = t.debug(*b);
                proof {
                    assert(call_ensures(T::debug, (t, *b), s));
                }
                if contains_char(s.as_str(), '.') || contains_char(s.as_str(), 'e') {
                    s
                } else {
                    s.concat(".0")
                }
            },
            Expr::Add(a, b) => infix_text(
                &a.to_wgsl(t, input_indexer),
                " + ",
                &b.to_wgsl(t, input_indexer),
            ),
            Expr::Mul(a, b) => infix_text(
                &a.to_wgsl(t, input_indexer),
                " * ",
                &b.to_wgsl(t, input_indexer),
            ),
            Expr::Sub(a, b) => infix_text(
                &a.to_wgsl(t, input_indexer),
                " - ",
                &b.to_wgsl(t, input_indexer),
            ),
            Expr::Div(a, b) => infix_text(
                &a.to_wgsl(t, input_indexer),
                " / ",
                &b.to_wgsl(t, input_indexer),
            ),
            Expr::Relu(a) => wrapped_text("max(0.0, ", &a.to_wgsl(t, input_indexer), ")"),
            Expr::Tanh(a) => wrapped_text("tanh(", &a.to_wgsl(t, input_indexer), ")"),
            Expr::Sigmoid(a) => wrapped_text(
                "(1.0 / (1.0 + exp(-(",
                &a.to_wgsl(t, input_indexer),
                "))))",
            ),
            Expr::Neg(a) => wrapped_text("(-(", &a.to_wgsl(t, input_indexer), "))"),
            Expr::Exp(a) => wrapped_text("exp(", &a.to_wgsl(t, input_indexer), ")"),
            Expr::Sqrt(a) => wrapped_text("sqrt(", &a.to_wgsl(t, input_indexer), ")"),
            Expr::Step(a) => wrapped_text("step(0.0, ", &a.to_wgsl(t, input_indexer), ")"),
        }
    }

    /// Whether the expression mentions the first `n` inputs only.
    pub fn uses_below(&self, n: usize) -> (r: bool)
        ensures
            r == inputs_below(*self, n as nat),
        decreases self,
    {
        match self {
            Expr::Input(i) => *i < n,
            Expr::Scalar(_) => true,
            Expr::Add(a, b) => a.uses_below(n) && b.uses_below(n),
            Expr::Mul(a, b) => a.uses_below(n) && b.uses_below(n),
            Expr::Sub(a, b) => a.uses_below(n) && b.uses_below(n),
            Expr::Div(a, b) => a.uses_below(n) && b.uses_below(n),
            Expr::Relu(a) => a.uses_below(n),
            Expr::Tanh(a) => a.uses_below(n),
            Expr::Sigmoid(a) => a.uses_below(n),
            Expr::Neg(a) => a.uses_below(n),
            Expr::Exp(a) => a.uses_below(n),
            Expr::Sqrt(a) => a.uses_below(n),
            Expr::Step(a) => a.uses_below(n),
        }
    }

    /// The text of the expression that cache keys are made of.
    pub fn serialize<T: ScalarText>(&self, t: &T) -> (s: String)
        ensures
            serializes(*t, *self, s@),
        decreases self,
    {
        match self {
            Expr::Input(i) => {
                let mut s = String::from_str("Input(");
                push_decimal(&mut s, *i as u64);
                s.append(")");
                s
            },
            Expr::Scalar(b) => {
                let x = t.display(*b);
                proof {
                    assert(call_ensures(T::display, (t, *b), x));
                }
                wrapped_text("Scalar(", &x, ")")
            },
            Expr::Add(a, b) => pair_text("Add(", &a.serialize(t), &b.serialize(t)),
            Expr::Mul(a, b) => pair_text("Mul(", &a.serialize(t), &b.serialize(t)),
            Expr::Sub(a, b) => pair_text("Sub(", &a.serialize(t), &b.serialize(t)),
            Expr::Div(a, b) => pair_text("Div(", &a.serialize(t), &b.serialize(t)),
            Expr::Relu(a) => wrapped_text("Relu(", &a.serialize(t), ")"),
            Expr::Tanh(a) => wrapped_text("Tanh(", &a.serialize(t), ")"),
            Expr::Sigmoid(a) => wrapped_text("Sigmoid(", &a.serialize(t), ")"),
            Expr::Neg(a) => wrapped_text("Neg(", &a.serialize(t), ")"),
            Expr::Exp(a) => wrapped_text("Exp(", &a.serialize(t), ")"),
            Expr::Sqrt(a) => wrapped_text("Sqrt(", &a.serialize(t), ")"),
            Expr::Step(a) => wrapped_text("Step(", &a.serialize(t), ")"),
        }
    }
}

/// Where an input is read for one output position.
pub open spec fn read_at(shape: Seq<usize>, out: Seq<usize>, idx: usize) -> int {
    if shape == out {
        idx as int
    } else {
        broadcast_index(shape, out, idx as nat) as int
    }
}

/// An input can be read for one output position.
pub open spec fn can_read(data: Seq<u32>, shape: Seq<usize>, out: Seq<usize>, idx: usize) -> bool {
    if shape == out {
        idx < data.len()
    } else {
        strides_fit(shape) && numel(out) > 0 && is_there(shape, data.len(), out, idx as nat)
    }
}

/// Every input that the expression mentions can be read.
pub open spec fn readable(
    e: Expr,
    xs: Seq<Seq<u32>>,
    shapes: Seq<Seq<usize>>,
    out: Seq<usize>,
    idx: usize,
) -> bool
    decreases e,
{
    match e {
        Expr::Input(i) => i < xs.len() && i < shapes.len() && can_read(
            xs[i as int],
            shapes[i as int],
            out,
            idx,
        ),
        Expr::Scalar(_) => true,
        Expr::Add(a, b) => readable(*a, xs, shapes, out, idx) && readable(
            *b,
            xs,
            shapes,
            out,
            idx,
        ),
        Expr::Mul(a, b) => readable(*a, xs, shapes, out, idx) && readable(
            *b,
            xs,
            shapes,
            out,
            idx,
        ),
        Expr::Sub(a, b) => readable(*a, xs, shapes, out, idx) && readable(
            *b,
            xs,
            shapes,
            out,
            idx,
        ),
        Expr::Div(a, b) => readable(*a, xs, shapes, out, idx) && readable(
            *b,
            xs,
            shapes,
            out,
            idx,
        ),
        Expr::Relu(a) => readable(*a, xs, shapes, out, idx),
        Expr::Tanh(a) => readable(*a, xs, shapes, out, idx),
        Expr::Sigmoid(a) => readable(*a, xs, shapes, out, idx),
        Expr::Neg(a) => readable(*a, xs, shapes, out, idx),
        Expr::Exp(a) => readable(*a, xs, shapes, out, idx),
        Expr::Sqrt(a) => readable(*a, xs, shapes, out, idx),
        Expr::Step(a) => readable(*a, xs, shapes, out, idx),
    }
}

/// The expression mentions the first `n` inputs only.
pub open spec fn inputs_below(e: Expr, n: nat) -> bool
    decreases e,
{
    match e {
        Expr::Input(i) => i < n,
        Expr::Scalar(_) => true,
        Expr::Add(a, b) => inputs_below(*a, n) && inputs_below(*b, n),
        Expr::Mul(a, b) => inputs_below(*a, n) && inputs_below(*b, n),
        Expr::Sub(a, b) => inputs_below(*a, n) && inputs_below(*b, n),
        Expr::Div(a, b) => inputs_below(*a, n) && inputs_below(*b, n),
        Expr::Relu(a) => inputs_below(*a, n),
        Expr::Tanh(a) => inputs_below(*a, n),
        Expr::Sigmoid(a) => inputs_below(*a, n),
        Expr::Neg(a) => inputs_below(*a, n),
        Expr::Exp(a) => inputs_below(*a, n),
        Expr::Sqrt(a) => inputs_below(*a, n),
        Expr::Step(a) => inputs_below(*a, n),
    }
}

/// Where the first `n` inputs can be read, so can an expression that mentions
/// no other.
pub proof fn lemma_readable(
    e: Expr,
    n: nat,
    xs: Seq<Seq<u32>>,
    shapes: Seq<Seq<usize>>,
    out: Seq<usize>,
    idx: usize,
)
    requires
        inputs_below(e, n),
        n <= xs.len(),
        n <= shapes.len(),
        forall|i: int| 0 <= i < n ==> can_read(#[trigger] xs[i], shapes[i], out, idx),
    ensures
        readable(e, xs, shapes, out, idx),
    decreases e,
{
    match e {
        Expr::Input(i) => {
            assert(can_read(xs[i as int], shapes[i as int], out, idx));
        },
        Expr::Scalar(_) => {},
        Expr::Add(a, b) => {
            lemma_readable(*a, n, xs, shapes, out, idx);
            lemma_readable(*b, n, xs, shapes, out, idx);
        },
        Expr::Mul(a, b) => {
            lemma_readable(*a, n, xs, shapes, out, idx);
            lemma_readable(*b, n, xs, shapes, out, idx);
        },
        Expr::Sub(a, b) => {
            lemma_readable(*a, n, xs, shapes, out, idx);
            lemma_readable(*b, n, xs, shapes, out, idx);
        },
        Expr::Div(a, b) => {
            lemma_readable(*a, n, xs, shapes, out, idx);
            lemma_readable(*b, n, xs, shapes, out, idx);
        },
        Expr::Relu(a) => lemma_readable(*a, n, xs, shapes, out, idx),
        Expr::Tanh(a) => lemma_readable(*a, n, xs, shapes, out, idx),
        Expr::Sigmoid(a) => lemma_readable(*a, n, xs, shapes, out, idx),
        Expr::Neg(a) => lemma_readable(*a, n, xs, shapes, out, idx),
        Expr::Exp(a) => lemma_readable(*a, n, xs, shapes, out, idx),
        Expr::Sqrt(a) => lemma_readable(*a, n, xs, shapes, out, idx),
        Expr::Step(a) => lemma_readable(*a, n, xs, shapes, out, idx),
    }
}

/// The arithmetic of the expression at one output position.
pub open spec fn ast_value(
    e: Expr,
    xs: Seq<Seq<u32>>,
    shapes: Seq<Seq<usize>>,
    out: Seq<usize>,
    idx: usize,
) -> Fx
    decreases e,
{
    match e {
        Expr::Input(i) => bits(xs[i as int][read_at(shapes[i as int], out, idx)]),
        Expr::Scalar(b) => bits(b),
        Expr::Add(a, b) => binary_of(
            Binary::Add,
            ast_value(*a, xs, shapes, out, idx),
            ast_value(*b, xs, shapes, out, idx),
        ),
        Expr::Mul(a, b) => binary_of(
            Binary::Mul,
            ast_value(*a, xs, shapes, out, idx),
            ast_value(*b, xs, shapes, out, idx),
        ),
        Expr::Sub(a, b) => binary_of(
            Binary::Sub,
            ast_value(*a, xs, shapes, out, idx),
            ast_value(*b, xs, shapes, out, idx),
        ),
        Expr::Div(a, b) => binary_of(
            Binary::Div,
            ast_value(*a, xs, shapes, out, idx),
            ast_value(*b, xs, shapes, out, idx),
        ),
        Expr::Relu(a) => unary_of(Unary::Relu, ast_value(*a, xs, shapes, out, idx)),
        Expr::Tanh(a) => unary_of(Unary::Tanh, ast_value(*a, xs, shapes, out, idx)),
        Expr::Sigmoid(a) => unary_of(Unary::Sigmoid, ast_value(*a, xs, shapes, out, idx)),
        Expr::Neg(a) => unary_of(Unary::Neg, ast_value(*a, xs, shapes, out, idx)),
        Expr::Exp(a) => unary_of(Unary::Exp, ast_value(*a, xs, shapes, out, idx)),
        Expr::Sqrt(a) => unary_of(Unary::Sqrt, ast_value(*a, xs, shapes, out, idx)),
        Expr::Step(a) => unary_of(Unary::Step, ast_value(*a, xs, shapes, out, idx)),
    }
}

/// The contents of buffers.
pub open spec fn buffers(inputs: Seq<&Vec<u32>>) -> Seq<Seq<u32>> {
    Seq::new(inputs.len(), |i: int| inputs[i]@)
}

/// Reads an input for one output position.
fn read_input(data: &Vec<u32>, shape: &Shape, out: &Shape, idx: usize) -> (x: u32)
    requires
        can_read(data@, shape@, out@, idx),
    ensures
        x == data@[read_at(shape@, out@, idx)],
{
    if same_dims(&shape.dims, &out.dims) {
        data[idx]
    } else {
        let strides = get_strides(&shape.dims);
        let c = unravel(idx, &out.dims);
        match broadcast_position(&shape.dims, data.len(), &strides, &c, &out.dims, idx) {
            Some(p) => data[p],
            None => 0,
        }
    }
}

/// Evaluates the expression at one output position.
pub fn evaluate_ast<F: Float>(
    f: &F,
    expr: &Expr,
    inputs: &[&Vec<u32>],
    input_shapes: &[Shape],
    output_shape: &Shape,
    output_idx: usize,
) -> (r: u32)
    requires
        readable(
            *expr,
            buffers(inputs@),
            shape_views(input_shapes@),
            output_shape@,
            output_idx,
        ),
    ensures
        computes(
            *f,
            ast_value(
                *expr,
                buffers(inputs@),
                shape_views(input_shapes@),
                output_shape@,
                output_idx,
            ),
            r,
        ),
    decreases expr,
{
    let ghost xs = buffers(inputs@);
    let ghost ss = shape_views(input_shapes@);
    match expr {
        Expr::Input(i) => read_input(inputs[*i], &input_shapes[*i], output_shape, output_idx),
        Expr::Scalar(b) => *b,
        Expr::Add(a, b) => {
            let x: u32 = evaluate_ast(f, a, inputs, input_shapes, output_shape, output_idx);
            let y: u32 = evaluate_ast(f, b, inputs, input_shapes, output_shape, output_idx);
            let ghost ex = ast_value(**a, xs, ss, output_shape@, output_idx);
            let ghost ey = ast_value(**b, xs, ss, output_shape@, output_idx);
            apply_binary(f, Binary::Add, x, y, Ghost(ex), Ghost(ey))
        },
        Expr::Mul(a, b) => {
            let x: u32 = evaluate_ast(f, a, inputs, input_shapes, output_shape, output_idx);
            let y: u32 = evaluate_ast(f, b, inputs, input_shapes, output_shape, output_idx);
            let ghost ex = ast_value(**a, xs, ss, output_shape@, output_idx);
            let ghost ey = ast_value(**b, xs, ss, output_shape@, output_idx);
            apply_binary(f, Binary::Mul, x, y, Ghost(ex), Ghost(ey))
        },
        Expr::Sub(a, b) => {
            let x: u32 = evaluate_ast(f, a, inputs, input_shapes, output_shape, output_idx);
            let y: u32 = evaluate_ast(f, b, inputs, input_shapes, output_shape, output_idx);
            let ghost ex = ast_value(**a, xs, ss, output_shape@, output_idx);
            let ghost ey = ast_value(**b, xs, ss, output_shape@, output_idx);
            apply_binary(f, Binary::Sub, x, y, Ghost(ex), Ghost(ey))
        },
        Expr::Div(a, b) => {
            let x: u32 = evaluate_ast(f, a, inputs, input_shapes, output_shape, output_idx);
            let y: u32 = evaluate_ast(f, b, inputs, input_shapes, output_shape, output_idx);
            let ghost ex = ast_value(**a, xs, ss, output_shape@, output_idx);
            let ghost ey = ast_value(**b, xs, ss, output_shape@, output_idx);
            apply_binary(f, Binary::Div, x, y, Ghost(ex), Ghost(ey))
        },
        Expr::Relu(a) => {
            let x: u32 = evaluate_ast(f, a, inputs, input_shapes, output_shape, output_idx);
            let ghost ex = ast_value(**a, xs, ss, output_shape@, output_idx);
            apply_unary(f, Unary::Relu, x, Ghost(ex))
        },
        Expr::Tanh(a) => {
            let x: u32 = evaluate_ast(f, a, inputs, input_shapes, output_shape, output_idx);
            let ghost ex = ast_value(**a, xs, ss, output_shape@, output_idx);
            apply_unary(f, Unary::Tanh, x, Ghost(ex))
        },
        Expr::Sigmoid(a) => {
            let x: u32 = evaluate_ast(f, a, inputs, input_shapes, output_shape, output_idx);
            let ghost ex = ast_value(**a, xs, ss, output_shape@, output_idx);
            apply_unary(f, Unary::Sigmoid, x, Ghost(ex))
        },
        Expr::Neg(a) => {
            let x: u32 = evaluate_ast(f, a, inputs, input_shapes, output_shape, output_idx);
            let ghost ex = ast_value(**a, xs, ss, output_shape@, output_idx);
            apply_unary(f, Unary::Neg, x, Ghost(ex))
        },
        Expr::Exp(a) => {
            let x: u32 = evaluate_ast(f, a, inputs, input_shapes, output_shape, output_idx);
            let ghost ex = ast_value(**a, xs, ss, output_shape@, output_idx);
            apply_unary(f, Unary::Exp, x, Ghost(ex))
        },
        Expr::Sqrt(a) => {
            let x: u32 = evaluate_ast(f, a, inputs, input_shapes, output_shape, output_idx);
            let ghost ex = ast_value(**a, xs, ss, output_shape@, output_idx);
            apply_unary(f, Unary::Sqrt, x, Ghost(ex))
        },
        Expr::Step(a) => {
            let x: u32 = evaluate_ast(f, a, inputs, input_shapes, output_shape, output_idx);
            let ghost ex = ast_value(**a, xs, ss, output_shape@, output_idx);
            apply_unary(f, Unary::Step, x, Ghost(ex))
        },
    }
}

/// The SHA-256 digest of a byte string, as `sha2` computes it.
pub uninterp spec fn sha256_digest(data: Seq<u8>) -> Seq<u8>;

/// `sha2::Sha256::digest`: the digest of a byte string, 32 bytes that depend
/// on the byte string alone.
#[verifier::external_body]
fn sha256(data: &Vec<u8>) -> (digest: Vec<u8>)
    ensures
        digest@ == sha256_digest(data@),
        digest@.len() == 32,
{
    sha2::Sha256::digest(data).to_vec()
}

/// The name of an element type.
pub open spec fn dtype_name(d: Dtype) -> Seq<char> {
    match d {
        Dtype::F32 => "F32"@,
        Dtype::F16 => "F16"@,
        Dtype::BF16 => "BF16"@,
        Dtype::Q8_0 => "Q8_0"@,
        Dtype::Q4_K => "Q4_K"@,
        Dtype::Q5_K => "Q5_K"@,
        Dtype::Q6_K => "Q6_K"@,
    }
}

/// The lists of extents of the first `n` shapes, one after the other.
pub open spec fn shapes_text(shapes: Seq<Seq<usize>>, n: nat) -> Seq<char>
    decreases n,
{
    if n == 0 {
        Seq::empty()
    } else {
        shapes_text(shapes, (n - 1) as nat) + bracketed(shapes[n - 1])
    }
}

/// What is hashed for an expression with the given serialization.
pub open spec fn hashed_text(
    serialized: Seq<char>,
    shapes: Seq<Seq<usize>>,
    dtype: Dtype,
) -> Seq<char> {
    serialized + shapes_text(shapes, shapes.len()) + dtype_name(dtype)
}

/// The name of an element type.
pub fn dtype_text(d: Dtype) -> (s: &'static str)
    ensures
        s@ == dtype_name(d),
{
    match d {
        Dtype::F32 => "F32",
        Dtype::F16 => "F16",
        Dtype::BF16 => "BF16",
        Dtype::Q8_0 => "Q8_0",
        Dtype::Q4_K => "Q4_K",
        Dtype::Q5_K => "Q5_K",
        Dtype::Q6_K => "Q6_K",
    }
}

/// A key for the expression, the shapes of its inputs and the element type:
/// the hexadecimal digest of their texts.
pub fn hash_ast<T: ScalarText>(t: &T, expr: &Expr, input_shapes: &[Shape], dtype: Dtype) -> (key:
    String)
    ensures
        exists|s: Seq<char>| #[trigger]
            serializes(*t, *expr, s) && key@ == hex_bytes(
                sha256_digest(
                    encode_utf8(hashed_text(s, shape_views(input_shapes@), dtype)),
                ),
            ),
        key@.len() == 64,
{
    let ghost ss = shape_views(input_shapes@);
    let mut text = expr.serialize(t);
    let ghost serialized = text@;
    for i in 0..input_shapes.len()
        invariant
            ss == shape_views(input_shapes@),
            text@ == serialized + shapes_text(ss, i as nat),
    {
        push_bracketed(&mut text, &input_shapes[i].dims);
        proof {
            assert(text@ =~= serialized + shapes_text(ss, (i + 1) as nat));
        }
    }
    text.append(dtype_text(dtype));
    proof {
        assert(text@ =~= hashed_text(serialized, ss, dtype));
        assert(serializes(*t, *expr, serialized));
    }
    let digest = sha256(&text.as_str().as_bytes_vec());
    proof {
        lemma_hex_len(digest@);
    }
    hex_of(&digest)
}

} // verus!
