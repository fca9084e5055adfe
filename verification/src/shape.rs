//! Tensor shapes.
use crate::error::Error;
use crate::list::{items, lemma_items_of_list, list_of, List};
use std::sync::Arc;
use vstd::prelude::*;

verus! {

/// The dimensions of a tensor, outermost first.
#[derive(Debug)]
pub enum Shape {
    D0,
    D1(usize),
    D2(usize, usize),
    D3(usize, usize, usize),
    D4(usize, usize, usize, usize),
    /// Five dimensions or more: the first five, and the others.
    Dn(usize, usize, usize, usize, usize, List<usize>),
}

/// The shape with the dimensions `d`.
pub open spec fn shape_of(d: Seq<usize>) -> Shape {
    if d.len() == 0 {
        Shape::D0
    } else if d.len() == 1 {
        Shape::D1(d[0])
    } else if d.len() == 2 {
        Shape::D2(d[0], d[1])
    } else if d.len() == 3 {
        Shape::D3(d[0], d[1], d[2])
    } else if d.len() == 4 {
        Shape::D4(d[0], d[1], d[2], d[3])
    } else {
        Shape::Dn(d[0], d[1], d[2], d[3], d[4], list_of(d.skip(5)))
    }
}

/// A shape has exactly the dimensions that it was made from.
pub proof fn dims_of_shape(d: Seq<usize>)
    ensures
        shape_of(d).dims() == d,
{
    if d.len() >= 5 {
        lemma_items_of_list(d.skip(5));
    }
    assert(shape_of(d).dims() =~= d);
}

/// A shape is made from its dimensions.
pub proof fn shape_of_dims(s: Shape)
    ensures
        shape_of(s.dims()) == s,
{
    if let Shape::Dn(a, b, c, d, e, rest) = s {
        assert(s.dims().skip(5) =~= items(rest));
        lemma_list_of_items(rest);
    }
}

proof fn lemma_list_of_items(l: List<usize>)
    ensures
        list_of(items(l)) == l,
    decreases l,
{
    match l {
        List::Nil => {},
        List::Cons(_, rest) => {
            let tail: List<usize> = *rest;
            lemma_list_of_items(tail);
            assert(items(l).drop_first() =~= items(tail));
        },
    }
}

impl Clone for Shape {
    fn clone(&self) -> (r: Shape)
        ensures
            r == *self,
    {
        match self {
            Shape::D0 => Shape::D0,
            Shape::D1(a) => Shape::D1(*a),
            Shape::D2(a, b) => Shape::D2(*a, *b),
            Shape::D3(a, b, c) => Shape::D3(*a, *b, *c),
            Shape::D4(a, b, c, d) => Shape::D4(*a, *b, *c, *d),
            Shape::Dn(a, b, c, d, e, rest) => {
                let rest = match rest {
                    List::Nil => List::Nil,
                    List::Cons(x, tail) => List::Cons(*x, tail.clone()),
                };
                Shape::Dn(*a, *b, *c, *d, *e, rest)
            },
        }
    }
}

fn same_dims(a: &List<usize>, b: &List<usize>) -> (r: bool)
    ensures
        r == (*a == *b),
    decreases *a,
{
    match (a, b) {
        (List::Nil, List::Nil) => true,
        (List::Cons(x, s), List::Cons(y, t)) => *x == *y && same_dims(s, t),
        _ => false,
    }
}

impl PartialEq for Shape {
    fn eq(&self, other: &Shape) -> (r: bool) {
        match (self, other) {
            (Shape::D0, Shape::D0) => true,
            (Shape::D1(a), Shape::D1(x)) => *a == *x,
            (Shape::D2(a, b), Shape::D2(x, y)) => *a == *x && *b == *y,
            (Shape::D3(a, b, c), Shape::D3(x, y, z)) => *a == *x && *b == *y && *c == *z,
            (Shape::D4(a, b, c, d), Shape::D4(x, y, z, w)) => *a == *x && *b == *y && *c == *z
                && *d == *w,
            (Shape::Dn(a, b, c, d, e, s), Shape::Dn(x, y, z, w, v, t)) => *a == *x && *b == *y
                && *c == *z && *d == *w && *e == *v && same_dims(s, t),
            _ => false,
        }
    }
}

impl vstd::std_specs::cmp::PartialEqSpecImpl for Shape {
    open spec fn obeys_eq_spec() -> bool {
        true
    }

    open spec fn eq_spec(&self, other: &Shape) -> bool {
        *self == *other
    }
}

/// The product of the dimensions `d`.
pub open spec fn product(d: Seq<usize>) -> int
    decreases d.len(),
{
    if d.len() == 0 {
        1
    } else {
        d[0] * product(d.drop_first())
    }
}

/// Dimension `i` of `d` once `d` has been given `n` dimensions, filled with ones on the left.
pub open spec fn padded_dim(d: Seq<usize>, n: int, i: int) -> usize {
    if i < n - d.len() {
        1
    } else {
        d[i - (n - d.len())]
    }
}

pub open spec fn max_len(a: Seq<usize>, b: Seq<usize>) -> nat {
    if a.len() >= b.len() {
        a.len()
    } else {
        b.len()
    }
}

pub open spec fn broadcast_dim(a: usize, b: usize) -> usize {
    if a == 1 {
        b
    } else {
        a
    }
}

/// Whether two shapes agree in every dimension, counted from the last one, in which neither is 1.
pub open spec fn broadcastable(a: Seq<usize>, b: Seq<usize>) -> bool {
    let n = max_len(a, b) as int;
    forall|i: int|
        0 <= i < n ==> {
            ||| #[trigger] padded_dim(a, n, i) == padded_dim(b, n, i)
            ||| padded_dim(a, n, i) == 1
            ||| padded_dim(b, n, i) == 1
        }
}

pub open spec fn broadcast_dims(a: Seq<usize>, b: Seq<usize>) -> Seq<usize> {
    let n = max_len(a, b);
    Seq::new(n, |i: int| broadcast_dim(padded_dim(a, n as int, i), padded_dim(b, n as int, i)))
}

/// The shape of an element-wise operation that broadcasts its operands.
pub open spec fn broadcast_shape(a: Shape, b: Shape) -> Result<Shape, Error> {
    if broadcastable(a.dims(), b.dims()) {
        Ok(shape_of(broadcast_dims(a.dims(), b.dims())))
    } else {
        Err(Error::Broadcast { lhs: a, rhs: b })
    }
}

/// `n`, where a machine word holds it.
pub open spec fn word(n: int) -> Result<usize, Error> {
    if 0 <= n <= usize::MAX {
        Ok(n as usize)
    } else {
        Err(Error::TooLarge)
    }
}

/// `a + b`, where a machine word holds it.
pub fn add_dims(a: usize, b: usize) -> (r: Result<usize, Error>)
    ensures
        r == word(a + b),
{
    match a.checked_add(b) {
        Some(c) => Ok(c),
        None => Err(Error::TooLarge),
    }
}

/// `a * b`, where a machine word holds it.
pub fn mul_dims(a: usize, b: usize) -> (r: Result<usize, Error>)
    ensures
        r == word(a * b),
{
    proof {
        assert(a * b >= 0) by (nonlinear_arith)
            requires
                a >= 0,
                b >= 0,
        ;
    }
    match a.checked_mul(b) {
        Some(c) => Ok(c),
        None => Err(Error::TooLarge),
    }
}

fn mul_nonzero(a: usize, b: usize, Ghost(rest): Ghost<nat>) -> (r: Option<usize>)
    requires
        b >= 1,
        rest >= 1,
    ensures
        r matches Some(c) ==> c == a * b,
        r is None ==> a * b * rest > usize::MAX,
{
    match a.checked_mul(b) {
        Some(c) => Some(c),
        None => {
            proof {
                let p: int = a * b;
                assert(p * rest >= p) by (nonlinear_arith)
                    requires
                        p >= 0,
                        rest >= 1,
                ;
            }
            None
        },
    }
}

proof fn lemma_product_zero(d: Seq<usize>, i: int)
    requires
        0 <= i < d.len(),
        d[i] == 0,
    ensures
        product(d) == 0,
    decreases d.len(),
{
    if i == 0 {
        assert(0 * product(d.drop_first()) == 0);
    } else {
        lemma_product_zero(d.drop_first(), i - 1);
    }
}

pub(crate) proof fn lemma_product_suffix(d: Seq<usize>, i: int)
    requires
        0 <= i <= d.len(),
        forall|j: int| 0 <= j < d.len() ==> d[j] >= 1,
    ensures
        1 <= product(d.skip(i)) <= product(d),
    decreases d.len(),
{
    if d.len() > 0 {
        let rest = product(d.drop_first());
        if i == 0 {
            assert(d.skip(0) =~= d);
            lemma_product_suffix(d.drop_first(), 0);
            assert(d.drop_first().skip(0) =~= d.drop_first());
        } else {
            lemma_product_suffix(d.drop_first(), i - 1);
            assert(d.drop_first().skip(i - 1) =~= d.skip(i));
        }
        assert(d[0] * rest >= rest) by (nonlinear_arith)
            requires
                d[0] >= 1,
                rest >= 1,
        ;
    } else {
        assert(d.skip(i) =~= d);
    }
}

/// The product of the first `n` dimensions, where a machine word holds it.
pub(crate) fn prefix_product(d: &Vec<usize>, n: usize) -> (r: Option<usize>)
    requires
        n <= d.len(),
    ensures
        match r {
            Some(p) => p == product(d@.take(n as int)),
            None => product(d@.take(n as int)) > usize::MAX,
        },
{
    let ghost head = d@.take(n as int);
    let mut i: usize = 0;
    while i < n
        invariant
            n <= d.len(),
            head == d@.take(n as int),
            i <= n,
            forall|j: int| 0 <= j < i ==> head[j] >= 1,
        decreases n - i,
    {
        if d[i] == 0 {
            proof {
                lemma_product_zero(head, i as int);
            }
            return Some(0);
        }
        i += 1;
    }
    let mut acc: usize = 1;
    assert(head.skip(n as int) =~= Seq::empty());
    while i > 0
        invariant
            n <= d.len(),
            head == d@.take(n as int),
            i <= n,
            forall|j: int| 0 <= j < head.len() ==> head[j] >= 1,
            acc == product(head.skip(i as int)),
        decreases i,
    {
        proof {
            assert(head.skip(i - 1).drop_first() =~= head.skip(i as int));
            lemma_product_suffix(head, i - 1);
        }
        match acc.checked_mul(d[i - 1]) {
            Some(p) => {
                proof {
                    assert(acc * d[i - 1] == d[i - 1] * acc) by (nonlinear_arith);
                }
                acc = p;
            },
            None => {
                proof {
                    assert(acc * d[i - 1] == d[i - 1] * acc) by (nonlinear_arith);
                }
                return None;
            },
        }
        i -= 1;
    }
    assert(head.skip(0) =~= head);
    Some(acc)
}

pub(crate) proof fn lemma_product_nonnegative(d: Seq<usize>)
    ensures
        product(d) >= 0,
    decreases d.len(),
{
    if d.len() > 0 {
        lemma_product_nonnegative(d.drop_first());
        let rest = product(d.drop_first());
        assert(d[0] * rest >= 0) by (nonlinear_arith)
            requires
                d[0] >= 0,
                rest >= 0,
        ;
    }
}

pub proof fn lemma_count_nonnegative(s: Shape)
    ensures
        s.count() >= 0,
{
    match s {
        Shape::D2(a, b) => {
            assert(a * b >= 0) by (nonlinear_arith)
                requires
                    a >= 0,
                    b >= 0,
            ;
        },
        Shape::D3(a, b, c) => {
            assert(a * b * c >= 0) by (nonlinear_arith)
                requires
                    a >= 0,
                    b >= 0,
                    c >= 0,
            ;
        },
        Shape::D4(a, b, c, d) => {
            assert(a * b * c * d >= 0) by (nonlinear_arith)
                requires
                    a >= 0,
                    b >= 0,
                    c >= 0,
                    d >= 0,
            ;
        },
        Shape::Dn(..) => {
            lemma_product_nonnegative(s.dims());
        },
        _ => {},
    }
}

fn append_dims(l: &List<usize>, out: &mut Vec<usize>)
    ensures
        final(out)@ == old(out)@ + items(*l),
    decreases *l,
{
    match l {
        List::Nil => {
            assert(out@ + items(*l) =~= out@);
        },
        List::Cons(x, rest) => {
            let ghost before = out@;
            out.push(*x);
            append_dims(rest, out);
            assert(before.push(*x) + items(**rest) =~= before + items(*l));
        },
    }
}

/// The dimensions from the sixth on.
fn rest_of_dims(d: &Vec<usize>) -> (r: List<usize>)
    requires
        d.len() >= 5,
    ensures
        r == list_of(d@.skip(5)),
{
    let mut out: List<usize> = List::Nil;
    let mut i: usize = d.len();
    while i > 5
        invariant
            5 <= i <= d.len(),
            out == list_of(d@.skip(i as int)),
        decreases i,
    {
        i -= 1;
        proof {
            let s = d@.skip(i as int);
            assert(s.drop_first() =~= d@.skip(i + 1));
        }
        out = List::Cons(d[i], Arc::new(out));
    }
    out
}

impl Shape {
    pub open spec fn dims(self) -> Seq<usize> {
        match self {
            Shape::D0 => seq![],
            Shape::D1(a) => seq![a],
            Shape::D2(a, b) => seq![a, b],
            Shape::D3(a, b, c) => seq![a, b, c],
            Shape::D4(a, b, c, d) => seq![a, b, c, d],
            Shape::Dn(a, b, c, d, e, rest) => seq![a, b, c, d, e] + items(rest),
        }
    }

    /// The number of elements.
    pub open spec fn count(self) -> int {
        match self {
            Shape::D0 => 1,
            Shape::D1(a) => a as int,
            Shape::D2(a, b) => a * b,
            Shape::D3(a, b, c) => a * b * c,
            Shape::D4(a, b, c, d) => a * b * c * d,
            Shape::Dn(..) => product(self.dims()),
        }
    }

    /// Whether a machine word holds the number of elements.
    #[verifier::opaque]
    pub open spec fn fits(self) -> bool {
        self.count() <= usize::MAX
    }

    pub open spec fn rank_of(self) -> int {
        self.dims().len() as int
    }

    pub fn rank(&self) -> (r: usize)
        ensures
            r == self.rank_of(),
    {
        match self {
            Shape::D0 => 0,
            Shape::D1(_) => 1,
            Shape::D2(_, _) => 2,
            Shape::D3(_, _, _) => 3,
            Shape::D4(_, _, _, _) => 4,
            Shape::Dn(..) => self.to_vec().len(),
        }
    }

    pub fn to_vec(&self) -> (r: Vec<usize>)
        ensures
            r@ == self.dims(),
    {
        match self {
            Shape::D0 => vec![],
            Shape::D1(a) => vec![*a],
            Shape::D2(a, b) => vec![*a, *b],
            Shape::D3(a, b, c) => vec![*a, *b, *c],
            Shape::D4(a, b, c, d) => vec![*a, *b, *c, *d],
            Shape::Dn(a, b, c, d, e, rest) => {
                let mut out: Vec<usize> = vec![*a, *b, *c, *d, *e];
                append_dims(rest, &mut out);
                out
            },
        }
    }

    pub fn from_dims(d: &Vec<usize>) -> (r: Shape)
        ensures
            r == shape_of(d@),
            r.dims() == d@,
    {
        proof {
            dims_of_shape(d@);
        }
        if d.len() == 0 {
            Shape::D0
        } else if d.len() == 1 {
            Shape::D1(d[0])
        } else if d.len() == 2 {
            Shape::D2(d[0], d[1])
        } else if d.len() == 3 {
            Shape::D3(d[0], d[1], d[2])
        } else if d.len() == 4 {
            Shape::D4(d[0], d[1], d[2], d[3])
        } else {
            Shape::Dn(d[0], d[1], d[2], d[3], d[4], rest_of_dims(d))
        }
    }

    /// The number of elements, where a machine word holds it.
    pub fn elem_count(&self) -> (r: Option<usize>)
        ensures
            self.fits() ==> r is Some && r->0 == self.count(),
            !self.fits() ==> r is None,
    {
        proof {
            reveal(Shape::fits);
            lemma_count_nonnegative(*self);
        }
        match self {
            Shape::D0 => Some(1),
            Shape::D1(a) => Some(*a),
            Shape::D2(a, b) => a.checked_mul(*b),
            Shape::D3(a, b, c) => {
                let (a, b, c): (usize, usize, usize) = (*a, *b, *c);
                if a == 0 || b == 0 || c == 0 {
                    proof {
                        assert(a * b * c == 0) by (nonlinear_arith)
                            requires
                                a == 0 || b == 0 || c == 0,
                        ;
                    }
                    return Some(0);
                }
                match mul_nonzero(a, b, Ghost(c as nat)) {
                    Some(ab) => ab.checked_mul(c),
                    None => None,
                }
            },
            Shape::Dn(..) => {
                let d = self.to_vec();
                assert(d@.take(d.len() as int) =~= d@);
                prefix_product(&d, d.len())
            },
            Shape::D4(a, b, c, d) => {
                let (a, b, c, d): (usize, usize, usize, usize) = (*a, *b, *c, *d);
                if a == 0 || b == 0 || c == 0 || d == 0 {
                    proof {
                        assert(a * b * c * d == 0) by (nonlinear_arith)
                            requires
                                a == 0 || b == 0 || c == 0 || d == 0,
                        ;
                    }
                    return Some(0);
                }
                proof {
                    assert(c * d >= 1) by (nonlinear_arith)
                        requires
                            c >= 1,
                            d >= 1,
                    ;
                    assert(a * b * (c * d) == a * b * c * d) by (nonlinear_arith);
                }
                match mul_nonzero(a, b, Ghost((c * d) as nat)) {
                    Some(ab) => match mul_nonzero(ab, c, Ghost(d as nat)) {
                        Some(abc) => abc.checked_mul(d),
                        None => None,
                    },
                    None => None,
                }
            },
        }
    }

    /// The shape with dimension `dim` replaced by `size`.
    pub fn with_dim(&self, dim: usize, size: usize) -> (r: Shape)
        requires
            dim < self.rank_of(),
        ensures
            r == shape_of(self.dims().update(dim as int, size)),
    {
        let mut d = self.to_vec();
        d.set(dim, size);
        Shape::from_dims(&d)
    }

    /// Broadcasts two shapes.
    pub fn broadcast(&self, other: &Shape) -> (r: Result<Shape, Error>)
        ensures
            r == broadcast_shape(*self, *other),
    {
        let a = self.to_vec();
        let b = other.to_vec();
        let n: usize = if a.len() >= b.len() {
            a.len()
        } else {
            b.len()
        };
        let mut out: Vec<usize> = Vec::new();
        let mut i: usize = 0;
        while i < n
            invariant
                a@ == self.dims(),
                b@ == other.dims(),
                a.len() <= n,
                b.len() <= n,
                n == max_len(a@, b@),
                i <= n,
                out.len() == i,
                forall|j: int|
                    0 <= j < i ==> {
                        ||| #[trigger] padded_dim(a@, n as int, j) == padded_dim(b@, n as int, j)
                        ||| padded_dim(a@, n as int, j) == 1
                        ||| padded_dim(b@, n as int, j) == 1
                    },
                forall|j: int|
                    0 <= j < i ==> out[j] == broadcast_dim(
                        padded_dim(a@, n as int, j),
                        padded_dim(b@, n as int, j),
                    ),
            decreases n - i,
        {
            let x: usize = if i < n - a.len() {
                1
            } else {
                a[i - (n - a.len())]
            };
            let y: usize = if i < n - b.len() {
                1
            } else {
                b[i - (n - b.len())]
            };
            assert(x == padded_dim(a@, n as int, i as int));
            assert(y == padded_dim(b@, n as int, i as int));
            if x != y && x != 1 && y != 1 {
                return Err(Error::Broadcast { lhs: self.clone(), rhs: other.clone() });
            }
            out.push(
                if x == 1 {
                    y
                } else {
                    x
                },
            );
            i += 1;
        }
        assert(out@ =~= broadcast_dims(a@, b@));
        Ok(Shape::from_dims(&out))
    }
}

} // verus!
