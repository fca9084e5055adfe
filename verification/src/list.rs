//! Immutable lists that a tensor description can hold.
use std::sync::Arc;
use vstd::prelude::*;

verus! {

/// A list whose tail is shared.
#[derive(Debug)]
pub enum List<A> {
    Nil,
    Cons(A, Arc<List<A>>),
}

/// The list with the items of `s`, in order.
pub open spec fn list_of<A>(s: Seq<A>) -> List<A>
    decreases s.len(),
{
    if s.len() == 0 {
        List::Nil
    } else {
        List::Cons(s[0], Arc::new(list_of(s.drop_first())))
    }
}

/// The items of `l`, in order.
pub open spec fn items<A>(l: List<A>) -> Seq<A>
    decreases l,
{
    match l {
        List::Nil => seq![],
        List::Cons(x, rest) => seq![x] + items(*rest),
    }
}

/// A list holds exactly the items that it was built from.
pub proof fn lemma_items_of_list<A>(s: Seq<A>)
    ensures
        items(list_of(s)) == s,
    decreases s.len(),
{
    if s.len() > 0 {
        lemma_items_of_list(s.drop_first());
        assert(seq![s[0]] + s.drop_first() =~= s);
    }
}

/// Copies integers into a list.
pub fn list_from_ints(v: &Vec<i64>) -> (r: List<i64>)
    ensures
        r == list_of(v@),
{
    let mut out: List<i64> = List::Nil;
    let mut i: usize = v.len();
    while i > 0
        invariant
            i <= v.len(),
            out == list_of(v@.subrange(i as int, v.len() as int)),
        decreases i,
    {
        i -= 1;
        proof {
            let s = v@.subrange(i as int, v.len() as int);
            assert(s.drop_first() =~= v@.subrange(i + 1, v.len() as int));
        }
        out = List::Cons(v[i], Arc::new(out));
    }
    assert(v@.subrange(0, v.len() as int) =~= v@);
    out
}

/// Copies sizes into a list.
pub fn list_from_sizes(v: &Vec<usize>) -> (r: List<usize>)
    ensures
        r == list_of(v@),
{
    let mut out: List<usize> = List::Nil;
    let mut i: usize = v.len();
    while i > 0
        invariant
            i <= v.len(),
            out == list_of(v@.subrange(i as int, v.len() as int)),
        decreases i,
    {
        i -= 1;
        proof {
            let s = v@.subrange(i as int, v.len() as int);
            assert(s.drop_first() =~= v@.subrange(i + 1, v.len() as int));
        }
        out = List::Cons(v[i], Arc::new(out));
    }
    assert(v@.subrange(0, v.len() as int) =~= v@);
    out
}

/// Copies flags into a list.
pub fn list_from_bools(v: &Vec<bool>) -> (r: List<bool>)
    ensures
        r == list_of(v@),
{
    let mut out: List<bool> = List::Nil;
    let mut i: usize = v.len();
    while i > 0
        invariant
            i <= v.len(),
            out == list_of(v@.subrange(i as int, v.len() as int)),
        decreases i,
    {
        i -= 1;
        proof {
            let s = v@.subrange(i as int, v.len() as int);
            assert(s.drop_first() =~= v@.subrange(i + 1, v.len() as int));
        }
        out = List::Cons(v[i], Arc::new(out));
    }
    assert(v@.subrange(0, v.len() as int) =~= v@);
    out
}

} // verus!
