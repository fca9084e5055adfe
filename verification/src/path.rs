//! Names of the tensors in a checkpoint, built segment by segment.
use std::sync::Arc;
use vstd::prelude::*;

verus! {

/// One segment of a tensor name.
#[derive(Clone, Copy, Debug)]
pub enum Seg {
    Name(&'static str),
    Index(usize),
}

/// A prefix of tensor names: the segments from the root of the checkpoint down.
#[derive(Debug)]
pub enum Path {
    Root,
    Child(Arc<Path>, Seg),
}

/// The decimal digit `d`.
pub open spec fn digit(d: int) -> Seq<char> {
    if d == 0 {
        "0"@
    } else if d == 1 {
        "1"@
    } else if d == 2 {
        "2"@
    } else if d == 3 {
        "3"@
    } else if d == 4 {
        "4"@
    } else if d == 5 {
        "5"@
    } else if d == 6 {
        "6"@
    } else if d == 7 {
        "7"@
    } else if d == 8 {
        "8"@
    } else {
        "9"@
    }
}

/// `n` in decimal, without leading zeros.
pub open spec fn decimal(n: nat) -> Seq<char>
    decreases n,
{
    if n < 10 {
        digit(n as int)
    } else {
        decimal(n / 10) + digit((n % 10) as int)
    }
}

fn digit_str(d: usize) -> (r: &'static str)
    requires
        d < 10,
    ensures
        r@ == digit(d as int),
{
    if d == 0 {
        "0"
    } else if d == 1 {
        "1"
    } else if d == 2 {
        "2"
    } else if d == 3 {
        "3"
    } else if d == 4 {
        "4"
    } else if d == 5 {
        "5"
    } else if d == 6 {
        "6"
    } else if d == 7 {
        "7"
    } else if d == 8 {
        "8"
    } else {
        "9"
    }
}

fn push_decimal(s: &mut String, n: usize)
    ensures
        final(s)@ == old(s)@ + decimal(n as nat),
    decreases n,
{
    if n < 10 {
        s.append(digit_str(n));
    } else {
        push_decimal(s, n / 10);
        s.append(digit_str(n % 10));
        proof {
            assert(final(s)@ =~= old(s)@ + (decimal((n / 10) as nat) + digit((n % 10) as int)));
        }
    }
}

/// Whether two texts are the same.
pub(crate) fn same_text(a: &str, b: &str) -> (r: bool)
    ensures
        r == (a@ == b@),
{
    a.to_string() == b.to_string()
}

impl Seg {
    /// The segment as it stands in a name.
    pub open spec fn text(self) -> Seq<char> {
        match self {
            Seg::Name(s) => s@,
            Seg::Index(n) => decimal(n as nat),
        }
    }

    fn push_to(&self, s: &mut String)
        ensures
            final(s)@ == old(s)@ + self.text(),
    {
        match self {
            Seg::Name(t) => s.append(t),
            Seg::Index(n) => push_decimal(s, *n),
        }
    }
}

impl Clone for Path {
    fn clone(&self) -> (r: Path)
        ensures
            r == *self,
    {
        match self {
            Path::Root => Path::Root,
            Path::Child(p, s) => Path::Child(p.clone(), *s),
        }
    }
}

impl Path {
    /// This prefix with one more segment.
    pub open spec fn child(self, seg: Seg) -> Path {
        Path::Child(Arc::new(self), seg)
    }

    /// This prefix with a named segment.
    pub open spec fn at(self, name: &'static str) -> Path {
        self.child(Seg::Name(name))
    }

    /// This prefix with a numbered segment.
    pub open spec fn nth(self, index: int) -> Path {
        self.child(Seg::Index(index as usize))
    }

    /// The name made of this prefix and `last`, segments joined by dots.
    pub open spec fn full_name(self, last: Seq<char>) -> Seq<char>
        decreases self,
    {
        match self {
            Path::Root => last,
            Path::Child(p, s) => p.full_name(s.text()) + "."@ + last,
        }
    }

    pub fn root() -> (r: Path)
        ensures
            r == Path::Root,
    {
        Path::Root
    }

    /// Descends into the segment `name`.
    pub fn pp(&self, name: &'static str) -> (r: Path)
        ensures
            r == self.at(name),
    {
        Path::Child(Arc::new(self.clone()), Seg::Name(name))
    }

    /// Descends into the segment `index`.
    pub fn pi(&self, index: usize) -> (r: Path)
        ensures
            r == self.nth(index as int),
    {
        Path::Child(Arc::new(self.clone()), Seg::Index(index))
    }

    fn push_prefix(&self, s: &mut String)
        requires
            old(s)@.len() == 0,
        ensures
            forall|last: Seq<char>| #[trigger]
                self.full_name(last) == final(s)@ + last,
        decreases self,
    {
        match self {
            Path::Root => {
                proof {
                    assert forall|last: Seq<char>| #[trigger] self.full_name(last) == s@ + last by {
                        assert(s@ + last =~= last);
                    }
                }
            },
            Path::Child(p, seg) => {
                p.push_prefix(s);
                let ghost before = s@;
                seg.push_to(s);
                s.append(".");
                proof {
                    assert(p.full_name(seg.text()) == before + seg.text());
                    assert forall|last: Seq<char>| #[trigger] self.full_name(last) == s@ + last by {
                        assert(p.full_name(seg.text()) + "."@ + last =~= s@ + last);
                    }
                }
            },
        }
    }

    /// The full name of the tensor `last` under this prefix.
    pub fn tensor_name(&self, last: &str) -> (r: String)
        ensures
            r@ == self.full_name(last@),
    {
        let mut s: String = String::new();
        self.push_prefix(&mut s);
        s.append(last);
        s
    }
}

/// The number that decimal digits stand for.
pub open spec fn number_of(s: Seq<char>) -> int
    decreases s.len(),
{
    if s.len() == 0 {
        0
    } else {
        number_of(s.drop_last()) * 10 + (s.last() as int - '0' as int)
    }
}

proof fn lemma_digit(d: int)
    requires
        0 <= d < 10,
    ensures
        digit(d).len() == 1,
        digit(d)[0] as int == '0' as int + d,
{
    reveal_strlit("0");
    reveal_strlit("1");
    reveal_strlit("2");
    reveal_strlit("3");
    reveal_strlit("4");
    reveal_strlit("5");
    reveal_strlit("6");
    reveal_strlit("7");
    reveal_strlit("8");
    reveal_strlit("9");
}

/// The decimal digits of a number stand for it, and do not start with zero unless the number is zero.
pub proof fn decimals_read_back(n: nat)
    ensures
        number_of(decimal(n)) == n,
        decimal(n).len() > 0,
        n > 0 ==> decimal(n)[0] != '0',
    decreases n,
{
    if n < 10 {
        lemma_digit(n as int);
        reveal_with_fuel(number_of, 2);
        assert(decimal(n).drop_last() =~= Seq::<char>::empty());
    } else {
        decimals_read_back(n / 10);
        lemma_digit((n % 10) as int);
        let s = decimal(n);
        assert(s.drop_last() =~= decimal(n / 10));
        assert(s[0] == decimal(n / 10)[0]);
    }
}

proof fn lemma_name_ends(path: Path, a: Seq<char>, b: Seq<char>)
    ensures
        path.full_name(a) + b == path.full_name(a + b),
{
    match path {
        Path::Root => {},
        Path::Child(p, s) => {
            assert(path.full_name(a) + b =~= path.full_name(a + b));
        },
    }
}

/// A name under a segment is the segment, a dot and the name, under what the segment is under.
pub proof fn names_are_joined_by_dots(path: Path, segment: &'static str, index: int, name: Seq<char>)
    requires
        0 <= index <= usize::MAX,
    ensures
        Path::Root.full_name(name) == name,
        path.at(segment).full_name(name) == path.full_name(segment@ + seq!['.'] + name),
        path.nth(index).full_name(name) == path.full_name(
            decimal(index as nat) + seq!['.'] + name,
        ),
{
    reveal_strlit(".");
    assert("."@ =~= seq!['.']);
    lemma_name_ends(path, segment@, seq!['.']);
    lemma_name_ends(path, segment@ + seq!['.'], name);
    lemma_name_ends(path, decimal(index as nat), seq!['.']);
    lemma_name_ends(path, decimal(index as nat) + seq!['.'], name);
    assert(path.at(segment).full_name(name) == path.full_name(segment@) + "."@ + name);
    assert(path.nth(index).full_name(name) == path.full_name(decimal(index as nat)) + "."@ + name);
}

} // verus!
