//! Blood types inherited through a family tree.

use vstd::prelude::*;
use crate::random::random_below;
use crate::text::{chars_of, decimal, push_decimal, string_from_chars};

verus! {

/// A person with parents and two alleles.
pub struct Person {
    /// The person's parents, if known.
    pub parents: Option<Box<(Person, Person)>>,
    /// The person's alleles.
    pub alleles: [char; 2],
}

/// One of the alleles `A`, `B` and `O`.
pub open spec fn is_allele(c: char) -> bool {
    c == 'A' || c == 'B' || c == 'O'
}

/// `p` heads a complete family tree of `generations` generations: the
/// oldest have two valid alleles and no parents; everyone else has both
/// parents and one allele from each.
pub open spec fn family_of(p: Person, generations: nat) -> bool
    decreases generations,
{
    if generations <= 1 {
        generations == 1 && p.parents is None && is_allele(p.alleles@[0]) && is_allele(p.alleles@[1])
    } else {
        match p.parents {
            None => false,
            Some(pp) => {
                &&& family_of(pp.0, (generations - 1) as nat)
                &&& family_of(pp.1, (generations - 1) as nat)
                &&& pp.0.alleles@.contains(p.alleles@[0])
                &&& pp.1.alleles@.contains(p.alleles@[1])
            },
        }
    }
}

/// One of the three alleles, at random.
fn random_allele() -> (r: char)
    ensures
        is_allele(r),
{
    let alleles: [char; 3] = ['A', 'B', 'O'];
    let i = random_below(3);
    alleles[i]
}

impl Person {
    /// Creates a person with no parents and random alleles.
    pub fn new() -> (r: Self)
        ensures
            family_of(r, 1),
    {
        let a = random_allele();
        let b = random_allele();
        Person { parents: None, alleles: [a, b] }
    }

    /// Creates a person with the given parents, taking one allele from
    /// each, at random.
    pub fn with_parents(parents: (Person, Person)) -> (r: Self)
        ensures
            r.parents == Some(Box::new(parents)),
            parents.0.alleles@.contains(r.alleles@[0]),
            parents.1.alleles@.contains(r.alleles@[1]),
    {
        let i = random_below(2);
        let j = random_below(2);
        let a = parents.0.alleles[i];
        let b = parents.1.alleles[j];
        assert(parents.0.alleles@[i as int] == a);
        assert(parents.1.alleles@[j as int] == b);
        let r = Person { parents: Some(Box::new(parents)), alleles: [a, b] };
        assert(r.alleles@[0] == a);
        assert(r.alleles@[1] == b);
        r
    }

    /// Creates a family tree of the given number of generations.
    pub fn create_family(generations: usize) -> (r: Self)
        requires
            generations >= 1,
        ensures
            family_of(r, generations as nat),
    {
        Self::recurse_family(generations)
    }

    /// Creates a family tree by creating the older generations first.
    fn recurse_family(gens_left: usize) -> (r: Self)
        requires
            gens_left >= 1,
        ensures
            family_of(r, gens_left as nat),
        decreases gens_left,
    {
        if gens_left == 1 {
            Self::new()
        } else {
            let first = Self::recurse_family(gens_left - 1);
            let second = Self::recurse_family(gens_left - 1);
            let r = Self::with_parents((first, second));
            r
        }
    }
}


/// The number of generations above and including `p`.
pub open spec fn height(p: Person) -> nat
    decreases p,
{
    match p.parents {
        None => 1,
        Some(pp) => {
            let a = height(pp.0);
            let b = height(pp.1);
            1 + if a >= b { a } else { b }
        },
    }
}

/// The family tree from `p` as text: one line per person, indented by one
/// tab per generation, parents after their child.
pub open spec fn family_text(p: Person, generation: nat) -> Seq<char>
    decreases p,
{
    let line = Seq::new(generation, |i: int| '\t') + "(Generation "@ + decimal(generation) + "): Blood type "@
        + p.alleles@;
    match p.parents {
        None => line,
        Some(pp) => line + seq!['\n'] + family_text(pp.0, generation + 1) + seq!['\n'] + family_text(
            pp.1,
            generation + 1,
        ),
    }
}

fn push_text(out: &mut Vec<char>, s: &str)
    ensures
        final(out)@ == old(out)@ + s@,
{
    let c = chars_of(s);
    let mut i: usize = 0;
    while i < c.len()
        invariant
            i <= c@.len(),
            c@ == s@,
            out@ == old(out)@ + c@.take(i as int),
        decreases c@.len() - i,
    {
        out.push(c[i]);
        assert(out@ =~= old(out)@ + c@.take(i + 1));
        i = i + 1;
    }
    assert(c@.take(i as int) =~= c@);
}

impl Person {
    fn push_family(&self, out: &mut Vec<char>, generation: u32)
        requires
            generation + height(*self) <= u32::MAX,
        ensures
            final(out)@ == old(out)@ + family_text(*self, generation as nat),
        decreases *self,
    {
        let ghost start = out@;
        let mut t: u32 = 0;
        while t < generation
            invariant
                t <= generation,
                out@ == start + Seq::new(t as nat, |i: int| '\t'),
            decreases generation - t,
        {
            out.push('\t');
            assert(out@ =~= start + Seq::new((t + 1) as nat, |i: int| '\t'));
            t = t + 1;
        }
        push_text(out, "(Generation ");
        push_decimal(out, generation as u64);
        push_text(out, "): Blood type ");
        out.push(self.alleles[0]);
        out.push(self.alleles[1]);
        let ghost line = Seq::new(generation as nat, |i: int| '\t') + "(Generation "@ + decimal(generation as nat)
            + "): Blood type "@ + self.alleles@;
        assert(out@ =~= start + line);
        match &self.parents {
            None => {},
            Some(pp) => {
                out.push('\n');
                pp.0.push_family(out, generation + 1);
                out.push('\n');
                pp.1.push_family(out, generation + 1);
                assert(out@ =~= start + line + seq!['\n'] + family_text(pp.0, generation as nat + 1) + seq!['\n']
                    + family_text(pp.1, generation as nat + 1));
            },
        }
    }

    /// The family tree as text, starting at the given generation number.
    pub fn as_string(&self, generation: u32) -> (r: String)
        requires
            generation + height(*self) <= u32::MAX,
        ensures
            r@ == family_text(*self, generation as nat),
    {
        let mut out: Vec<char> = Vec::new();
        self.push_family(&mut out, generation);
        assert(out@ =~= family_text(*self, generation as nat));
        string_from_chars(&out)
    }
}

} // verus!
