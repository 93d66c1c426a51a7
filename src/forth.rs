//! A small Forth interpreter: integers, arithmetic and stack words, and
//! user-defined words.

use vstd::prelude::*;
use crate::text::{chars_of, lowercase, lower_of, trim_of, trimmed};

verus! {

/// A value on the stack.
pub type Value = i32;

/// Errors of evaluation.
#[derive(Clone, Copy, Debug, PartialEq, Eq, Structural)]
pub enum Error {
    DivisionByZero,
    StackUnderflow,
    UnknownWord,
    InvalidWord,
}

/// The words every interpreter starts with.
#[derive(Clone, Copy, Debug, PartialEq, Eq, Structural)]
pub enum Builtin {
    Add,
    Sub,
    Mul,
    Div,
    Dup,
    Drop,
    Swap,
    Over,
}

/// One step of a word's definition.
#[derive(Clone, Copy, Debug, PartialEq, Eq, Structural)]
pub enum Op {
    /// Push a number.
    Push(Value),
    /// Run a built-in word.
    Call(Builtin),
}

/// What a dictionary word does.
pub enum WordAction {
    /// A built-in word.
    Predefined(Builtin),
    /// A user-defined word, its definition resolved to steps when it was defined.
    Custom(Vec<Op>),
}

/// The steps of a dictionary word.
pub open spec fn action_ops(a: WordAction) -> Seq<Op> {
    match a {
        WordAction::Predefined(b) => seq![Op::Call(b)],
        WordAction::Custom(v) => v@,
    }
}

/// `a / b` rounded toward zero, wrapping on `i32::MIN / -1`.
pub open spec fn div_value(a: i32, b: i32) -> i32 {
    match a.checked_div(b) {
        Some(q) => q,
        None => i32::MIN,
    }
}

/// The stack after popping two values and pushing `f` of them; fewer than
/// two values are all popped and the stack underflows.
pub open spec fn binary(s: Seq<Value>, r: Value) -> (Seq<Value>, Option<Error>) {
    if s.len() >= 2 {
        (s.take(s.len() - 2).push(r), None)
    } else {
        (Seq::empty(), Some(Error::StackUnderflow))
    }
}

/// The stack after a built-in word, and its error if any.
pub open spec fn apply(b: Builtin, s: Seq<Value>) -> (Seq<Value>, Option<Error>) {
    let n = s.len();
    let x = if n >= 2 { s[n - 2] } else { 0 };
    let y = if n >= 1 { s[n - 1] } else { 0 };
    match b {
        Builtin::Add => binary(s, x.wrapping_add(y)),
        Builtin::Sub => binary(s, x.wrapping_sub(y)),
        Builtin::Mul => binary(s, x.wrapping_mul(y)),
        Builtin::Div => if n >= 1 && y == 0 {
            (s, Some(Error::DivisionByZero))
        } else {
            binary(s, div_value(x, y))
        },
        Builtin::Dup => if n >= 1 {
            (s.push(y), None)
        } else {
            (s, Some(Error::StackUnderflow))
        },
        Builtin::Drop => if n >= 1 {
            (s.drop_last(), None)
        } else {
            (s, Some(Error::StackUnderflow))
        },
        Builtin::Swap => if n >= 2 {
            (s.take(n - 2).push(y).push(x), None)
        } else {
            (Seq::empty(), Some(Error::StackUnderflow))
        },
        Builtin::Over => if n >= 2 {
            (s.push(x), None)
        } else {
            (s, Some(Error::StackUnderflow))
        },
    }
}

/// The stack after one step.
pub open spec fn step(op: Op, s: Seq<Value>) -> (Seq<Value>, Option<Error>) {
    match op {
        Op::Push(v) => (s.push(v), None),
        Op::Call(b) => apply(b, s),
    }
}

/// The stack after running steps in order, stopping at the first error.
pub open spec fn run_ops(s: Seq<Value>, ops: Seq<Op>) -> (Seq<Value>, Option<Error>)
    decreases ops.len(),
{
    if ops.len() == 0 {
        (s, None)
    } else {
        let (s1, e) = step(ops[0], s);
        if e is Some {
            (s1, e)
        } else {
            run_ops(s1, ops.drop_first())
        }
    }
}

/// The value of a sequence of decimal digits.
pub open spec fn digits_value(d: Seq<char>) -> int
    decreases d.len(),
{
    if d.len() == 0 {
        0
    } else {
        digits_value(d.drop_last()) * 10 + (d.last() as int - '0' as int)
    }
}

/// Every character is an ASCII digit.
pub open spec fn all_digits(d: Seq<char>) -> bool {
    forall|i: int| 0 <= i < d.len() ==> '0' <= #[trigger] d[i] <= '9'
}

/// A word read as an `i32`: an optional sign, one or more digits, and a
/// value in range.
pub open spec fn parse_value(w: Seq<char>) -> Option<i32> {
    let signed = w.len() > 0 && (w[0] == '-' || w[0] == '+');
    let d = if signed { w.drop_first() } else { w };
    let v = if signed && w[0] == '-' { -digits_value(d) } else { digits_value(d) };
    if d.len() > 0 && all_digits(d) && i32::MIN <= v <= i32::MAX {
        Some(v as i32)
    } else {
        None
    }
}

/// The words of a text split at each single space, empty words included.
pub open spec fn split_words(s: Seq<char>) -> Seq<Seq<char>>
    decreases s.len(),
{
    if s.len() == 0 {
        seq![Seq::empty()]
    } else {
        let prev = split_words(s.drop_last());
        if s.last() == ' ' {
            prev.push(Seq::empty())
        } else {
            prev.update(prev.len() - 1, prev.last().push(s.last()))
        }
    }
}

/// The latest definition of `w` in the dictionary.
pub open spec fn lookup(dict: Seq<(Seq<char>, Seq<Op>)>, w: Seq<char>) -> Option<Seq<Op>>
    decreases dict.len(),
{
    if dict.len() == 0 {
        None
    } else if dict.last().0 == w {
        Some(dict.last().1)
    } else {
        lookup(dict.drop_last(), w)
    }
}

/// The steps of the body words `body` (a definition's words after its name),
/// up to `;`: numbers become pushes and dictionary words their steps. Gives
/// the steps and the number of body words, or an error.
pub open spec fn resolve_body(dict: Seq<(Seq<char>, Seq<Op>)>, body: Seq<Seq<char>>) -> Result<(Seq<Op>, nat), Error>
    decreases body.len(),
{
    if body.len() == 0 {
        Err(Error::InvalidWord)
    } else if body[0] == seq![';'] {
        Ok((Seq::empty(), 0))
    } else {
        let first = match parse_value(body[0]) {
            Some(v) => Some(seq![Op::Push(v)]),
            None => lookup(dict, body[0]),
        };
        match first {
            None => Err(Error::UnknownWord),
            Some(ops) => match resolve_body(dict, body.drop_first()) {
                Ok((rest, n)) => Ok((ops + rest, n + 1)),
                Err(e) => Err(e),
            },
        }
    }
}

/// Defining a word from `def` (which starts with `:`): the new dictionary
/// and the position of `;`. The definition is run once on the current
/// stack; an error there fails the definition, and a definition that leaves
/// the stack as it was is stored empty.
pub open spec fn define(s: Seq<Value>, dict: Seq<(Seq<char>, Seq<Op>)>, def: Seq<Seq<char>>) -> Result<
    (Seq<(Seq<char>, Seq<Op>)>, nat),
    Error,
> {
    if def.len() < 4 || parse_value(def[1]) is Some {
        Err(Error::InvalidWord)
    } else {
        match resolve_body(dict, def.skip(2)) {
            Err(e) => Err(e),
            Ok((ops, n)) => {
                let (s2, e) = run_ops(s, ops);
                if e is Some {
                    Err(e->0)
                } else {
                    let stored = if s2 == s { Seq::empty() } else { ops };
                    Ok((dict.push((def[1], stored)), n + 2))
                }
            },
        }
    }
}

/// The state after evaluating `words` in order: the stack, the dictionary
/// and the first error, if any.
pub open spec fn eval_words(s: Seq<Value>, dict: Seq<(Seq<char>, Seq<Op>)>, words: Seq<Seq<char>>) -> (
    Seq<Value>,
    Seq<(Seq<char>, Seq<Op>)>,
    Option<Error>,
)
    decreases words.len(),
{
    if words.len() == 0 {
        (s, dict, None)
    } else if parse_value(words[0]) is Some {
        eval_words(s.push(parse_value(words[0])->0), dict, words.drop_first())
    } else if words[0] == seq![':'] {
        match define(s, dict, words) {
            Err(e) => (s, dict, Some(e)),
            Ok((d2, semi)) => if semi + 1 <= words.len() {
                eval_words(s, d2, words.skip(semi + 1 as int))
            } else {
                (s, d2, None)
            },
        }
    } else {
        match lookup(dict, words[0]) {
            None => (s, dict, Some(Error::UnknownWord)),
            Some(ops) => {
                let (s2, e) = run_ops(s, ops);
                if e is Some {
                    (s2, dict, e)
                } else {
                    eval_words(s2, dict, words.drop_first())
                }
            },
        }
    }
}

/// The words that evaluating `input` reads: the input trimmed, in lower
/// case, split at single spaces.
pub open spec fn input_words(input: Seq<char>) -> Seq<Seq<char>> {
    split_words(lower_of(trim_of(input)))
}

} // verus!

verus! {

/// The views of a list of words.
pub open spec fn word_views(words: Seq<Vec<char>>) -> Seq<Seq<char>> {
    Seq::new(words.len(), |i: int| words[i]@)
}

/// The dictionary an interpreter starts with.
pub open spec fn initial_dict() -> Seq<(Seq<char>, Seq<Op>)> {
    seq![
        (seq!['+'], seq![Op::Call(Builtin::Add)]),
        (seq!['-'], seq![Op::Call(Builtin::Sub)]),
        (seq!['*'], seq![Op::Call(Builtin::Mul)]),
        (seq!['/'], seq![Op::Call(Builtin::Div)]),
        (seq!['d', 'u', 'p'], seq![Op::Call(Builtin::Dup)]),
        (seq!['d', 'r', 'o', 'p'], seq![Op::Call(Builtin::Drop)]),
        (seq!['s', 'w', 'a', 'p'], seq![Op::Call(Builtin::Swap)]),
        (seq!['o', 'v', 'e', 'r'], seq![Op::Call(Builtin::Over)]),
    ]
}

/// Body steps `acc` and `k` body words already read, before the result of
/// reading the rest.
pub open spec fn prepend(acc: Seq<Op>, k: nat, rest: Result<(Seq<Op>, nat), Error>) -> Result<(Seq<Op>, nat), Error> {
    match rest {
        Ok((ops, n)) => Ok((acc + ops, n + k)),
        Err(e) => Err(e),
    }
}

proof fn lemma_digits_monotone(d: Seq<char>, k: int)
    requires
        all_digits(d),
        0 <= k <= d.len(),
    ensures
        0 <= digits_value(d.take(k)) <= digits_value(d),
    decreases d.len() - k,
{
    if k < d.len() {
        lemma_digits_monotone(d, k + 1);
        assert(d.take(k + 1).drop_last() =~= d.take(k));
        lemma_digits_nonneg(d.take(k));
    } else {
        assert(d.take(k) =~= d);
        lemma_digits_nonneg(d);
    }
}

proof fn lemma_digits_nonneg(d: Seq<char>)
    requires
        all_digits(d),
    ensures
        digits_value(d) >= 0,
    decreases d.len(),
{
    if d.len() > 0 {
        lemma_digits_nonneg(d.drop_last());
    }
}

/// Reads a word as an `i32`, as `str::parse` does.
pub fn parse_word(w: &Vec<char>) -> (r: Option<i32>)
    ensures
        r == parse_value(w@),
{
    let n = w.len();
    let signed = n > 0 && (w[0] == '-' || w[0] == '+');
    let neg = signed && w[0] == '-';
    let start: usize = if signed { 1 } else { 0 };
    let ghost d = if signed { w@.drop_first() } else { w@ };
    assert(d =~= w@.skip(start as int));
    if start >= n {
        return None;
    }
    let mut acc: i64 = 0;
    let mut i: usize = start;
    while i < n
        invariant
            n == w@.len(),
            start <= i <= n,
            d == w@.skip(start as int),
            signed == (w@.len() > 0 && (w@[0] == '-' || w@[0] == '+')),
            neg == (signed && w@[0] == '-'),
            d == (if signed { w@.drop_first() } else { w@ }),
            forall|j: int| 0 <= j < i - start ==> '0' <= #[trigger] d[j] <= '9',
            acc == digits_value(d.take(i - start)),
            0 <= acc <= 2147483648,
        decreases n - i,
    {
        let c = w[i];
        if !('0' <= c && c <= '9') {
            assert(d[i - start] == c);
            assert(!all_digits(d));
            return None;
        }
        let digit = (c as u32 - '0' as u32) as i64;
        assert(d.take(i - start + 1).drop_last() =~= d.take(i - start));
        assert(d[i - start] == c);
        let next = acc * 10 + digit;
        if next > 2147483648 {
            proof {
                assert(d.take(i - start + 1).last() == c);
                assert(digits_value(d.take(i - start + 1)) == next);
                if all_digits(d) {
                    lemma_digits_monotone(d, i - start + 1);
                    assert(digits_value(d) > 2147483648);
                }
            }
            return None;
        }
        acc = next;
        i = i + 1;
    }
    assert(d.take(i - start) =~= d);
    if neg {
        Some((-acc) as i32)
    } else if acc <= 2147483647 {
        Some(acc as i32)
    } else {
        None
    }
}

/// Splits a text at each single space.
pub fn split_input(chars: &Vec<char>) -> (r: Vec<Vec<char>>)
    ensures
        word_views(r@) == split_words(chars@),
{
    let mut words: Vec<Vec<char>> = Vec::new();
    let mut current: Vec<char> = Vec::new();
    let mut i: usize = 0;
    while i < chars.len()
        invariant
            i <= chars@.len(),
            word_views(words@).push(current@) == split_words(chars@.take(i as int)),
        decreases chars@.len() - i,
    {
        let c = chars[i];
        let ghost before = word_views(words@).push(current@);
        assert(chars@.take(i + 1).drop_last() =~= chars@.take(i as int));
        if c == ' ' {
            let done = current;
            current = Vec::new();
            words.push(done);
            assert(word_views(words@).push(current@) =~= before.push(Seq::empty()));
        } else {
            current.push(c);
            assert(word_views(words@).push(current@) =~= before.update(before.len() - 1, before.last().push(c)));
        }
        i = i + 1;
    }
    assert(chars@.take(i as int) =~= chars@);
    words.push(current);
    words
}

/// The two words are the same.
fn same_word(a: &Vec<char>, b: &Vec<char>) -> (r: bool)
    ensures
        r == (a@ == b@),
{
    if a.len() != b.len() {
        return false;
    }
    let mut i: usize = 0;
    while i < a.len()
        invariant
            a@.len() == b@.len(),
            i <= a@.len(),
            forall|j: int| 0 <= j < i ==> a@[j] == b@[j],
        decreases a@.len() - i,
    {
        if a[i] != b[i] {
            return false;
        }
        i = i + 1;
    }
    assert(a@ =~= b@);
    true
}

/// A Forth interpreter: a stack and a dictionary of words.
pub struct Forth {
    stack: Vec<Value>,
    names: Vec<Vec<char>>,
    actions: Vec<WordAction>,
}

impl Forth {
    /// The stack, bottom first.
    pub closed spec fn spec_stack(&self) -> Seq<Value> {
        self.stack@
    }

    /// The dictionary, oldest definition first.
    pub closed spec fn dict(&self) -> Seq<(Seq<char>, Seq<Op>)> {
        Seq::new(self.names@.len(), |i: int| (self.names@[i]@, action_ops(self.actions@[i])))
    }

    /// One action per name.
    pub closed spec fn wf(&self) -> bool {
        self.names@.len() == self.actions@.len()
    }

    /// Creates an interpreter with an empty stack and the built-in words.
    pub fn new() -> (r: Forth)
        ensures
            r.wf(),
            r.spec_stack() == Seq::<Value>::empty(),
            r.dict() == initial_dict(),
    {
        let names = vec![
            vec!['+'],
            vec!['-'],
            vec!['*'],
            vec!['/'],
            vec!['d', 'u', 'p'],
            vec!['d', 'r', 'o', 'p'],
            vec!['s', 'w', 'a', 'p'],
            vec!['o', 'v', 'e', 'r'],
        ];
        let actions = vec![
            WordAction::Predefined(Builtin::Add),
            WordAction::Predefined(Builtin::Sub),
            WordAction::Predefined(Builtin::Mul),
            WordAction::Predefined(Builtin::Div),
            WordAction::Predefined(Builtin::Dup),
            WordAction::Predefined(Builtin::Drop),
            WordAction::Predefined(Builtin::Swap),
            WordAction::Predefined(Builtin::Over),
        ];
        let r = Forth { stack: Vec::new(), names, actions };
        assert(r.dict() =~~= initial_dict());
        r
    }

    /// The stack, bottom first.
    pub fn stack(&self) -> (r: &[Value])
        ensures
            r@ == self.spec_stack(),
    {
        self.stack.as_slice()
    }

    /// Pushes a value.
    pub fn push(&mut self, value: Value)
        ensures
            final(self).spec_stack() == old(self).spec_stack().push(value),
            final(self).dict() == old(self).dict(),
            final(self).wf() == old(self).wf(),
    {
        self.stack.push(value);
    }

    /// Pops two values and pushes the result of the arithmetic word `op`
    /// on them; with fewer than two values the stack is emptied and underflows.
    pub fn operate(&mut self, op: Builtin) -> (r: Result<(), Error>)
        requires
            op == Builtin::Add || op == Builtin::Sub || op == Builtin::Mul || (op == Builtin::Div
                && !(old(self).spec_stack().len() >= 1 && old(self).spec_stack().last() == 0)),
        ensures
            (final(self).spec_stack(), r.err()) == apply(op, old(self).spec_stack()),
            final(self).dict() == old(self).dict(),
            final(self).wf() == old(self).wf(),
    {
        let ghost s = self.stack@;
        let top = self.stack.pop();
        let below = self.stack.pop();
        match (top, below) {
            (Some(y), Some(x)) => {
                let v = match op {
                    Builtin::Add => x.wrapping_add(y),
                    Builtin::Sub => x.wrapping_sub(y),
                    Builtin::Mul => x.wrapping_mul(y),
                    _ => match x.checked_div(y) {
                        Some(q) => q,
                        None => i32::MIN,
                    },
                };
                self.stack.push(v);
                assert(self.stack@ =~= s.take(s.len() - 2).push(v));
                Ok(())
            },
            _ => {
                assert(self.stack@ =~= Seq::<Value>::empty());
                Err(Error::StackUnderflow)
            },
        }
    }

    /// `+`: adds the two top values, wrapping on overflow.
    pub fn add(&mut self) -> (r: Result<(), Error>)
        ensures
            (final(self).spec_stack(), r.err()) == apply(Builtin::Add, old(self).spec_stack()),
            final(self).dict() == old(self).dict(),
            final(self).wf() == old(self).wf(),
    {
        self.operate(Builtin::Add)
    }

    /// `-`: subtracts the top value from the one below, wrapping on overflow.
    pub fn sub(&mut self) -> (r: Result<(), Error>)
        ensures
            (final(self).spec_stack(), r.err()) == apply(Builtin::Sub, old(self).spec_stack()),
            final(self).dict() == old(self).dict(),
            final(self).wf() == old(self).wf(),
    {
        self.operate(Builtin::Sub)
    }

    /// `*`: multiplies the two top values, wrapping on overflow.
    pub fn mul(&mut self) -> (r: Result<(), Error>)
        ensures
            (final(self).spec_stack(), r.err()) == apply(Builtin::Mul, old(self).spec_stack()),
            final(self).dict() == old(self).dict(),
            final(self).wf() == old(self).wf(),
    {
        self.operate(Builtin::Mul)
    }

    /// `/`: divides the value below the top by the top, rounding toward zero.
    pub fn div(&mut self) -> (r: Result<(), Error>)
        ensures
            (final(self).spec_stack(), r.err()) == apply(Builtin::Div, old(self).spec_stack()),
            final(self).dict() == old(self).dict(),
            final(self).wf() == old(self).wf(),
    {
        let n = self.stack.len();
        if n >= 1 && self.stack[n - 1] == 0 {
            Err(Error::DivisionByZero)
        } else {
            self.operate(Builtin::Div)
        }
    }

    /// `dup`: pushes a copy of the top value.
    pub fn dup(&mut self) -> (r: Result<(), Error>)
        ensures
            (final(self).spec_stack(), r.err()) == apply(Builtin::Dup, old(self).spec_stack()),
            final(self).dict() == old(self).dict(),
            final(self).wf() == old(self).wf(),
    {
        let n = self.stack.len();
        if n >= 1 {
            let v = self.stack[n - 1];
            self.stack.push(v);
            Ok(())
        } else {
            Err(Error::StackUnderflow)
        }
    }

    /// `drop`: removes the top value.
    pub fn drop(&mut self) -> (r: Result<(), Error>)
        ensures
            (final(self).spec_stack(), r.err()) == apply(Builtin::Drop, old(self).spec_stack()),
            final(self).dict() == old(self).dict(),
            final(self).wf() == old(self).wf(),
    {
        match self.stack.pop() {
            Some(_) => Ok(()),
            None => Err(Error::StackUnderflow),
        }
    }

    /// `swap`: exchanges the two top values; with fewer than two the stack is
    /// emptied and underflows.
    pub fn swap(&mut self) -> (r: Result<(), Error>)
        ensures
            (final(self).spec_stack(), r.err()) == apply(Builtin::Swap, old(self).spec_stack()),
            final(self).dict() == old(self).dict(),
            final(self).wf() == old(self).wf(),
    {
        let ghost s = self.stack@;
        let top = self.stack.pop();
        let below = self.stack.pop();
        match (top, below) {
            (Some(n1), Some(n2)) => {
                self.stack.push(n1);
                self.stack.push(n2);
                assert(self.stack@ =~= s.take(s.len() - 2).push(n1).push(n2));
                Ok(())
            },
            _ => {
                assert(self.stack@ =~= Seq::<Value>::empty());
                Err(Error::StackUnderflow)
            },
        }
    }

    /// `over`: pushes a copy of the value below the top.
    pub fn over(&mut self) -> (r: Result<(), Error>)
        ensures
            (final(self).spec_stack(), r.err()) == apply(Builtin::Over, old(self).spec_stack()),
            final(self).dict() == old(self).dict(),
            final(self).wf() == old(self).wf(),
    {
        let n = self.stack.len();
        if n < 2 {
            Err(Error::StackUnderflow)
        } else {
            let v = self.stack[n - 2];
            self.stack.push(v);
            Ok(())
        }
    }

    /// Runs a built-in word.
    fn run_builtin(&mut self, b: Builtin) -> (r: Result<(), Error>)
        ensures
            (final(self).spec_stack(), r.err()) == apply(b, old(self).spec_stack()),
            final(self).dict() == old(self).dict(),
            final(self).wf() == old(self).wf(),
    {
        match b {
            Builtin::Add => self.add(),
            Builtin::Sub => self.sub(),
            Builtin::Mul => self.mul(),
            Builtin::Div => self.div(),
            Builtin::Dup => self.dup(),
            Builtin::Drop => self.drop(),
            Builtin::Swap => self.swap(),
            Builtin::Over => self.over(),
        }
    }

    /// Runs steps in order, stopping at the first error.
    fn run(&mut self, ops: &Vec<Op>) -> (r: Result<(), Error>)
        ensures
            (final(self).spec_stack(), r.err()) == run_ops(old(self).spec_stack(), ops@),
            final(self).dict() == old(self).dict(),
            final(self).wf() == old(self).wf(),
    {
        let mut i: usize = 0;
        assert(ops@.skip(0) =~= ops@);
        while i < ops.len()
            invariant
                i <= ops@.len(),
                run_ops(old(self).spec_stack(), ops@) == run_ops(self.spec_stack(), ops@.skip(i as int)),
                self.dict() == old(self).dict(),
                self.wf() == old(self).wf(),
            decreases ops@.len() - i,
        {
            let ghost s = self.spec_stack();
            assert(ops@.skip(i as int)[0] == ops@[i as int]);
            assert(ops@.skip(i as int).drop_first() =~= ops@.skip(i + 1));
            let res = match ops[i] {
                Op::Push(v) => {
                    self.push(v);
                    Ok(())
                },
                Op::Call(b) => self.run_builtin(b),
            };
            assert((self.spec_stack(), res.err()) == step(ops@[i as int], s));
            if res.is_err() {
                return res;
            }
            i = i + 1;
        }
        assert(ops@.skip(i as int) =~= Seq::<Op>::empty());
        Ok(())
    }

    /// The index of the latest definition of a word.
    fn find_word(&self, w: &Vec<char>) -> (r: Option<usize>)
        requires
            self.wf(),
        ensures
            match r {
                Some(i) => i < self.names@.len() && lookup(self.dict(), w@) == Some(action_ops(self.actions@[i as int])),
                None => lookup(self.dict(), w@) is None,
            },
    {
        let mut i: usize = self.names.len();
        assert(self.dict().take(i as int) =~= self.dict());
        while i > 0
            invariant
                self.wf(),
                i <= self.names@.len(),
                lookup(self.dict(), w@) == lookup(self.dict().take(i as int), w@),
            decreases i,
        {
            assert(self.dict().take(i as int).drop_last() =~= self.dict().take(i - 1));
            if same_word(&self.names[i - 1], w) {
                return Some(i - 1);
            }
            i = i - 1;
        }
        None
    }

    /// A copy of the steps of dictionary word `i`.
    fn ops_of(&self, i: usize) -> (r: Vec<Op>)
        requires
            self.wf(),
            i < self.names@.len(),
        ensures
            r@ == action_ops(self.actions@[i as int]),
    {
        match &self.actions[i] {
            WordAction::Predefined(b) => vec![Op::Call(*b)],
            WordAction::Custom(v) => {
                let mut out: Vec<Op> = Vec::new();
                let mut k: usize = 0;
                while k < v.len()
                    invariant
                        k <= v@.len(),
                        out@ == v@.take(k as int),
                    decreases v@.len() - k,
                {
                    out.push(v[k]);
                    assert(out@ =~= v@.take(k + 1));
                    k = k + 1;
                }
                assert(v@.take(k as int) =~= v@);
                out
            },
        }
    }

    /// A copy of the stack.
    fn stack_copy(&self) -> (r: Vec<Value>)
        ensures
            r@ == self.stack@,
    {
        let mut out: Vec<Value> = Vec::new();
        let mut k: usize = 0;
        while k < self.stack.len()
            invariant
                k <= self.stack@.len(),
                out@ == self.stack@.take(k as int),
            decreases self.stack@.len() - k,
        {
            out.push(self.stack[k]);
            assert(out@ =~= self.stack@.take(k + 1));
            k = k + 1;
        }
        assert(self.stack@.take(k as int) =~= self.stack@);
        out
    }

    /// Defines a word from the words that start at `start`: `:`, the name,
    /// the body and `;`. Gives the position of `;` counted from `start`.
    fn define_at(&mut self, words: &Vec<Vec<char>>, start: usize) -> (r: Result<usize, Error>)
        requires
            old(self).wf(),
            start <= words@.len(),
        ensures
            final(self).wf(),
            final(self).spec_stack() == old(self).spec_stack(),
            match define(old(self).spec_stack(), old(self).dict(), word_views(words@).skip(start as int)) {
                Ok((d2, semi)) => r == Ok::<usize, Error>(semi as usize) && final(self).dict() == d2 && start + semi
                    < words@.len(),
                Err(e) => r == Err::<usize, Error>(e) && final(self).dict() == old(self).dict(),
            },
    {
        let ghost w = word_views(words@);
        let ghost def = w.skip(start as int);
        let ghost dict = self.dict();
        let ghost s0 = self.spec_stack();
        if words.len() - start < 4 {
            return Err(Error::InvalidWord);
        }
        assert(def[1] == words@[start + 1]@);
        if parse_word(&words[start + 1]).is_some() {
            return Err(Error::InvalidWord);
        }
        let semicolon: Vec<char> = vec![';'];
        let mut ops: Vec<Op> = Vec::new();
        let mut j: usize = start + 2;
        let mut found = false;
        assert(def.skip(2) =~= w.skip(j as int));
        assert(ops@ + Seq::<Op>::empty() =~= ops@);
        while !found && j < words.len()
            invariant
                self.wf(),
                self.dict() == dict,
                self.spec_stack() == s0,
                w == word_views(words@),
                def == w.skip(start as int),
                def.len() >= 4,
                parse_value(def[1]) is None,
                start + 2 <= j <= words@.len(),
                semicolon@ == seq![';'],
                found ==> j < words@.len() && w[j as int] == seq![';'],
                !found ==> resolve_body(dict, def.skip(2)) == prepend(ops@, (j - start - 2) as nat, resolve_body(dict, w.skip(j as int))),
                found ==> resolve_body(dict, def.skip(2)) == Ok::<(Seq<Op>, nat), Error>((ops@, (j - start - 2) as nat)),
            decreases words@.len() - j, if found { 0int } else { 1int },
        {
            let ghost rest = w.skip(j as int);
            assert(rest[0] == words@[j as int]@);
            assert(rest.drop_first() =~= w.skip(j + 1));
            if same_word(&words[j], &semicolon) {
                assert(ops@ + Seq::<Op>::empty() =~= ops@);
                found = true;
            } else {
                let ghost before = ops@;
                let ghost first: Seq<Op>;
                match parse_word(&words[j]) {
                    Some(v) => {
                        ops.push(Op::Push(v));
                        proof { first = seq![Op::Push(v)]; }
                        assert(ops@ =~= before + first);
                    },
                    None => match self.find_word(&words[j]) {
                        Some(k) => {
                            let more = self.ops_of(k);
                            let mut t: usize = 0;
                            while t < more.len()
                                invariant
                                    t <= more@.len(),
                                    ops@ == before + more@.take(t as int),
                                decreases more@.len() - t,
                            {
                                ops.push(more[t]);
                                assert(ops@ =~= before + more@.take(t + 1));
                                t = t + 1;
                            }
                            assert(more@.take(t as int) =~= more@);
                            proof { first = more@; }
                        },
                        None => {
                            return Err(Error::UnknownWord);
                        },
                    },
                }
                proof {
                    match resolve_body(dict, w.skip(j + 1)) {
                        Ok((tail, n)) => {
                            assert(before + (first + tail) =~= (before + first) + tail);
                        },
                        Err(_) => {},
                    }
                }
                j = j + 1;
            }
        }
        if !found {
            assert(w.skip(j as int) =~= Seq::<Seq<char>>::empty());
            return Err(Error::InvalidWord);
        }
        let saved = self.stack_copy();
        let res = self.run(&ops);
        let after = self.stack_copy();
        self.stack = saved;
        if let Err(e) = res {
            return Err(e);
        }
        let mut unchanged = after.len() == self.stack.len();
        let mut k: usize = 0;
        while unchanged && k < after.len()
            invariant
                k <= after@.len(),
                unchanged ==> after@.len() == self.stack@.len() && forall|t: int| 0 <= t < k ==> after@[t] == self.stack@[t],
                !unchanged ==> after@ != self.stack@,
            decreases after@.len() - k,
        {
            if after[k] != self.stack[k] {
                unchanged = false;
            }
            k = k + 1;
        }
        if unchanged {
            assert(after@ =~= self.stack@);
        }
        let stored = if unchanged { Vec::new() } else { ops };
        let mut name: Vec<char> = Vec::new();
        let src = &words[start + 1];
        let mut t: usize = 0;
        while t < src.len()
            invariant
                t <= src@.len(),
                name@ == src@.take(t as int),
            decreases src@.len() - t,
        {
            name.push(src[t]);
            assert(name@ =~= src@.take(t + 1));
            t = t + 1;
        }
        assert(src@.take(t as int) =~= src@);
        let ghost entry = (name@, stored@);
        self.names.push(name);
        self.actions.push(WordAction::Custom(stored));
        assert(self.dict() =~= dict.push(entry));
        Ok(j - start)
    }

    /// Defines a word from its words: `:`, the name, the body and `;`. Numbers
    /// in the body are pushed; dictionary words stand for their definitions
    /// at this moment. Gives the position of `;`.
    pub fn define_word(&mut self, definition: &Vec<Vec<char>>) -> (r: Result<usize, Error>)
        requires
            old(self).wf(),
        ensures
            final(self).wf(),
            final(self).spec_stack() == old(self).spec_stack(),
            match define(old(self).spec_stack(), old(self).dict(), word_views(definition@)) {
                Ok((d2, semi)) => r == Ok::<usize, Error>(semi as usize) && final(self).dict() == d2,
                Err(e) => r == Err::<usize, Error>(e) && final(self).dict() == old(self).dict(),
            },
    {
        assert(word_views(definition@).skip(0) =~= word_views(definition@));
        self.define_at(definition, 0)
    }

    /// Evaluates a line of input: it is trimmed, put in lower case and split
    /// at single spaces; numbers are pushed, `: name body ;` defines a word,
    /// and other words run. Stops at the first error, keeping what was done.
    pub fn eval(&mut self, input: &str) -> (r: Result<(), Error>)
        requires
            old(self).wf(),
        ensures
            final(self).wf(),
            input@.len() == 0 ==> r is Ok && final(self).spec_stack() == old(self).spec_stack() && final(self).dict()
                == old(self).dict(),
            input@.len() > 0 ==> ({
                let (s, d, e) = eval_words(old(self).spec_stack(), old(self).dict(), input_words(input@));
                &&& final(self).spec_stack() == s
                &&& final(self).dict() == d
                &&& r == match e {
                    Some(x) => Err::<(), Error>(x),
                    None => Ok::<(), Error>(()),
                }
            }),
    {
        let raw = chars_of(input);
        if raw.len() == 0 {
            return Ok(());
        }
        assert(input@.len() > 0);
        let t = trimmed(input);
        let low = lowercase(t.as_str());
        let lc = chars_of(low.as_str());
        let words = split_input(&lc);
        let ghost w = word_views(words@);
        let colon: Vec<char> = vec![':'];
        let mut i: usize = 0;
        assert(w.skip(0) =~= w);
        while i < words.len()
            invariant
                self.wf(),
                w == word_views(words@),
                w == input_words(input@),
                colon@ == seq![':'],
                input@.len() > 0,
                i <= words@.len(),
                eval_words(old(self).spec_stack(), old(self).dict(), w) == eval_words(self.spec_stack(), self.dict(), w.skip(i as int)),
            decreases words@.len() - i,
        {
            let ghost rest = w.skip(i as int);
            assert(rest[0] == words@[i as int]@);
            assert(rest.drop_first() =~= w.skip(i + 1));
            match parse_word(&words[i]) {
                Some(v) => {
                    self.push(v);
                    i = i + 1;
                },
                None => {
                    if same_word(&words[i], &colon) {
                        match self.define_at(&words, i) {
                            Ok(semi) => {
                                assert(rest.skip(semi + 1 as int) =~= w.skip(i + semi + 1));
                                i = i + semi + 1;
                            },
                            Err(e) => {
                                return Err(e);
                            },
                        }
                    } else {
                        match self.find_word(&words[i]) {
                            None => {
                                return Err(Error::UnknownWord);
                            },
                            Some(k) => {
                                let ops = self.ops_of(k);
                                match self.run(&ops) {
                                    Ok(()) => {
                                        i = i + 1;
                                    },
                                    Err(e) => {
                                        return Err(e);
                                    },
                                }
                            },
                        }
                    }
                },
            }
        }
        assert(w.skip(i as int) =~= Seq::<Seq<char>>::empty());
        Ok(())
    }

}

} // verus!
