//! A cookie jar with a fixed capacity.

use vstd::prelude::*;

verus! {

/// An error caused by trying to move the jar into an invalid state.
#[derive(Clone, Copy, Debug, PartialEq, Eq, Structural)]
pub enum JarError {
    /// Depositing more cookies than the jar can hold.
    Overflow,
    /// Withdrawing more cookies than the jar holds.
    Underflow,
}

/// A jar used to hold cookies.
pub struct CookieJar {
    /// The max number of cookies that the jar can hold.
    capacity: u32,
    /// Number of cookies that the jar currently holds.
    cookies: u32,
}

impl CookieJar {
    /// The max number of cookies that the jar can hold.
    pub closed spec fn spec_capacity(&self) -> nat {
        self.capacity as nat
    }

    /// Number of cookies in the jar.
    pub closed spec fn spec_size(&self) -> nat {
        self.cookies as nat
    }

    /// The jar never holds more than its capacity.
    pub closed spec fn wf(&self) -> bool {
        self.cookies <= self.capacity
    }

    /// Creates a new empty cookie jar with the given capacity.
    pub fn new(capacity: u32) -> (r: Self)
        ensures
            r.wf(),
            r.spec_size() <= r.spec_capacity(),
            r.spec_capacity() == capacity,
            r.spec_size() == 0,
    {
        CookieJar { capacity, cookies: 0 }
    }

    /// Deposits cookies; fails, changing nothing, if the jar would then hold
    /// more than its capacity.
    pub fn deposit(&mut self, cookies: u32) -> (r: Result<(), JarError>)
        requires
            old(self).wf(),
        ensures
            final(self).wf(),
            final(self).spec_size() <= final(self).spec_capacity(),
            final(self).spec_capacity() == old(self).spec_capacity(),
            r is Ok <==> old(self).spec_size() + cookies <= old(self).spec_capacity(),
            r is Ok ==> final(self).spec_size() == old(self).spec_size() + cookies,
            r matches Err(e) ==> e == JarError::Overflow && final(self).spec_size() == old(self).spec_size(),
    {
        if cookies > self.capacity - self.cookies {
            Err(JarError::Overflow)
        } else {
            self.cookies = self.cookies + cookies;
            Ok(())
        }
    }

    /// Withdraws cookies; fails, changing nothing, if the jar holds fewer.
    pub fn withdraw(&mut self, cookies: u32) -> (r: Result<(), JarError>)
        requires
            old(self).wf(),
        ensures
            final(self).wf(),
            final(self).spec_size() <= final(self).spec_capacity(),
            final(self).spec_capacity() == old(self).spec_capacity(),
            r is Ok <==> cookies <= old(self).spec_size(),
            r is Ok ==> final(self).spec_size() == old(self).spec_size() - cookies,
            r matches Err(e) ==> e == JarError::Underflow && final(self).spec_size() == old(self).spec_size(),
    {
        if cookies > self.cookies {
            Err(JarError::Underflow)
        } else {
            self.cookies = self.cookies - cookies;
            Ok(())
        }
    }

    /// The max number of cookies that the jar can hold.
    pub fn capacity(&self) -> (r: u32)
        ensures
            r == self.spec_capacity(),
    {
        self.capacity
    }

    /// Number of cookies that the jar currently holds.
    pub fn size(&self) -> (r: u32)
        requires
            self.wf(),
        ensures
            r == self.spec_size(),
            r <= self.spec_capacity(),
    {
        self.cookies
    }

    /// The jar drawn as one cookie character per cookie.
    pub fn as_string(&self) -> (r: String)
        ensures
            r@ == Seq::new(self.spec_size(), |i: int| '\u{1F36A}'),
    {
        let mut out: Vec<char> = Vec::new();
        let mut i: u32 = 0;
        while i < self.cookies
            invariant
                i <= self.cookies,
                out@ == Seq::new(i as nat, |j: int| '\u{1F36A}'),
            decreases self.cookies - i,
        {
            out.push('\u{1F36A}');
            i = i + 1;
            assert(out@ =~= Seq::new(i as nat, |j: int| '\u{1F36A}'));
        }
        crate::text::string_from_chars(&out)
    }
}

} // verus!
