//! A single-lookahead cursor over a sequence of characters.
use vstd::prelude::*;

verus! {

/// Position in a character sequence; its view is the part not yet consumed.
pub struct Cursor {
    chars: Vec<char>,
    pos: usize,
}

impl Cursor {
    #[verifier::type_invariant]
    spec fn inv(self) -> bool {
        self.pos <= self.chars.len()
    }
}

impl View for Cursor {
    type V = Seq<char>;

    closed spec fn view(&self) -> Seq<char> {
        self.chars@.skip(self.pos as int)
    }
}

impl Cursor {
    /// A cursor at the start of `chars`.
    pub fn new(chars: Vec<char>) -> (r: Cursor)
        ensures
            r@ == chars@,
    {
        let r = Cursor { chars, pos: 0 };
        assert(r@ =~= chars@);
        r
    }

    /// The next character, without consuming it.
    pub fn peek(&self) -> (r: Option<char>)
        ensures
            self@.len() == 0 ==> r is None,
            self@.len() > 0 ==> r == Some(self@[0]),
    {
        proof {
            use_type_invariant(self);
        }
        if self.pos < self.chars.len() {
            Some(self.chars[self.pos])
        } else {
            None
        }
    }

    /// Consumes the next character when `pred` accepts it.
    pub fn next_if<F: Fn(char) -> bool>(&mut self, pred: F) -> (r: Option<char>)
        requires
            forall|c: char| pred.requires((c,)),
        ensures
            old(self)@.len() == 0 ==> r is None && final(self)@ == old(self)@,
            old(self)@.len() > 0 ==> {
                let c = old(self)@[0];
                ||| pred.ensures((c,), true) && r == Some(c) && final(self)@
                    == old(self)@.drop_first()
                ||| pred.ensures((c,), false) && r is None && final(self)@ == old(self)@
            },
    {
        proof {
            use_type_invariant(&*self);
        }
        if self.pos < self.chars.len() {
            let c = self.chars[self.pos];
            if pred(c) {
                self.pos = self.pos + 1;
                assert(self@ =~= old(self)@.drop_first());
                Some(c)
            } else {
                None
            }
        } else {
            None
        }
    }

    /// Consumes the next character when it equals `expected`.
    pub fn next_if_eq(&mut self, expected: char) -> (r: Option<char>)
        ensures
            old(self)@.len() > 0 && old(self)@[0] == expected ==> r == Some(expected)
                && final(self)@ == old(self)@.drop_first(),
            !(old(self)@.len() > 0 && old(self)@[0] == expected) ==> r is None && final(self)@
                == old(self)@,
    {
        proof {
            use_type_invariant(&*self);
        }
        if self.pos < self.chars.len() && self.chars[self.pos] == expected {
            self.pos = self.pos + 1;
            assert(self@ =~= old(self)@.drop_first());
            Some(expected)
        } else {
            None
        }
    }
}

} // verus!
