//! A `Scope` is a hierarchical dotted identifier such as `source.ruby.rails`.
//! Two scopes are equal exactly when their textual forms are equal.

use vstd::prelude::*;

use crate::strutil::str_eq_str;

verus! {

/// A dotted scope label. Equality and ordering are purely lexical.
#[derive(Debug)]
pub struct Scope {
    repr: String,
}

impl View for Scope {
    type V = Seq<char>;

    closed spec fn view(&self) -> Seq<char> {
        self.repr@
    }
}

impl Clone for Scope {
    fn clone(&self) -> (res: Scope)
        ensures
            res@ == self@,
    {
        Scope { repr: self.repr.clone() }
    }
}

impl Scope {
    /// Builds a scope from its textual form.
    pub fn new(s: &str) -> (res: Scope)
        ensures
            res@ == s@,
    {
        Scope { repr: s.to_owned() }
    }

    /// The textual form of the scope.
    pub fn as_str(&self) -> (res: &str)
        ensures
            res@ == self@,
    {
        self.repr.as_str()
    }

    /// Lexical equality of two scopes.
    pub fn eq_scope(&self, other: &Scope) -> (r: bool)
        ensures
            r == (self@ == other@),
    {
        self.repr == other.repr
    }

    /// `self` is a dotted prefix of `other`: either the same scope, or
    /// `other` continues with a `.` right after `self` (`a.b` ⊑ `a.b.c`).
    pub open spec fn spec_is_prefix_of(self, other: Scope) -> bool {
        self@.len() <= other@.len() && other@.take(self@.len() as int) =~= self@ && (self@.len()
            < other@.len() ==> other@[self@.len() as int] == '.')
    }

    /// Decides the dotted-prefix relation.
    pub fn is_prefix_of(&self, other: &Scope) -> (r: bool)
        ensures
            r == self.spec_is_prefix_of(*other),
    {
        let a = self.repr.as_str();
        let b = other.repr.as_str();
        let la = a.unicode_len();
        let lb = b.unicode_len();
        if la > lb {
            return false;
        }
        let mut i: usize = 0;
        while i < la
            invariant
                i <= la,
                la == a@.len(),
                lb == b@.len(),
                la <= lb,
                a@ == self@,
                b@ == other@,
                forall|j: int| 0 <= j < i ==> b@[j] == a@[j],
            decreases la - i,
        {
            if a.get_char(i) != b.get_char(i) {
                proof {
                    assert(other@.take(la as int)[i as int] == b@[i as int]);
                }
                return false;
            }
            i = i + 1;
        }
        proof {
            assert(other@.take(la as int) =~= self@);
        }
        if la == lb {
            true
        } else {
            b.get_char(la) == '.'
        }
    }
}

} // verus!
