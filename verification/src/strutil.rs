//! String helpers with full functional contracts: lexicographic order,
//! suffix tests and ASCII case-insensitive equality over character sequences.

use vstd::prelude::*;

verus! {

/// Byte-lexicographic order on character sequences. For valid UTF-8 strings
/// the code-point order used here coincides with byte order.
pub open spec fn lex_le(a: Seq<char>, b: Seq<char>) -> bool
    decreases a.len(),
{
    if a.len() == 0 {
        true
    } else if b.len() == 0 {
        false
    } else if a[0] == b[0] {
        lex_le(a.drop_first(), b.drop_first())
    } else {
        (a[0] as u32) < (b[0] as u32)
    }
}

/// `lex_le` ignores an equal prefix of both sequences.
proof fn lemma_lex_le_skip(a: Seq<char>, b: Seq<char>, i: int)
    requires
        0 <= i <= a.len(),
        i <= b.len(),
        forall|j: int| 0 <= j < i ==> a[j] == b[j],
    ensures
        lex_le(a, b) == lex_le(a.skip(i), b.skip(i)),
    decreases i,
{
    if i > 0 {
        assert(a[0] == b[0]);
        lemma_lex_le_skip(a.drop_first(), b.drop_first(), i - 1);
        assert(a.drop_first().skip(i - 1) =~= a.skip(i));
        assert(b.drop_first().skip(i - 1) =~= b.skip(i));
    } else {
        assert(a.skip(0) =~= a);
        assert(b.skip(0) =~= b);
    }
}

/// String equality on views.
pub fn str_eq_str(a: &str, b: &str) -> (r: bool)
    ensures
        r == (a@ == b@),
{
    let sa: String = a.to_owned();
    let sb: String = b.to_owned();
    sa == sb
}

/// Decides `lex_le` on two string slices.
pub fn str_le(a: &str, b: &str) -> (r: bool)
    ensures
        r == lex_le(a@, b@),
{
    let la = a.unicode_len();
    let lb = b.unicode_len();
    let mut i: usize = 0;
    loop
        invariant
            i <= la,
            i <= lb,
            la == a@.len(),
            lb == b@.len(),
            forall|j: int| 0 <= j < i ==> a@[j] == b@[j],
        decreases la - i,
    {
        if i == la {
            proof {
                lemma_lex_le_skip(a@, b@, i as int);
            }
            return true;
        }
        if i == lb {
            proof {
                lemma_lex_le_skip(a@, b@, i as int);
            }
            return false;
        }
        let ca = a.get_char(i);
        let cb = b.get_char(i);
        if ca != cb {
            proof {
                lemma_lex_le_skip(a@, b@, i as int);
            }
            return (ca as u32) < (cb as u32);
        }
        i = i + 1;
    }
}

/// ASCII lower-casing of a single code point; other characters are unchanged.
pub open spec fn lower_code(c: u32) -> u32 {
    if 65 <= c && c <= 90 {
        (c + 32) as u32
    } else {
        c
    }
}

/// ASCII case-insensitive equality of character sequences.
pub open spec fn ascii_ieq(a: Seq<char>, b: Seq<char>) -> bool {
    a.len() == b.len() && forall|j: int|
        0 <= j < a.len() ==> lower_code(a[j] as u32) == lower_code(b[j] as u32)
}

/// Decides `ascii_ieq` on two string slices.
pub fn str_ieq(a: &str, b: &str) -> (r: bool)
    ensures
        r == ascii_ieq(a@, b@),
{
    let la = a.unicode_len();
    let lb = b.unicode_len();
    if la != lb {
        return false;
    }
    let mut i: usize = 0;
    loop
        invariant
            i <= la,
            la == a@.len(),
            la == lb,
            lb == b@.len(),
            forall|j: int| 0 <= j < i ==> lower_code(a@[j] as u32) == lower_code(b@[j] as u32),
        decreases la - i,
    {
        if i == la {
            return true;
        }
        let ca = a.get_char(i) as u32;
        let cb = b.get_char(i) as u32;
        let fa = if 65 <= ca && ca <= 90 {
            ca + 32
        } else {
            ca
        };
        let fb = if 65 <= cb && cb <= 90 {
            cb + 32
        } else {
            cb
        };
        if fa != fb {
            return false;
        }
        i = i + 1;
    }
}

/// `a` ends with `b`.
pub open spec fn ends_with(a: Seq<char>, b: Seq<char>) -> bool {
    a.len() >= b.len() && a.skip(a.len() - b.len()) =~= b
}

/// Decides `ends_with` on two string slices.
pub fn str_ends_with(a: &str, b: &str) -> (r: bool)
    ensures
        r == ends_with(a@, b@),
{
    let la = a.unicode_len();
    let lb = b.unicode_len();
    if la < lb {
        return false;
    }
    let off = la - lb;
    let mut i: usize = 0;
    loop
        invariant
            i <= lb,
            la == a@.len(),
            lb == b@.len(),
            off == la - lb,
            forall|j: int| 0 <= j < i ==> a@[off + j] == b@[j],
        decreases lb - i,
    {
        if i == lb {
            proof {
                assert(a@.skip(off as int) =~= b@);
            }
            return true;
        }
        let ca = a.get_char(off + i);
        let cb = b.get_char(i);
        if ca != cb {
            proof {
                assert(a@.skip(off as int)[i as int] == a@[off + i]);
            }
            return false;
        }
        i = i + 1;
    }
}

} // verus!
