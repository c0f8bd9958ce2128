//! String helpers: verified equality and lexicographic comparison over
//! character sequences, plus a few small borrowing utilities.

use vstd::prelude::*;
use vstd::string::StrSliceExecFns;
use vstd::string::StringExecFns;
use vstd::string::StringSliceAdditionalSpecFns;

verus! {

/// Strict lexicographic order on character sequences, by code point: the
/// order `str::cmp` induces on the corresponding strings.
pub open spec fn chars_lt(a: Seq<char>, b: Seq<char>) -> bool
    decreases a.len(),
{
    if b.len() == 0 {
        false
    } else if a.len() == 0 {
        true
    } else if a[0] != b[0] {
        (a[0] as u32) < (b[0] as u32)
    } else {
        chars_lt(a.drop_first(), b.drop_first())
    }
}

/// Exactly one of `chars_lt(a, b)`, `a == b` and `chars_lt(b, a)` holds.
pub proof fn lemma_chars_lt_trichotomy(a: Seq<char>, b: Seq<char>)
    ensures
        chars_lt(a, b) || chars_lt(b, a) || a == b,
        chars_lt(a, b) ==> !chars_lt(b, a),
        chars_lt(a, b) ==> a != b,
    decreases a.len() + b.len(),
{
    if a.len() == 0 && b.len() == 0 {
        assert(a =~= b);
    } else if a.len() > 0 && b.len() > 0 && a[0] == b[0] {
        lemma_chars_lt_trichotomy(a.drop_first(), b.drop_first());
        if a.drop_first() == b.drop_first() {
            assert forall|i: int| 0 <= i < a.len() implies a[i] == b[i] by {
                if i >= 1 {
                    assert(a[i] == a.drop_first()[i - 1]);
                    assert(b[i] == b.drop_first()[i - 1]);
                }
            }
            assert(a =~= b);
        }
        if a == b {
            assert(a.drop_first() =~= b.drop_first());
        }
    } else if a.len() > 0 && b.len() > 0 {
        assert((a[0] as u32) != (b[0] as u32)) by {
            if a[0] as u32 == b[0] as u32 {
                vstd::utf8::char_u32_cast(a[0], a[0] as u32);
                vstd::utf8::char_u32_cast(b[0], b[0] as u32);
            }
        }
        if a == b {
            assert(a[0] == b[0]);
        }
    } else {
        assert(a.len() == 0 || b.len() == 0);
    }
}

/// `chars_lt` is transitive.
pub proof fn lemma_chars_lt_trans(a: Seq<char>, b: Seq<char>, c: Seq<char>)
    requires
        chars_lt(a, b),
        chars_lt(b, c),
    ensures
        chars_lt(a, c),
    decreases a.len() + b.len() + c.len(),
{
    if a.len() == 0 {
        assert(c.len() > 0);
    } else {
        assert(b.len() > 0 && c.len() > 0);
        if a[0] == b[0] && b[0] == c[0] {
            lemma_chars_lt_trans(a.drop_first(), b.drop_first(), c.drop_first());
        }
    }
}

/// Equality test on string slices, by character.
pub fn str_eq(a: &str, b: &str) -> (r: bool)
    ensures
        r == (a@ == b@),
{
    let alen: usize = a.unicode_len();
    let blen: usize = b.unicode_len();
    if alen != blen {
        return false;
    }
    let mut i: usize = 0;
    while i < alen
        invariant
            0 <= i <= alen,
            alen == a@.len(),
            alen == b@.len(),
            forall|j: int| 0 <= j < i ==> a@[j] == b@[j],
        decreases alen - i,
    {
        if a.get_char(i) != b.get_char(i) {
            return false;
        }
        i = i + 1;
    }
    proof {
        assert(a@ =~= b@);
    }
    true
}

/// Strict lexicographic comparison of string slices; decides `chars_lt` on
/// the views.
pub fn str_lt(a: &str, b: &str) -> (r: bool)
    ensures
        r == chars_lt(a@, b@),
{
    let alen: usize = a.unicode_len();
    let blen: usize = b.unicode_len();
    let mut i: usize = 0;
    proof {
        assert(a@.skip(0) =~= a@);
        assert(b@.skip(0) =~= b@);
    }
    loop
        invariant
            0 <= i <= alen,
            i <= blen,
            alen == a@.len(),
            blen == b@.len(),
            chars_lt(a@, b@) == chars_lt(a@.skip(i as int), b@.skip(i as int)),
        decreases alen - i,
    {
        if i == blen {
            return false;
        }
        if i == alen {
            return true;
        }
        let ca = a.get_char(i);
        let cb = b.get_char(i);
        if ca != cb {
            return (ca as u32) < (cb as u32);
        }
        proof {
            assert(a@.skip(i as int).drop_first() =~= a@.skip(i + 1));
            assert(b@.skip(i as int).drop_first() =~= b@.skip(i + 1));
        }
        i = i + 1;
    }
}

/// Byte length of a string slice.
pub fn borrow_len(s: &str) -> (r: usize)
    ensures
        r == s.spec_bytes().len() as usize,
{
    s.len()
}

/// Append a fixed suffix in place.
pub fn append_world(s: &mut String)
    ensures
        final(s)@ == old(s)@ + ", world"@,
{
    s.append(", world");
}

pub fn pick_first<'a>(a: &'a str, _b: &'a str) -> (r: &'a str)
    ensures
        r@ == a@,
{
    a
}

pub fn same_line<'a>(x: &'a str) -> (r: &'a str)
    ensures
        r@ == x@,
{
    x
}

pub fn two_lines_pick_x<'a, 'b>(x: &'a str, _y: &'b str) -> (r: &'a str)
    ensures
        r@ == x@,
{
    x
}

pub fn pick_first_elided(a: &str) -> (r: &str)
    ensures
        r@ == a@,
{
    a
}

/// Return an owned copy of whichever argument has the greater byte length,
/// preferring the first on a tie.
pub fn choose_owned(a: &str, b: &str) -> (r: String)
    ensures
        r@ == if a.spec_bytes().len() as usize >= b.spec_bytes().len() as usize {
            a@
        } else {
            b@
        },
{
    if a.len() >= b.len() {
        a.to_owned()
    } else {
        b.to_owned()
    }
}

} // verus!
