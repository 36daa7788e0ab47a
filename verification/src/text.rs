//! Character-buffer utilities: range copies, splices, and conversions
//! between `String` and `Vec<char>`.

use vstd::prelude::*;

verus! {

/// The characters of `text` with the range `[from, to)` replaced by `rep`.
/// Out-of-range edit bounds are clamped, so the splice is total.
pub open spec fn splice(text: Seq<char>, from: int, to: int, rep: Seq<char>) -> Seq<char> {
    let f = if from < 0 {
        0
    } else if from > text.len() {
        text.len() as int
    } else {
        from
    };
    let t = if to < f {
        f
    } else if to > text.len() {
        text.len() as int
    } else {
        to
    };
    text.subrange(0, f) + rep + text.subrange(t, text.len() as int)
}

/// Copies the characters of `v` in the range `[i, j)` into a fresh vector.
pub fn copy_range(v: &Vec<char>, i: usize, j: usize) -> (r: Vec<char>)
    requires
        i <= j <= v@.len(),
    ensures
        r@ == v@.subrange(i as int, j as int),
{
    let mut r: Vec<char> = Vec::new();
    let mut k: usize = i;
    while k < j
        invariant
            i <= k <= j <= v@.len(),
            r@ == v@.subrange(i as int, k as int),
        decreases j - k,
    {
        r.push(v[k]);
        proof {
            assert(r@ =~= v@.subrange(i as int, k + 1));
        }
        k = k + 1;
    }
    r
}

/// Replaces the range `[from, to)` of `text` (clamped to its length) with `rep`.
pub fn splice_range(text: &Vec<char>, from: usize, to: usize, rep: &Vec<char>) -> (r: Vec<char>)
    ensures
        r@ == splice(text@, from as int, to as int, rep@),
{
    let n: usize = text.len();
    let f: usize = if from > n {
        n
    } else {
        from
    };
    let t: usize = if to < f {
        f
    } else if to > n {
        n
    } else {
        to
    };
    let mut r = copy_range(text, 0, f);
    let mut k: usize = 0;
    while k < rep.len()
        invariant
            0 <= k <= rep@.len(),
            r@ == text@.subrange(0, f as int) + rep@.subrange(0, k as int),
        decreases rep@.len() - k,
    {
        r.push(rep[k]);
        proof {
            assert(r@ =~= text@.subrange(0, f as int) + rep@.subrange(0, k + 1));
        }
        k = k + 1;
    }
    proof {
        assert(rep@.subrange(0, rep@.len() as int) =~= rep@);
    }
    let mut k2: usize = t;
    while k2 < n
        invariant
            t <= k2 <= n,
            n == text@.len(),
            r@ == text@.subrange(0, f as int) + rep@ + text@.subrange(t as int, k2 as int),
        decreases n - k2,
    {
        r.push(text[k2]);
        proof {
            assert(r@ =~= text@.subrange(0, f as int) + rep@ + text@.subrange(t as int, k2 + 1));
        }
        k2 = k2 + 1;
    }
    proof {
        assert(r@ =~= splice(text@, from as int, to as int, rep@));
    }
    r
}

/// The characters of a string, as an indexable vector.
pub fn str_to_chars(s: &str) -> (r: Vec<char>)
    ensures
        r@ == s@,
{
    let n: usize = s.unicode_len();
    let mut r: Vec<char> = Vec::new();
    let mut k: usize = 0;
    while k < n
        invariant
            0 <= k <= n,
            n == s@.len(),
            r@ == s@.subrange(0, k as int),
        decreases n - k,
    {
        r.push(s.get_char(k));
        proof {
            assert(r@ =~= s@.subrange(0, k + 1));
        }
        k = k + 1;
    }
    proof {
        assert(r@ =~= s@);
    }
    r
}

/// Relies on `String::push`: appends exactly the given character.
#[verifier::external_body]
fn push_char(s: &mut String, c: char)
    ensures
        final(s)@ == old(s)@.push(c),
{
    s.push(c);
}

/// A string holding exactly the characters of `v`.
pub fn chars_to_string(v: &Vec<char>) -> (r: String)
    ensures
        r@ == v@,
{
    let mut r = String::new();
    let mut k: usize = 0;
    while k < v.len()
        invariant
            0 <= k <= v@.len(),
            r@ == v@.subrange(0, k as int),
        decreases v@.len() - k,
    {
        push_char(&mut r, v[k]);
        proof {
            assert(r@ =~= v@.subrange(0, k + 1));
        }
        k = k + 1;
    }
    proof {
        assert(r@ =~= v@);
    }
    r
}

} // verus!
