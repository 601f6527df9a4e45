//! Small executable helpers on byte slices that the parsers and tables share.

use vstd::prelude::*;

verus! {

/// Compares two byte slices for element-wise equality.
pub fn bytes_eq(a: &[u8], b: &[u8]) -> (r: bool)
    ensures
        r == (a@ == b@),
{
    if a.len() != b.len() {
        assert(a@.len() != b@.len());
        return false;
    }
    let n = a.len();
    let mut i: usize = 0;
    while i < n
        invariant
            n == a@.len() == b@.len(),
            i <= n,
            forall|j: int| 0 <= j < i ==> a@[j] == b@[j],
        decreases n - i,
    {
        if a[i] != b[i] {
            return false;
        }
        i += 1;
    }
    assert(a@ =~= b@);
    true
}

/// Copies a slice into a fresh vector.
pub fn bytes_to_vec(a: &[u8]) -> (r: Vec<u8>)
    ensures
        r@ == a@,
{
    let mut out: Vec<u8> = Vec::new();
    let n = a.len();
    let mut i: usize = 0;
    while i < n
        invariant
            n == a@.len(),
            i <= n,
            out@ == a@.subrange(0, i as int),
        decreases n - i,
    {
        out.push(a[i]);
        assert(out@ =~= a@.subrange(0, i + 1 as int));
        i += 1;
    }
    assert(out@ =~= a@);
    out
}

/// Position of the first occurrence of `d` in `s`.
pub open spec fn first_idx(s: Seq<u8>, d: u8) -> Option<int>
    decreases s.len(),
{
    if s.len() == 0 {
        None
    } else if s[0] == d {
        Some(0int)
    } else {
        match first_idx(s.drop_first(), d) {
            Option::Some(i) => Option::Some(i + 1),
            Option::None => Option::None,
        }
    }
}

/// Position of the last occurrence of `d` in `s`.
pub open spec fn last_idx(s: Seq<u8>, d: u8) -> Option<int>
    decreases s.len(),
{
    if s.len() == 0 {
        None
    } else if s.last() == d {
        Some(s.len() - 1)
    } else {
        last_idx(s.drop_last(), d)
    }
}

/// What `first_idx` returns: the first hit, or nothing when `d` is absent.
pub proof fn lemma_first_idx_char(s: Seq<u8>, d: u8)
    ensures
        match first_idx(s, d) {
            Option::Some(i) => 0 <= i < s.len() && s[i] == d && forall|j: int|
                0 <= j < i ==> s[j] != d,
            Option::None => forall|j: int| 0 <= j < s.len() ==> s[j] != d,
        },
    decreases s.len(),
{
    if s.len() > 0 && s[0] != d {
        lemma_first_idx_char(s.drop_first(), d);
        match first_idx(s.drop_first(), d) {
            Option::Some(i) => {
                assert(s[i + 1] == s.drop_first()[i]);
                assert forall|j: int| 0 <= j < i + 1 implies s[j] != d by {
                    if j > 0 {
                        assert(s.drop_first()[j - 1] == s[j]);
                    }
                }
            },
            Option::None => {
                assert forall|j: int| 0 <= j < s.len() implies s[j] != d by {
                    if j > 0 {
                        assert(s.drop_first()[j - 1] == s[j]);
                    }
                }
            },
        }
    }
}

/// What `last_idx` returns: the last hit, or nothing when `d` is absent.
pub proof fn lemma_last_idx_char(s: Seq<u8>, d: u8)
    ensures
        match last_idx(s, d) {
            Option::Some(i) => 0 <= i < s.len() && s[i] == d && forall|j: int|
                i < j < s.len() ==> s[j] != d,
            Option::None => forall|j: int| 0 <= j < s.len() ==> s[j] != d,
        },
    decreases s.len(),
{
    if s.len() > 0 && s.last() != d {
        lemma_last_idx_char(s.drop_last(), d);
        match last_idx(s.drop_last(), d) {
            Option::Some(i) => {
                assert(s.drop_last()[i] == s[i]);
                assert forall|j: int| i < j < s.len() implies s[j] != d by {
                    if j < s.len() - 1 {
                        assert(s.drop_last()[j] == s[j]);
                    }
                }
            },
            Option::None => {
                assert forall|j: int| 0 <= j < s.len() implies s[j] != d by {
                    if j < s.len() - 1 {
                        assert(s.drop_last()[j] == s[j]);
                    }
                }
            },
        }
    }
}

/// A scan that stops at the first hit computes `first_idx`.
pub proof fn lemma_first_idx_of_scan(s: Seq<u8>, d: u8, i: int)
    requires
        0 <= i < s.len(),
        s[i] == d,
        forall|j: int| 0 <= j < i ==> s[j] != d,
    ensures
        first_idx(s, d) == Some(i),
    decreases s.len(),
{
    if i > 0 {
        lemma_first_idx_of_scan(s.drop_first(), d, i - 1);
    }
}

/// A scan that finds no hit means `first_idx` is nothing.
pub proof fn lemma_first_idx_none(s: Seq<u8>, d: u8)
    requires
        forall|j: int| 0 <= j < s.len() ==> s[j] != d,
    ensures
        first_idx(s, d) is None,
    decreases s.len(),
{
    if s.len() > 0 {
        lemma_first_idx_none(s.drop_first(), d);
    }
}

/// A backward scan that stops at the first hit computes `last_idx`.
pub proof fn lemma_last_idx_of_scan(s: Seq<u8>, d: u8, i: int)
    requires
        0 <= i < s.len(),
        s[i] == d,
        forall|j: int| i < j < s.len() ==> s[j] != d,
    ensures
        last_idx(s, d) == Some(i),
    decreases s.len(),
{
    if i < s.len() - 1 {
        lemma_last_idx_of_scan(s.drop_last(), d, i);
    }
}

/// A backward scan with no hit means `last_idx` is nothing.
pub proof fn lemma_last_idx_none(s: Seq<u8>, d: u8)
    requires
        forall|j: int| 0 <= j < s.len() ==> s[j] != d,
    ensures
        last_idx(s, d) is None,
    decreases s.len(),
{
    if s.len() > 0 {
        lemma_last_idx_none(s.drop_last(), d);
    }
}

/// Finds the first occurrence of `d` in `s`.
pub fn find_first(s: &[u8], d: u8) -> (r: Option<usize>)
    ensures
        match r {
            Option::Some(i) => first_idx(s@, d) == Option::Some(i as int),
            Option::None => first_idx(s@, d) is None,
        },
{
    let n = s.len();
    let mut i: usize = 0;
    while i < n
        invariant
            n == s@.len(),
            i <= n,
            forall|j: int| 0 <= j < i ==> s@[j] != d,
        decreases n - i,
    {
        if s[i] == d {
            proof {
                lemma_first_idx_of_scan(s@, d, i as int);
            }
            return Some(i);
        }
        i += 1;
    }
    proof {
        lemma_first_idx_none(s@, d);
    }
    None
}

/// Finds the last occurrence of `d` in `s`.
pub fn find_last(s: &[u8], d: u8) -> (r: Option<usize>)
    ensures
        match r {
            Option::Some(i) => last_idx(s@, d) == Option::Some(i as int),
            Option::None => last_idx(s@, d) is None,
        },
{
    let n = s.len();
    let mut i: usize = n;
    while i > 0
        invariant
            n == s@.len(),
            i <= n,
            forall|j: int| i <= j < n ==> s@[j] != d,
        decreases i,
    {
        i -= 1;
        if s[i] == d {
            proof {
                lemma_last_idx_of_scan(s@, d, i as int);
            }
            return Some(i);
        }
    }
    proof {
        lemma_last_idx_none(s@, d);
    }
    None
}

/// The parts of `s` between occurrences of `d`: always one more part than
/// there are occurrences, so two neighbouring occurrences give an empty part.
pub open spec fn split_on(s: Seq<u8>, d: u8) -> Seq<Seq<u8>>
    decreases s.len(),
{
    match first_idx(s, d) {
        Option::Some(i) => if 0 <= i < s.len() {
            seq![s.subrange(0, i)] + split_on(s.subrange(i + 1, s.len() as int), d)
        } else {
            seq![s]
        },
        Option::None => seq![s],
    }
}

/// Splits `s` at every occurrence of `d`.
pub fn split_bytes(s: &[u8], d: u8) -> (r: Vec<Vec<u8>>)
    ensures
        r.deep_view() == split_on(s@, d),
        r@.len() >= 1,
    decreases s@.len(),
{
    match find_first(s, d) {
        Option::None => {
            let mut r: Vec<Vec<u8>> = Vec::new();
            r.push(bytes_to_vec(s));
            proof {
                assert(r.deep_view() =~~= split_on(s@, d));
            }
            r
        },
        Option::Some(i) => {
            proof {
                lemma_first_idx_char(s@, d);
                assert(0 <= i < s@.len());
            }
            let n = s.len();
            let head = bytes_to_vec(vstd::slice::slice_subrange(s, 0, i));
            let tail = vstd::slice::slice_subrange(s, i + 1, n);
            let mut r = split_bytes(tail, d);
            r.insert(0, head);
            proof {
                assert(r.deep_view() =~~= seq![s@.subrange(0, i as int)] + split_on(
                    s@.subrange(i + 1, s@.len() as int),
                    d,
                ));
            }
            r
        },
    }
}

/// ASCII whitespace, as the record lists may carry spaces and line breaks.
pub open spec fn is_space(b: u8) -> bool {
    b == 0x20 || b == 0x09 || b == 0x0a || b == 0x0d
}

/// `s` without leading and trailing ASCII whitespace.
pub open spec fn trim_of(s: Seq<u8>) -> Seq<u8>
    decreases s.len(),
{
    if s.len() == 0 {
        s
    } else if is_space(s[0]) {
        trim_of(s.drop_first())
    } else if is_space(s.last()) {
        trim_of(s.drop_last())
    } else {
        s
    }
}

/// Removes leading and trailing ASCII whitespace.
pub fn trim_bytes(s: &[u8]) -> (r: Vec<u8>)
    ensures
        r@ == trim_of(s@),
    decreases s@.len(),
{
    let n = s.len();
    if n == 0 {
        Vec::new()
    } else if s[0] == 0x20 || s[0] == 0x09 || s[0] == 0x0a || s[0] == 0x0d {
        let r = trim_bytes(vstd::slice::slice_subrange(s, 1, n));
        proof {
            assert(s@.subrange(1, n as int) =~= s@.drop_first());
        }
        r
    } else if s[n - 1] == 0x20 || s[n - 1] == 0x09 || s[n - 1] == 0x0a || s[n - 1] == 0x0d {
        let r = trim_bytes(vstd::slice::slice_subrange(s, 0, n - 1));
        proof {
            assert(s@.subrange(0, n - 1) =~= s@.drop_last());
        }
        r
    } else {
        bytes_to_vec(s)
    }
}

/// Appends all elements of `src` to `dst`.
pub fn extend_u16s(dst: &mut Vec<u16>, src: &[u16])
    ensures
        final(dst)@ == old(dst)@ + src@,
{
    let n = src.len();
    let mut i: usize = 0;
    while i < n
        invariant
            n == src@.len(),
            i <= n,
            dst@ == old(dst)@ + src@.subrange(0, i as int),
        decreases n - i,
    {
        dst.push(src[i]);
        assert(dst@ =~= old(dst)@ + src@.subrange(0, i + 1 as int));
        i += 1;
    }
    assert(dst@ =~= old(dst)@ + src@);
}

/// Appends all elements of `src` to `dst`.
pub fn extend_bytes(dst: &mut Vec<u8>, src: &[u8])
    ensures
        final(dst)@ == old(dst)@ + src@,
{
    let n = src.len();
    let mut i: usize = 0;
    while i < n
        invariant
            n == src@.len(),
            i <= n,
            dst@ == old(dst)@ + src@.subrange(0, i as int),
        decreases n - i,
    {
        dst.push(src[i]);
        assert(dst@ =~= old(dst)@ + src@.subrange(0, i + 1 as int));
        i += 1;
    }
    assert(dst@ =~= old(dst)@ + src@);
}

} // verus!
