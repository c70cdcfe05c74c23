//! Byte-level scanning primitives shared by the front-matter parser,
//! the template composer and the content renderer.

use vstd::prelude::*;

verus! {

/// The bytes the scanning rules treat as whitespace: space, tab, line
/// feed, vertical tab, form feed, carriage return.
pub open spec fn is_ws(b: u8) -> bool {
    b == 32 || b == 9 || b == 10 || b == 11 || b == 12 || b == 13
}

pub fn ws_byte(b: u8) -> (r: bool)
    ensures
        r == is_ws(b),
{
    b == 32 || b == 9 || b == 10 || b == 11 || b == 12 || b == 13
}

/// Position of the first occurrence of `b` in `s` at or after `k`, if any.
pub open spec fn find_byte(s: Seq<u8>, k: int, b: u8) -> Option<int>
    decreases s.len() - k,
{
    if k < 0 || k >= s.len() {
        None
    } else if s[k] == b {
        Some(k)
    } else {
        find_byte(s, k + 1, b)
    }
}

pub proof fn lemma_find_byte(s: Seq<u8>, k: int, b: u8)
    requires
        0 <= k,
    ensures
        match find_byte(s, k, b) {
            Some(j) => k <= j < s.len() && s[j] == b && (forall|m: int| k <= m < j ==> s[m] != b),
            None => forall|m: int| k <= m < s.len() ==> s[m] != b,
        },
    decreases s.len() - k,
{
    if k < s.len() && s[k] != b {
        lemma_find_byte(s, k + 1, b);
    }
}

pub fn find_byte_from(s: &Vec<u8>, k0: usize, b: u8) -> (r: Option<usize>)
    ensures
        match find_byte(s@, k0 as int, b) {
            Some(j) => r == Some(j as usize),
            None => r is None,
        },
{
    let mut k: usize = k0;
    while k < s.len()
        invariant
            k0 <= k,
            find_byte(s@, k0 as int, b) == find_byte(s@, k as int, b),
        decreases s@.len() - k,
    {
        if s[k] == b {
            return Some(k);
        }
        k = k + 1;
    }
    None
}

/// Length of the run of `-` bytes starting at `k`.
pub open spec fn dash_run(s: Seq<u8>, k: int) -> int
    decreases s.len() - k,
{
    if 0 <= k < s.len() && s[k] == 45 {
        1 + dash_run(s, k + 1)
    } else {
        0
    }
}

/// A run of exactly `n` dashes at `k` gives `dash_run` `n`.
pub proof fn lemma_dash_run_is(s: Seq<u8>, k: int, n: int)
    requires
        0 <= k,
        0 <= n,
        k + n <= s.len(),
        forall|m: int| k <= m < k + n ==> s[m] == 45,
        k + n == s.len() || s[k + n] != 45,
    ensures
        dash_run(s, k) == n,
    decreases n,
{
    if n > 0 {
        lemma_dash_run_is(s, k + 1, n - 1);
    }
}

/// `dash_run` depends only on the text from its position on.
pub proof fn lemma_dash_run_shift(s: Seq<u8>, off: int, t: Seq<u8>, q: int)
    requires
        0 <= off,
        0 <= q <= t.len(),
        off + t.len() == s.len(),
        forall|m: int| 0 <= m < t.len() ==> s[off + m] == t[m],
    ensures
        dash_run(s, off + q) == dash_run(t, q),
    decreases t.len() - q,
{
    if q < t.len() && t[q] == 45 {
        lemma_dash_run_shift(s, off, t, q + 1);
    }
}

pub fn dash_run_from(s: &Vec<u8>, k0: usize) -> (r: usize)
    requires
        k0 <= s@.len(),
    ensures
        r as int == dash_run(s@, k0 as int),
        k0 + r <= s@.len(),
{
    let mut k: usize = k0;
    while k < s.len() && s[k] == 45
        invariant
            k0 <= k <= s@.len(),
            dash_run(s@, k0 as int) == k - k0 + dash_run(s@, k as int),
        decreases s@.len() - k,
    {
        k = k + 1;
    }
    k - k0
}

/// The first occurrence known by position is what `find_byte` finds.
pub proof fn lemma_find_byte_is(s: Seq<u8>, k: int, j: int, b: u8)
    requires
        0 <= k <= j < s.len(),
        s[j] == b,
        forall|m: int| k <= m < j ==> s[m] != b,
    ensures
        find_byte(s, k, b) == Some(j),
    decreases j - k,
{
    if k < j {
        lemma_find_byte_is(s, k + 1, j, b);
    }
}

/// The closing marker search used for partial references: the first
/// position at or after `k` holding `}}`, unless a line feed comes
/// first, in which case there is no marker on this line.
pub open spec fn scan_name(s: Seq<u8>, k: int) -> Option<int>
    decreases s.len() - k,
{
    if k < 0 || k + 2 > s.len() {
        None
    } else if s[k] == 125 && s[k + 1] == 125 {
        Some(k)
    } else if s[k] == 10 {
        None
    } else {
        scan_name(s, k + 1)
    }
}

/// A closing marker known by position, with no line feed and no brace
/// before it, is what `scan_name` finds.
pub proof fn lemma_scan_name_is(s: Seq<u8>, k: int, j: int)
    requires
        0 <= k <= j,
        j + 2 <= s.len(),
        s[j] == 125,
        s[j + 1] == 125,
        forall|m: int| k <= m < j ==> s[m] != 125 && s[m] != 10,
    ensures
        scan_name(s, k) == Some(j),
    decreases j - k,
{
    if k < j {
        lemma_scan_name_is(s, k + 1, j);
    }
}

pub fn scan_name_from(s: &Vec<u8>, k0: usize) -> (r: Option<usize>)
    ensures
        match r {
            Some(j) => scan_name(s@, k0 as int) == Some(j as int) && k0 <= j && j + 2 <= s@.len(),
            None => scan_name(s@, k0 as int) is None,
        },
{
    let mut k: usize = k0;
    loop
        invariant
            k0 <= k,
            scan_name(s@, k0 as int) == scan_name(s@, k as int),
        decreases s@.len() - k,
    {
        if k >= s.len() || s.len() - k < 2 {
            return None;
        }
        if s[k] == 125 && s[k + 1] == 125 {
            return Some(k);
        }
        if s[k] == 10 {
            return None;
        }
        k = k + 1;
    }
}

/// The closing marker search used for placeholders: the first position
/// at or after `k` holding `}}`.
pub open spec fn find_close(s: Seq<u8>, k: int) -> Option<int>
    decreases s.len() - k,
{
    if k < 0 || k + 2 > s.len() {
        None
    } else if s[k] == 125 && s[k + 1] == 125 {
        Some(k)
    } else {
        find_close(s, k + 1)
    }
}

pub fn find_close_from(s: &Vec<u8>, k0: usize) -> (r: Option<usize>)
    ensures
        match r {
            Some(j) => find_close(s@, k0 as int) == Some(j as int) && k0 <= j && j + 2 <= s@.len(),
            None => find_close(s@, k0 as int) is None,
        },
{
    let mut k: usize = k0;
    loop
        invariant
            k0 <= k,
            find_close(s@, k0 as int) == find_close(s@, k as int),
        decreases s@.len() - k,
    {
        if k >= s.len() || s.len() - k < 2 {
            return None;
        }
        if s[k] == 125 && s[k + 1] == 125 {
            return Some(k);
        }
        k = k + 1;
    }
}

/// Views of a list of byte vectors.
pub open spec fn views_of(v: Seq<Vec<u8>>) -> Seq<Seq<u8>> {
    v.map_values(|w: Vec<u8>| w@)
}

/// `s` with leading whitespace removed.
pub open spec fn trim_front(s: Seq<u8>) -> Seq<u8>
    decreases s.len(),
{
    if s.len() > 0 && is_ws(s[0]) {
        trim_front(s.drop_first())
    } else {
        s
    }
}

/// `s` with trailing whitespace removed.
pub open spec fn trim_back(s: Seq<u8>) -> Seq<u8>
    decreases s.len(),
{
    if s.len() > 0 && is_ws(s.last()) {
        trim_back(s.drop_last())
    } else {
        s
    }
}

/// `s` with whitespace removed from both ends.
pub open spec fn trim_ws(s: Seq<u8>) -> Seq<u8> {
    trim_back(trim_front(s))
}

/// A fresh copy of `s[lo..hi]`.
pub fn copy_range(s: &Vec<u8>, lo: usize, hi: usize) -> (r: Vec<u8>)
    requires
        lo <= hi <= s@.len(),
    ensures
        r@ == s@.subrange(lo as int, hi as int),
{
    let mut r: Vec<u8> = Vec::new();
    let mut k: usize = lo;
    while k < hi
        invariant
            lo <= k <= hi <= s@.len(),
            r@ == s@.subrange(lo as int, k as int),
        decreases hi - k,
    {
        r.push(s[k]);
        proof {
            assert(r@ =~= s@.subrange(lo as int, k + 1 as int));
        }
        k = k + 1;
    }
    r
}

/// A fresh copy of `s[lo..hi]` with whitespace trimmed from both ends.
pub fn trim_range(s: &Vec<u8>, lo: usize, hi: usize) -> (r: Vec<u8>)
    requires
        lo <= hi <= s@.len(),
    ensures
        r@ == trim_ws(s@.subrange(lo as int, hi as int)),
{
    let ghost orig = s@.subrange(lo as int, hi as int);
    let mut a: usize = lo;
    let mut b: usize = hi;
    while a < b && ws_byte(s[a])
        invariant
            lo <= a <= b <= hi <= s@.len(),
            trim_front(orig) == trim_front(s@.subrange(a as int, b as int)),
            orig == s@.subrange(lo as int, hi as int),
        decreases b - a,
    {
        proof {
            assert(s@.subrange(a as int, b as int).drop_first()
                =~= s@.subrange(a + 1 as int, b as int));
        }
        a = a + 1;
    }
    proof {
        assert(trim_front(s@.subrange(a as int, b as int)) == s@.subrange(a as int, b as int));
    }
    while a < b && ws_byte(s[b - 1])
        invariant
            lo <= a <= b <= hi <= s@.len(),
            trim_ws(orig) == trim_back(s@.subrange(a as int, b as int)),
            orig == s@.subrange(lo as int, hi as int),
        decreases b - a,
    {
        proof {
            assert(s@.subrange(a as int, b as int).drop_last()
                =~= s@.subrange(a as int, b - 1 as int));
        }
        b = b - 1;
    }
    proof {
        assert(trim_back(s@.subrange(a as int, b as int)) == s@.subrange(a as int, b as int));
    }
    copy_range(s, a, b)
}

/// Byte-for-byte equality of two vectors.
pub fn bytes_eq(a: &Vec<u8>, b: &Vec<u8>) -> (r: bool)
    ensures
        r == (a@ == b@),
{
    if a.len() != b.len() {
        return false;
    }
    let mut k: usize = 0;
    while k < a.len()
        invariant
            k <= a@.len() == b@.len(),
            forall|m: int| 0 <= m < k ==> a@[m] == b@[m],
        decreases a@.len() - k,
    {
        if a[k] != b[k] {
            return false;
        }
        k = k + 1;
    }
    proof {
        assert(a@ =~= b@);
    }
    true
}

/// A fresh copy of the whole of `s`.
pub fn copy_bytes(s: &Vec<u8>) -> (r: Vec<u8>)
    ensures
        r@ == s@,
{
    let r = copy_range(s, 0, s.len());
    proof {
        assert(s@.subrange(0, s@.len() as int) =~= s@);
    }
    r
}

} // verus!
