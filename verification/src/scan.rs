use vstd::prelude::*;

verus! {

/// A byte that counts as whitespace when header keys and values are trimmed:
/// space, or one of the control bytes tab through carriage return.  Trimming
/// is byte-level by design: the header is handled as bytes, so a multi-byte
/// white-space character is kept as part of a key or value.
pub open spec fn is_ws(b: u8) -> bool {
    b == 32 || (9 <= b && b <= 13)
}

/// Index of the first occurrence of `b` in `s` at or after `i`, or `s.len()`
/// when `b` does not occur there.
pub open spec fn find_from(s: Seq<u8>, i: int, b: u8) -> int
    decreases s.len() - i,
{
    if i < 0 || i >= s.len() {
        s.len() as int
    } else if s[i] == b {
        i
    } else {
        find_from(s, i + 1, b)
    }
}

pub proof fn lemma_find_from_is(s: Seq<u8>, i: int, b: u8, k: int)
    requires
        0 <= i <= k <= s.len(),
        forall|j: int| i <= j < k ==> s[j] != b,
        k == s.len() || s[k] == b,
    ensures
        find_from(s, i, b) == k,
    decreases k - i,
{
    if i < k {
        assert(s[i] != b);
        lemma_find_from_is(s, i + 1, b, k);
    }
}

/// First index at or after `start` (and before `end`) whose byte is `b`, or
/// `end` when the range holds no such byte.
pub fn find_byte(buf: &[u8], start: usize, end: usize, b: u8) -> (r: usize)
    requires
        start <= end <= buf@.len(),
    ensures
        start <= r <= end,
        forall|j: int| start <= j < r ==> buf@[j] != b,
        r < end ==> buf@[r as int] == b,
{
    let mut i: usize = start;
    while i < end && buf[i] != b
        invariant
            start <= i <= end <= buf@.len(),
            forall|j: int| start <= j < i ==> buf@[j] != b,
        decreases end - i,
    {
        i = i + 1;
    }
    i
}

/// What is left of `s` once leading whitespace is dropped.
pub open spec fn trim_front(s: Seq<u8>) -> Seq<u8>
    decreases s.len(),
{
    if s.len() > 0 && is_ws(s[0]) {
        trim_front(s.drop_first())
    } else {
        s
    }
}

/// What is left of `s` once trailing whitespace is dropped.
pub open spec fn trim_back(s: Seq<u8>) -> Seq<u8>
    decreases s.len(),
{
    if s.len() > 0 && is_ws(s[s.len() - 1]) {
        trim_back(s.drop_last())
    } else {
        s
    }
}

/// What is left of `s` once whitespace is dropped from both ends.
pub open spec fn trimmed(s: Seq<u8>) -> Seq<u8> {
    trim_back(trim_front(s))
}

/// Copies `buf[lo..hi]` with the whitespace at both ends dropped.
pub fn trim_copy(buf: &[u8], lo: usize, hi: usize) -> (r: Vec<u8>)
    requires
        lo <= hi <= buf@.len(),
    ensures
        r@ == trimmed(buf@.subrange(lo as int, hi as int)),
{
    let ghost s = buf@.subrange(lo as int, hi as int);
    let mut a: usize = lo;
    while a < hi && is_ws_byte(buf[a])
        invariant
            lo <= a <= hi <= buf@.len(),
            s == buf@.subrange(lo as int, hi as int),
            trim_front(s) == trim_front(buf@.subrange(a as int, hi as int)),
        decreases hi - a,
    {
        proof {
            let t = buf@.subrange(a as int, hi as int);
            assert(t.len() > 0 && is_ws(t[0]));
            assert(t.drop_first() =~= buf@.subrange(a + 1, hi as int));
        }
        a = a + 1;
    }
    proof {
        let t = buf@.subrange(a as int, hi as int);
        assert(trim_front(t) == t);
        assert(trim_front(s) == buf@.subrange(a as int, hi as int));
    }
    let mut z: usize = hi;
    while z > a && is_ws_byte(buf[z - 1])
        invariant
            lo <= a <= z <= hi <= buf@.len(),
            trim_front(s) == buf@.subrange(a as int, hi as int),
            trim_back(buf@.subrange(a as int, hi as int)) == trim_back(
                buf@.subrange(a as int, z as int),
            ),
        decreases z - a,
    {
        proof {
            let t = buf@.subrange(a as int, z as int);
            assert(t.len() > 0 && is_ws(t[t.len() - 1]));
            assert(t.drop_last() =~= buf@.subrange(a as int, z - 1));
        }
        z = z - 1;
    }
    proof {
        let t = buf@.subrange(a as int, z as int);
        assert(trim_back(t) == t);
        assert(trimmed(s) == buf@.subrange(a as int, z as int));
    }
    let mut r: Vec<u8> = Vec::new();
    let mut i: usize = a;
    while i < z
        invariant
            a <= i <= z <= buf@.len(),
            r@ == buf@.subrange(a as int, i as int),
        decreases z - i,
    {
        r.push(buf[i]);
        proof {
            assert(r@ =~= buf@.subrange(a as int, i + 1));
        }
        i = i + 1;
    }
    proof {
        assert(r@ == trimmed(s));
    }
    r
}

/// Copies `buf[lo..hi]` into a fresh vector.
pub fn copy_range(buf: &[u8], lo: usize, hi: usize) -> (r: Vec<u8>)
    requires
        lo <= hi <= buf@.len(),
    ensures
        r@ == buf@.subrange(lo as int, hi as int),
{
    let mut r: Vec<u8> = Vec::new();
    let mut i: usize = lo;
    while i < hi
        invariant
            lo <= i <= hi <= buf@.len(),
            r@ == buf@.subrange(lo as int, i as int),
        decreases hi - i,
    {
        r.push(buf[i]);
        proof {
            assert(r@ =~= buf@.subrange(lo as int, i + 1));
        }
        i = i + 1;
    }
    r
}

/// Executable counterpart of `is_ws`.
pub fn is_ws_byte(b: u8) -> (r: bool)
    ensures
        r == is_ws(b),
{
    b == 32 || (9 <= b && b <= 13)
}

/// Byte-for-byte equality of two slices.
pub fn bytes_eq(a: &[u8], b: &[u8]) -> (r: bool)
    ensures
        r == (a@ == b@),
{
    if a.len() != b.len() {
        return false;
    }
    let n = a.len();
    let mut i: usize = 0;
    while i < n
        invariant
            n == a@.len() == b@.len(),
            i <= n,
            forall|j: int| 0 <= j < i ==> a@[j] == b@[j],
        decreases n - i,
    {
        if a[i] != b[i] {
            return false;
        }
        i = i + 1;
    }
    proof {
        assert(a@ =~= b@);
    }
    true
}

} // verus!
