use vstd::prelude::*;

use crate::scan::{find_from, find_byte, copy_range, lemma_find_from_is};

verus! {

/// An ASCII decimal digit.
pub open spec fn is_digit(b: u8) -> bool {
    48 <= b && b <= 57
}

pub open spec fn all_digits(s: Seq<u8>) -> bool {
    forall|j: int| 0 <= j < s.len() ==> is_digit(#[trigger] s[j])
}

/// The number that the digit string `s` denotes in base ten.
pub open spec fn dec_val(s: Seq<u8>) -> nat
    decreases s.len(),
{
    if s.len() == 0 {
        0
    } else {
        dec_val(s.drop_last()) * 10 + (s.last() - 48) as nat
    }
}

/// The digits of an unsigned decimal token: a single leading `+` is allowed
/// and ignored.
pub open spec fn digits_part(t: Seq<u8>) -> Seq<u8> {
    if t.len() > 0 && t[0] == 43 {
        t.drop_first()
    } else {
        t
    }
}

/// Whether `t` is a well-formed unsigned decimal token.
pub open spec fn is_uint_token(t: Seq<u8>) -> bool {
    digits_part(t).len() > 0 && all_digits(digits_part(t))
}

/// The value of a well-formed unsigned decimal token.
pub open spec fn token_val(t: Seq<u8>) -> nat {
    dec_val(digits_part(t))
}

/// Whether `t` parses as a machine-sized unsigned integer.
pub open spec fn token_ok(t: Seq<u8>) -> bool {
    is_uint_token(t) && token_val(t) <= usize::MAX
}

pub proof fn lemma_dec_val_prefix_le(s: Seq<u8>, i: int)
    requires
        0 <= i <= s.len(),
    ensures
        dec_val(s.subrange(0, i)) <= dec_val(s),
    decreases s.len() - i,
{
    if i == s.len() {
        assert(s.subrange(0, i) =~= s);
    } else {
        let p = s.subrange(0, i);
        let q = s.subrange(0, i + 1);
        assert(q.drop_last() =~= p);
        assert(dec_val(q) == dec_val(p) * 10 + (q.last() - 48) as nat);
        assert(dec_val(p) * 10 >= dec_val(p)) by (nonlinear_arith);
        lemma_dec_val_prefix_le(s, i + 1);
    }
}

/// Parses `buf[lo..hi]` as an unsigned decimal token.  `None` is returned
/// exactly when the token is malformed or its value does not fit in `usize`.
pub fn parse_uint(buf: &[u8], lo: usize, hi: usize) -> (r: Option<usize>)
    requires
        lo <= hi <= buf@.len(),
    ensures
        ({
            let t = buf@.subrange(lo as int, hi as int);
            match r {
                Some(n) => token_ok(t) && n as nat == token_val(t),
                None => !token_ok(t),
            }
        }),
{
    let ghost t = buf@.subrange(lo as int, hi as int);
    let mut i: usize = lo;
    if i < hi && buf[i] == 43 {
        i = i + 1;
    }
    let ghost start = i as int;
    proof {
        assert(digits_part(t) =~= buf@.subrange(start, hi as int));
    }
    if i == hi {
        return None;
    }
    let mut acc: usize = 0;
    while i < hi
        invariant
            lo <= start <= i as int <= hi <= buf@.len(),
            t == buf@.subrange(lo as int, hi as int),
            digits_part(t) == buf@.subrange(start, hi as int),
            all_digits(buf@.subrange(start, i as int)),
            acc as nat == dec_val(buf@.subrange(start, i as int)),
        decreases hi - i,
    {
        let b = buf[i];
        if !(48 <= b && b <= 57) {
            proof {
                assert(digits_part(t)[i - start] == b);
                assert(!all_digits(digits_part(t)));
            }
            return None;
        }
        let d = (b - 48) as usize;
        let ghost pre = buf@.subrange(start, i as int);
        let ghost ext = buf@.subrange(start, i + 1);
        proof {
            assert(ext.drop_last() =~= pre);
            assert(ext.last() == b);
            assert(dec_val(ext) == dec_val(pre) * 10 + (b - 48) as nat);
        }
        let step = match acc.checked_mul(10) {
            Some(m) => m.checked_add(d),
            None => None,
        };
        match step {
            Some(n) => {
                acc = n;
                proof {
                    assert(all_digits(ext)) by {
                        assert(forall|j: int|
                            0 <= j < ext.len() ==> ext[j] == buf@.subrange(start, hi as int)[j]);
                        assert(ext[i - start] == b);
                        assert(forall|j: int| 0 <= j < pre.len() ==> ext[j] == pre[j]);
                    }
                }
                i = i + 1;
            },
            None => {
                proof {
                    if token_ok(t) {
                        let dp = digits_part(t);
                        assert(dp.subrange(0, i + 1 - start) =~= ext);
                        lemma_dec_val_prefix_le(dp, i + 1 - start);
                        assert(dec_val(ext) > usize::MAX);
                    }
                }
                return None;
            },
        }
    }
    proof {
        assert(buf@.subrange(start, i as int) =~= digits_part(t));
        assert(digits_part(t).len() > 0);
    }
    Some(acc)
}

/// The pieces of `s` between single space bytes; a leading, trailing or
/// doubled space yields an empty piece, as splitting on every single
/// separator does.
pub open spec fn split_sp(s: Seq<u8>) -> Seq<Seq<u8>>
    decreases s.len(),
{
    let k = find_from(s, 0, 32);
    if 0 <= k < s.len() {
        seq![s.subrange(0, k)] + split_sp(s.subrange(k + 1, s.len() as int))
    } else {
        seq![s]
    }
}

/// Whether every piece of `s` parses as a machine-sized unsigned integer.
pub open spec fn int_list_wf(s: Seq<u8>) -> bool {
    forall|i: int| 0 <= i < split_sp(s).len() ==> token_ok(#[trigger] split_sp(s)[i])
}

/// Parses a space-separated list of unsigned integers.  On failure the
/// offending token is handed back: the first piece, in order, that does not
/// parse.
pub fn parse_list(v: &[u8]) -> (r: Result<Vec<usize>, Vec<u8>>)
    ensures
        ({
            let toks = split_sp(v@);
            match r {
                Ok(l) => int_list_wf(v@) && l@.len() == toks.len() && (forall|i: int|
                    0 <= i < toks.len() ==> #[trigger] l@[i] as nat == token_val(toks[i])),
                Err(t) => !int_list_wf(v@) && (exists|i: int|
                    0 <= i < toks.len() && !token_ok(#[trigger] toks[i]) && t@ == toks[i]
                        && (forall|j: int| 0 <= j < i ==> token_ok(#[trigger] toks[j]))),
            }
        }),
{
    let ghost toks = split_sp(v@);
    let mut out: Vec<usize> = Vec::new();
    let mut i: usize = 0;
    let n = v.len();
    proof {
        assert(v@.subrange(0, n as int) =~= v@);
        assert(toks.subrange(0, toks.len() as int) =~= toks);
    }
    loop
        invariant_except_break
            i as int <= n == v@.len(),
            toks == split_sp(v@),
            out@.len() <= toks.len(),
            split_sp(v@.subrange(i as int, n as int)) =~= toks.subrange(
                out@.len() as int,
                toks.len() as int,
            ),
            forall|j: int| 0 <= j < out@.len() ==> token_ok(#[trigger] toks[j]),
            forall|j: int|
                0 <= j < out@.len() ==> #[trigger] out@[j] as nat == token_val(toks[j]),
        ensures
            toks == split_sp(v@),
            out@.len() == toks.len(),
            forall|j: int| 0 <= j < toks.len() ==> token_ok(#[trigger] toks[j]),
            forall|j: int|
                0 <= j < out@.len() ==> #[trigger] out@[j] as nat == token_val(toks[j]),
        decreases n - i,
    {
        let k = find_byte(v, i, n, 32);
        let ghost suf = v@.subrange(i as int, n as int);
        proof {
            lemma_find_from_is(suf, 0, 32, k - i);
            assert(suf.subrange(0, k - i) =~= v@.subrange(i as int, k as int));
            let c = out@.len() as int;
            if k < n {
                assert(suf.subrange(k - i + 1, suf.len() as int) =~= v@.subrange(
                    k + 1,
                    n as int,
                ));
                assert(split_sp(suf) == seq![v@.subrange(i as int, k as int)] + split_sp(
                    v@.subrange(k + 1, n as int),
                ));
            } else {
                assert(suf =~= v@.subrange(i as int, k as int));
                assert(split_sp(suf) == seq![v@.subrange(i as int, k as int)]);
            }
            assert(split_sp(suf).len() >= 1);
            assert(toks.subrange(c, toks.len() as int).len() >= 1);
            assert(toks.subrange(c, toks.len() as int)[0] == toks[c]);
            assert(toks[c] == v@.subrange(i as int, k as int));
        }
        match parse_uint(v, i, k) {
            Some(x) => {
                out.push(x);
            },
            None => {
                let bad = copy_range(v, i, k);
                proof {
                    let c = out@.len() as int;
                    assert(!token_ok(toks[c]) && bad@ == toks[c]);
                }
                return Err(bad);
            },
        }
        if k == n {
            proof {
                assert(toks.subrange(out@.len() - 1, toks.len() as int).len() == 1);
            }
            break;
        }
        proof {
            let c0 = out@.len() - 1;
            let rest = split_sp(v@.subrange(k + 1, n as int));
            assert(toks.subrange(c0, toks.len() as int).len() == rest.len() + 1);
            assert forall|j: int| 0 <= j < rest.len() implies toks.subrange(
                out@.len() as int,
                toks.len() as int,
            )[j] == rest[j] by {
                assert(toks.subrange(c0, toks.len() as int)[j + 1] == rest[j]);
                assert(toks.subrange(c0, toks.len() as int)[j + 1] == toks[c0 + j + 1]);
            }
            assert(split_sp(v@.subrange(k + 1, n as int)) =~= toks.subrange(
                out@.len() as int,
                toks.len() as int,
            ));
        }
        i = k + 1;
    }
    Ok(out)
}

/// The product of the entries of `l`.
pub open spec fn list_product(l: Seq<usize>) -> nat
    decreases l.len(),
{
    if l.len() == 0 {
        1
    } else {
        list_product(l.drop_last()) * (l.last() as nat)
    }
}

pub proof fn lemma_list_product_prefix_le(l: Seq<usize>, i: int)
    requires
        0 <= i <= l.len(),
        forall|j: int| 0 <= j < l.len() ==> #[trigger] l[j] >= 1,
    ensures
        list_product(l.subrange(0, i)) <= list_product(l),
    decreases l.len() - i,
{
    if i == l.len() {
        assert(l.subrange(0, i) =~= l);
    } else {
        let p = l.subrange(0, i);
        let q = l.subrange(0, i + 1);
        assert(q.drop_last() =~= p);
        assert(list_product(q) == list_product(p) * (l[i] as nat));
        assert(list_product(p) * (l[i] as nat) >= list_product(p)) by (nonlinear_arith)
            requires
                l[i] >= 1,
                list_product(p) >= 0,
        ;
        lemma_list_product_prefix_le(l, i + 1);
    }
}

/// Computes the product of the entries of `l`, or `None` when it does not fit
/// in `usize`.
pub fn product_checked(l: &Vec<usize>) -> (r: Option<usize>)
    ensures
        match r {
            Some(p) => p as nat == list_product(l@),
            None => list_product(l@) > usize::MAX,
        },
{
    let n = l.len();
    let mut i: usize = 0;
    while i < n
        invariant
            i <= n == l@.len(),
            forall|j: int| 0 <= j < i ==> #[trigger] l@[j] >= 1,
        decreases n - i,
    {
        if l[i] == 0 {
            proof {
                lemma_product_with_zero(l@, i as int);
            }
            return Some(0);
        }
        i = i + 1;
    }
    let mut acc: usize = 1;
    let mut i: usize = 0;
    proof {
        assert(l@.subrange(0, 0) =~= Seq::<usize>::empty());
    }
    while i < n
        invariant
            i <= n == l@.len(),
            forall|j: int| 0 <= j < n ==> #[trigger] l@[j] >= 1,
            acc as nat == list_product(l@.subrange(0, i as int)),
        decreases n - i,
    {
        let ghost p = l@.subrange(0, i as int);
        let ghost q = l@.subrange(0, i + 1);
        proof {
            assert(q.drop_last() =~= p);
            assert(list_product(q) == list_product(p) * (l@[i as int] as nat));
        }
        match acc.checked_mul(l[i]) {
            Some(m) => {
                acc = m;
            },
            None => {
                proof {
                    lemma_list_product_prefix_le(l@, i + 1);
                }
                return None;
            },
        }
        i = i + 1;
    }
    proof {
        assert(l@.subrange(0, n as int) =~= l@);
    }
    Some(acc)
}

pub proof fn lemma_product_with_zero(l: Seq<usize>, i: int)
    requires
        0 <= i < l.len(),
        l[i] == 0,
    ensures
        list_product(l) == 0,
    decreases l.len(),
{
    if i == l.len() - 1 {
        assert(l.last() == 0);
        assert(list_product(l) == list_product(l.drop_last()) * (l.last() as nat));
        assert(list_product(l.drop_last()) * 0 == 0) by (nonlinear_arith);
    } else {
        lemma_product_with_zero(l.drop_last(), i);
        assert(list_product(l) == 0 * (l.last() as nat));
        assert(0 * (l.last() as nat) == 0) by (nonlinear_arith);
    }
}

} // verus!
