//! The resumption state file.
//!
//! An interrupted run persists the list of unfinished `(start, end)` pairs
//! in a small self-describing text form: a `remaining` field holding a list
//! of pairs, every number written as exactly twenty decimal digits. The
//! encoder and the parser are exact inverses, which is what makes a resumed
//! run continue precisely where the interrupted one stopped: decoding what
//! was saved gives back the saved ranges, sorting and validation then
//! canonicalize them.

use vstd::prelude::*;
use vstd::arithmetic::div_mod::lemma_fundamental_div_mod;
use vstd::arithmetic::div_mod::lemma_mod_bound;
use vstd::seq_lib::lemma_multiset_commutative;
use vstd::seq_lib::lemma_sorted_unique;
use vstd::relations::sorted_by;
use vstd::relations::total_ordering;
use crate::range::ByteRange;

verus! {

/// Loading a state file can fail only one way: the bytes are not a valid
/// saved state. The user is told to delete the file and start over.
#[derive(Clone, Copy, Debug, PartialEq, Eq, Structural)]
pub enum StateError {
    Corrupt,
}

pub open spec fn is_digit(b: u8) -> bool {
    48 <= b <= 57
}

pub open spec fn pow10(k: nat) -> int
    decreases k,
{
    if k == 0 {
        1
    } else {
        10 * pow10((k - 1) as nat)
    }
}

/// `n` written as exactly `k` decimal digits, most significant first,
/// left-padded with zeros (digits beyond `k` are dropped).
pub open spec fn dec_fix(n: int, k: nat) -> Seq<u8>
    decreases k,
{
    if k == 0 {
        Seq::empty()
    } else {
        dec_fix(n / 10, (k - 1) as nat).push((48 + n % 10) as u8)
    }
}

/// The value of the `k` digits starting at position `i`.
pub open spec fn digits_val(bytes: Seq<u8>, i: int, k: nat) -> int
    decreases k,
{
    if k == 0 {
        0
    } else {
        digits_val(bytes, i, (k - 1) as nat) * 10 + (bytes[i + k - 1] - 48)
    }
}

proof fn lemma_pow10_pos(k: nat)
    ensures
        pow10(k) >= 1,
    decreases k,
{
    if k > 0 {
        lemma_pow10_pos((k - 1) as nat);
    }
}

proof fn lemma_pow10_increases(a: nat, b: nat)
    requires
        a <= b,
    ensures
        pow10(a) <= pow10(b),
    decreases b,
{
    if a < b {
        lemma_pow10_increases(a, (b - 1) as nat);
        lemma_pow10_pos((b - 1) as nat);
    }
}

/// Twenty digits are enough for any `u64`.
proof fn lemma_pow10_20()
    ensures
        pow10(20) == 100000000000000000000int,
{
    reveal_with_fuel(pow10, 21);
}

proof fn lemma_dec_fix_len(n: int, k: nat)
    ensures
        dec_fix(n, k).len() == k,
    decreases k,
{
    if k > 0 {
        lemma_dec_fix_len(n / 10, (k - 1) as nat);
    }
}

proof fn lemma_dec_fix_digits(n: int, k: nat)
    requires
        n >= 0,
    ensures
        forall|j: int| 0 <= j < k ==> is_digit(#[trigger] dec_fix(n, k)[j]),
    decreases k,
{
    if k > 0 {
        lemma_mod_bound(n, 10);
        lemma_dec_fix_len(n / 10, (k - 1) as nat);
        lemma_dec_fix_digits(n / 10, (k - 1) as nat);
        assert forall|j: int| 0 <= j < k implies is_digit(#[trigger] dec_fix(n, k)[j]) by {
            if j < k - 1 {
                assert(dec_fix(n, k)[j] == dec_fix(n / 10, (k - 1) as nat)[j]);
            }
        };
    }
}

/// Reading back the fixed-width digits of `n` yields `n`.
proof fn lemma_parse_of_dec(bytes: Seq<u8>, i: int, n: int, k: nat)
    requires
        0 <= n < pow10(k),
        0 <= i,
        i + k <= bytes.len(),
        bytes.subrange(i, i + k) == dec_fix(n, k),
    ensures
        digits_val(bytes, i, k) == n,
    decreases k,
{
    if k == 0 {
    } else {
        lemma_fundamental_div_mod(n, 10);
        lemma_mod_bound(n, 10);
        lemma_dec_fix_len(n / 10, (k - 1) as nat);
        assert(n / 10 < pow10((k - 1) as nat)) by (nonlinear_arith)
            requires
                n < pow10(k),
                pow10(k) == 10 * pow10((k - 1) as nat),
                n == 10 * (n / 10) + n % 10,
                n % 10 >= 0,
                n >= 0,
        ;
        assert(n / 10 >= 0);
        assert forall|j: int| 0 <= j < k implies bytes[i + j] == dec_fix(n, k)[j] by {
            assert(bytes.subrange(i, i + k)[j] == bytes[i + j]);
        };
        assert(bytes.subrange(i, i + (k - 1)) =~= dec_fix(n / 10, (k - 1) as nat));
        lemma_parse_of_dec(bytes, i, n / 10, (k - 1) as nat);
        assert(bytes[i + k - 1] == dec_fix(n, k)[k - 1]);
        assert(dec_fix(n, k)[k - 1] == (48 + n % 10) as u8);
    }
}

/// Re-encoding the value of a digit run reproduces the run.
proof fn lemma_dec_of_parse(bytes: Seq<u8>, i: int, k: nat)
    requires
        0 <= i,
        i + k <= bytes.len(),
        forall|j: int| 0 <= j < k ==> is_digit(#[trigger] bytes[i + j]),
    ensures
        dec_fix(digits_val(bytes, i, k), k) == bytes.subrange(i, i + k),
        0 <= digits_val(bytes, i, k) < pow10(k),
    decreases k,
{
    if k == 0 {
        assert(dec_fix(0, 0) =~= bytes.subrange(i, i));
    } else {
        lemma_dec_of_parse(bytes, i, (k - 1) as nat);
        let v = digits_val(bytes, i, (k - 1) as nat);
        let d = bytes[i + k - 1] - 48;
        assert(is_digit(bytes[i + (k - 1)]));
        let w = digits_val(bytes, i, k);
        assert(w == v * 10 + d);
        lemma_pow10_pos((k - 1) as nat);
        assert(0 <= w < pow10(k)) by (nonlinear_arith)
            requires
                w == v * 10 + d,
                0 <= v < pow10((k - 1) as nat),
                0 <= d < 10,
                pow10(k) == 10 * pow10((k - 1) as nat),
        ;
        assert(w / 10 == v && w % 10 == d) by {
            vstd::arithmetic::div_mod::lemma_fundamental_div_mod_converse(w, 10, v, d);
        };
        lemma_dec_fix_len(v, (k - 1) as nat);
        assert(dec_fix(w, k) == dec_fix(v, (k - 1) as nat).push((48 + d) as u8));
        assert((48 + d) as u8 == bytes[i + k - 1]);
        assert(dec_fix(w, k) =~= bytes.subrange(i, i + k));
    }
}

/// Append the twenty-digit form of `n`.
fn push_dec(out: &mut Vec<u8>, n: u64, k: usize)
    ensures
        final(out)@ == old(out)@ + dec_fix(n as int, k as nat),
    decreases k,
{
    if k == 0 {
        proof {
            assert(out@ =~= old(out)@ + dec_fix(n as int, 0));
        }
        return ;
    }
    proof {
        lemma_mod_bound(n as int, 10);
    }
    push_dec(out, n / 10, k - 1);
    out.push(48 + (n % 10) as u8);
    proof {
        assert(out@ =~= old(out)@ + dec_fix(n as int, k as nat));
    }
}

/// Read exactly twenty digits as a `u64`; anything else is corruption.
fn parse_fixed_u64(bytes: &Vec<u8>, i: usize) -> (r: Result<u64, StateError>)
    requires
        i + 20 <= bytes@.len(),
    ensures
        r matches Ok(n) ==> bytes@.subrange(i as int, i + 20) == dec_fix(n as int, 20),
        forall|n: u64| bytes@.subrange(i as int, i + 20) == dec_fix(n as int, 20)
            ==> r == Ok::<u64, StateError>(n),
{
    let ghost gb = bytes@;
    let len = bytes.len();
    let mut acc: u128 = 0;
    let mut j: usize = 0;
    proof {
        lemma_pow10_20();
    }
    while j < 20
        invariant
            gb == bytes@,
            len == gb.len(),
            i + 20 <= len,
            0 <= j <= 20,
            acc == digits_val(gb, i as int, j as nat),
            0 <= acc < pow10(j as nat),
            forall|t: int| 0 <= t < j ==> is_digit(#[trigger] gb[i + t]),
            pow10(20) == 100000000000000000000int,
        decreases 20 - j,
    {
        let b = bytes[i + j];
        if b < 48 || b > 57 {
            proof {
                assert forall|n: u64| gb.subrange(i as int, i + 20) == dec_fix(n as int, 20)
                    implies false by {
                    lemma_dec_fix_digits(n as int, 20);
                    lemma_dec_fix_len(n as int, 20);
                    assert(gb.subrange(i as int, i + 20)[j as int] == gb[i + j]);
                    assert(is_digit(dec_fix(n as int, 20)[j as int]));
                };
            }
            return Err(StateError::Corrupt);
        }
        proof {
            lemma_pow10_increases((j + 1) as nat, 20);
            lemma_pow10_pos(j as nat);
            assert(acc * 10 + (b - 48) < pow10((j + 1) as nat)) by (nonlinear_arith)
                requires
                    0 <= acc < pow10(j as nat),
                    48 <= b <= 57,
                    pow10((j + 1) as nat) == 10 * pow10(j as nat),
            ;
        }
        acc = acc * 10 + (b - 48) as u128;
        j = j + 1;
    }
    proof {
        lemma_dec_of_parse(gb, i as int, 20);
    }
    if acc > 0xFFFF_FFFF_FFFF_FFFFu128 {
        proof {
            assert forall|n: u64| gb.subrange(i as int, i + 20) == dec_fix(n as int, 20)
                implies false by {
                lemma_parse_of_dec(gb, i as int, n as int, 20);
            };
        }
        return Err(StateError::Corrupt);
    }
    let n = acc as u64;
    proof {
        assert forall|m: u64| gb.subrange(i as int, i + 20) == dec_fix(m as int, 20)
            implies n == m by {
            lemma_parse_of_dec(gb, i as int, m as int, 20);
        };
    }
    Ok(n)
}

/// One `(start, end)` pair: `[`, two fixed-width numbers, `]`.
pub open spec fn enc_pair(p: (u64, u64)) -> Seq<u8> {
    seq![91u8] + dec_fix(p.0 as int, 20) + seq![44u8] + dec_fix(p.1 as int, 20) + seq![93u8]
}

/// The pairs in order, separated by commas.
pub open spec fn enc_items(s: Seq<(u64, u64)>) -> Seq<u8>
    decreases s.len(),
{
    if s.len() == 0 {
        Seq::empty()
    } else if s.len() == 1 {
        enc_pair(s[0])
    } else {
        enc_pair(s[0]) + seq![44u8] + enc_items(s.drop_first())
    }
}

/// `{"remaining":[`
pub open spec fn state_prefix() -> Seq<u8> {
    seq![123u8, 34u8, 114u8, 101u8, 109u8, 97u8, 105u8, 110u8, 105u8, 110u8, 103u8, 34u8, 58u8, 91u8]
}

/// `]}`
pub open spec fn state_suffix() -> Seq<u8> {
    seq![93u8, 125u8]
}

/// The byte form of a saved state.
pub open spec fn encode_state(s: Seq<(u64, u64)>) -> Seq<u8> {
    state_prefix() + enc_items(s) + state_suffix()
}

proof fn lemma_enc_pair_facts(p: (u64, u64))
    ensures
        enc_pair(p).len() == 43,
        enc_pair(p)[0] == 91u8,
        enc_pair(p)[21] == 44u8,
        enc_pair(p)[42] == 93u8,
        enc_pair(p).subrange(1, 21) == dec_fix(p.0 as int, 20),
        enc_pair(p).subrange(22, 42) == dec_fix(p.1 as int, 20),
{
    lemma_dec_fix_len(p.0 as int, 20);
    lemma_dec_fix_len(p.1 as int, 20);
    assert(enc_pair(p).subrange(1, 21) =~= dec_fix(p.0 as int, 20));
    assert(enc_pair(p).subrange(22, 42) =~= dec_fix(p.1 as int, 20));
}

proof fn lemma_enc_items_len(s: Seq<(u64, u64)>)
    requires
        s.len() >= 1,
    ensures
        enc_items(s).len() == 44 * s.len() - 1,
    decreases s.len(),
{
    lemma_enc_pair_facts(s[0]);
    if s.len() > 1 {
        lemma_enc_items_len(s.drop_first());
    }
}

/// Append the pair's encoding.
fn push_pair(out: &mut Vec<u8>, p: (u64, u64))
    ensures
        final(out)@ == old(out)@ + enc_pair(p),
{
    out.push(91);
    push_dec(out, p.0, 20);
    out.push(44);
    push_dec(out, p.1, 20);
    out.push(93);
    proof {
        assert(out@ =~= old(out)@ + enc_pair(p));
    }
}

/// Append the encodings of `pairs[i..]`, comma-separated.
fn push_items(out: &mut Vec<u8>, pairs: &Vec<(u64, u64)>, i: usize)
    requires
        i < pairs@.len(),
    ensures
        final(out)@ == old(out)@ + enc_items(pairs@.subrange(i as int, pairs@.len() as int)),
    decreases pairs@.len() - i,
{
    let ghost sub = pairs@.subrange(i as int, pairs@.len() as int);
    let n = pairs.len();
    let p = pairs[i];
    push_pair(out, p);
    if i + 1 < n {
        out.push(44);
        push_items(out, pairs, i + 1);
        proof {
            assert(sub.drop_first() =~= pairs@.subrange(i + 1, pairs@.len() as int));
            assert(sub[0] == p);
            assert(out@ =~= old(out)@ + enc_items(sub));
        }
    } else {
        proof {
            assert(sub.len() == 1 && sub[0] == p);
            assert(out@ =~= old(out)@ + enc_items(sub));
        }
    }
}

/// Read one pair at position `i`; exactly 43 bytes.
fn parse_pair(bytes: &Vec<u8>, i: usize) -> (r: Result<(u64, u64), StateError>)
    requires
        i + 43 <= bytes@.len(),
    ensures
        r matches Ok(p) ==> bytes@.subrange(i as int, i + 43) == enc_pair(p),
        forall|p: (u64, u64)| bytes@.subrange(i as int, i + 43) == enc_pair(p)
            ==> r == Ok::<(u64, u64), StateError>(p),
{
    let ghost gb = bytes@;
    let len = bytes.len();
    proof {
        assert forall|p: (u64, u64)| gb.subrange(i as int, i + 43) == enc_pair(p)
            implies {
                &&& gb[i as int] == 91u8
                &&& gb[i + 21] == 44u8
                &&& gb[i + 42] == 93u8
                &&& gb.subrange(i + 1, i + 21) == dec_fix(p.0 as int, 20)
                &&& gb.subrange(i + 22, i + 42) == dec_fix(p.1 as int, 20)
            } by {
            lemma_enc_pair_facts(p);
            assert(gb.subrange(i as int, i + 43)[0] == gb[i as int]);
            assert(gb.subrange(i as int, i + 43)[21] == gb[i + 21]);
            assert(gb.subrange(i as int, i + 43)[42] == gb[i + 42]);
            assert(gb.subrange(i + 1, i + 21) =~= enc_pair(p).subrange(1, 21));
            assert(gb.subrange(i + 22, i + 42) =~= enc_pair(p).subrange(22, 42));
        };
    }
    if bytes[i] != 91 {
        return Err(StateError::Corrupt);
    }
    let a = match parse_fixed_u64(bytes, i + 1) {
        Ok(a) => a,
        Err(e) => {
            return Err(e);
        }
    };
    if bytes[i + 21] != 44 {
        return Err(StateError::Corrupt);
    }
    let b = match parse_fixed_u64(bytes, i + 22) {
        Ok(b) => b,
        Err(e) => {
            return Err(e);
        }
    };
    if bytes[i + 42] != 93 {
        return Err(StateError::Corrupt);
    }
    proof {
        lemma_enc_pair_facts((a, b));
        assert(gb.subrange(i as int, i + 43) =~= enc_pair((a, b)));
    }
    Ok((a, b))
}

/// What one step of the item grammar looks like.
proof fn lemma_enc_items_decompose(s: Seq<(u64, u64)>, bytes: Seq<u8>, i: int, j: int)
    requires
        s.len() >= 1,
        0 <= i <= j <= bytes.len(),
        bytes.subrange(i, j) == enc_items(s),
    ensures
        i + 43 <= j,
        bytes.subrange(i, i + 43) == enc_pair(s[0]),
        s.len() == 1 ==> j == i + 43,
        s.len() >= 2 ==> j >= i + 44 && bytes[i + 43] == 44u8
            && bytes.subrange(i + 44, j) == enc_items(s.drop_first()),
{
    lemma_enc_items_len(s);
    lemma_enc_pair_facts(s[0]);
    if s.len() == 1 {
        assert(bytes.subrange(i, i + 43) =~= enc_items(s));
    } else {
        lemma_enc_items_len(s.drop_first());
        assert(bytes.subrange(i, i + 43) =~= enc_pair(s[0]));
        assert(bytes.subrange(i, j)[43] == bytes[i + 43]);
        assert((enc_pair(s[0]) + seq![44u8]).len() == 44);
        assert(enc_items(s)[43] == 44u8);
        assert forall|t: int| 0 <= t < j - (i + 44)
            implies bytes.subrange(i + 44, j)[t] == enc_items(s.drop_first())[t] by {
            assert(bytes.subrange(i, j)[44 + t] == bytes[i + 44 + t]);
            assert(enc_items(s)[44 + t] == enc_items(s.drop_first())[t]);
        };
        assert(bytes.subrange(i + 44, j) =~= enc_items(s.drop_first()));
    }
}

/// The bytes from `i` to `j` are the encoding of the non-empty pair list
/// `s`, and the list ends there: the next byte is not a separator.
pub open spec fn items_at(bytes: Seq<u8>, i: int, s: Seq<(u64, u64)>, j: int) -> bool {
    &&& s.len() >= 1
    &&& 0 <= i <= j <= bytes.len()
    &&& bytes.subrange(i, j) == enc_items(s)
    &&& (j == bytes.len() || bytes[j] != 44u8)
}

/// Read a non-empty comma-separated run of pairs starting at `i`, appending
/// them to `out`; the run ends at the first byte that is not a separator.
fn parse_items(bytes: &Vec<u8>, i: usize, out: &mut Vec<(u64, u64)>) -> (r: Result<
    usize,
    StateError,
>)
    requires
        i <= bytes@.len(),
    ensures
        r matches Ok(j2) ==> {
            &&& i <= j2 <= bytes@.len()
            &&& final(out)@.len() > old(out)@.len()
            &&& final(out)@.subrange(0, old(out)@.len() as int) == old(out)@
            &&& bytes@.subrange(i as int, j2 as int) == enc_items(final(out)@.skip(
                old(out)@.len() as int,
            ))
            &&& (j2 == bytes@.len() || bytes@[j2 as int] != 44u8)
        },
        forall|s: Seq<(u64, u64)>, j: int|
            items_at(bytes@, i as int, s, j) ==> (r matches Ok(j2) && j2 == j && final(out)@
                == old(out)@ + s),
    decreases bytes@.len() - i,
{
    let ghost gb = bytes@;
    let ghost out0 = out@;
    let len = bytes.len();
    if len - i < 43 {
        proof {
            assert forall|s: Seq<(u64, u64)>, j: int| items_at(gb, i as int, s, j)
                implies false by {
                lemma_enc_items_decompose(s, gb, i as int, j);
            };
        }
        return Err(StateError::Corrupt);
    }
    let p = match parse_pair(bytes, i) {
        Ok(p) => p,
        Err(e) => {
            proof {
                assert forall|s: Seq<(u64, u64)>, j: int| items_at(gb, i as int, s, j)
                    implies false by {
                    lemma_enc_items_decompose(s, gb, i as int, j);
                };
            }
            return Err(e);
        }
    };
    out.push(p);
    if i + 43 == len || bytes[i + 43] != 44 {
        proof {
            assert(out@ =~= out0 + seq![p]);
            assert(out@.skip(out0.len() as int) =~= seq![p]);
            assert(enc_items(seq![p]) == enc_pair(p));
            assert(out@.subrange(0, out0.len() as int) =~= out0);
            assert forall|s: Seq<(u64, u64)>, j: int| items_at(gb, i as int, s, j)
                implies j == i + 43 && out@ == out0 + s by {
                lemma_enc_items_decompose(s, gb, i as int, j);
                if s.len() >= 2 {
                    assert(gb[i + 43] == 44u8);
                    assert(i + 43 < j <= gb.len());
                } else {
                    assert(s =~= seq![p]);
                }
            };
        }
        return Ok(i + 43);
    }
    let r2 = parse_items(bytes, i + 44, out);
    match r2 {
        Ok(j2) => {
            proof {
                let mid = out0 + seq![p];
                assert(mid =~= out0.push(p));
                assert(out@.subrange(0, mid.len() as int) == mid);
                assert(out@.subrange(0, out0.len() as int) =~= out0);
                assert(out@.len() > out0.len());
                let parsed = out@.skip(out0.len() as int);
                assert(out@[out0.len() as int] == out@.subrange(0, mid.len() as int)[out0.len() as int]);
                assert(parsed[0] == p);
                assert(parsed.len() >= 2);
                assert(parsed.drop_first() =~= out@.skip(mid.len() as int));
                assert(enc_items(parsed) == enc_pair(p) + seq![44u8] + enc_items(
                    parsed.drop_first(),
                ));
                assert(gb.subrange(i as int, j2 as int) =~= enc_pair(p) + seq![44u8]
                    + gb.subrange(i + 44, j2 as int));
                assert forall|s: Seq<(u64, u64)>, j: int| items_at(gb, i as int, s, j)
                    implies j2 == j && out@ == out0 + s by {
                    lemma_enc_items_decompose(s, gb, i as int, j);
                    assert(s.len() >= 2) by {
                        if s.len() == 1 {
                            assert(gb[i + 43] == 44u8);
                        }
                    };
                    assert(s.drop_first().len() >= 1);
                    assert(items_at(gb, i + 44, s.drop_first(), j));
                    assert(out@ == mid + s.drop_first());
                    assert(s =~= seq![s[0]] + s.drop_first());
                    assert(p == s[0]);
                    assert(out@ =~= out0 + s);
                };
            }
            Ok(j2)
        }
        Err(e) => {
            proof {
                assert forall|s: Seq<(u64, u64)>, j: int| items_at(gb, i as int, s, j)
                    implies false by {
                    lemma_enc_items_decompose(s, gb, i as int, j);
                    assert(s.len() >= 2) by {
                        if s.len() == 1 {
                            assert(gb[i + 43] == 44u8);
                        }
                    };
                    assert(s.drop_first().len() >= 1);
                    assert(items_at(gb, i + 44, s.drop_first(), j));
                };
            }
            Err(e)
        }
    }
}

/// The saved form of an interrupted download: the byte ranges still to be
/// fetched, as `(start, end)` pairs in task-slot order.
#[derive(Debug)]
pub struct DownloadState {
    pub remaining: Vec<(u64, u64)>,
}

proof fn lemma_encode_state_facts(s: Seq<(u64, u64)>)
    ensures
        encode_state(s).len() == 16 + enc_items(s).len(),
        encode_state(s).len() >= 16,
        forall|t: int| 0 <= t < 14 ==> #[trigger] encode_state(s)[t] == state_prefix()[t],
        s.len() == 0 ==> encode_state(s).len() == 16,
        s.len() >= 1 ==> encode_state(s)[14] == 91u8,
        s.len() >= 1 ==> encode_state(s).subrange(14, 14 + enc_items(s).len() as int)
            == enc_items(s),
        encode_state(s)[encode_state(s).len() - 2] == 93u8,
        encode_state(s)[encode_state(s).len() - 1] == 125u8,
{
    if s.len() >= 1 {
        lemma_enc_items_len(s);
        lemma_enc_pair_facts(s[0]);
        assert(enc_items(s)[0] == 91u8);
        assert(encode_state(s).subrange(14, 14 + enc_items(s).len() as int) =~= enc_items(s));
    }
}

/// The 14 bytes every state file starts with.
fn state_prefix_bytes() -> (v: Vec<u8>)
    ensures
        v@ == state_prefix(),
{
    let mut v: Vec<u8> = Vec::new();
    v.push(123);
    v.push(34);
    v.push(114);
    v.push(101);
    v.push(109);
    v.push(97);
    v.push(105);
    v.push(110);
    v.push(105);
    v.push(110);
    v.push(103);
    v.push(34);
    v.push(58);
    v.push(91);
    proof {
        assert(v@ =~= state_prefix());
    }
    v
}

impl DownloadState {
    /// Capture the given ranges, slot by slot.
    pub fn from_ranges(ranges: &Vec<ByteRange>) -> (s: Self)
        ensures
            s.remaining@.len() == ranges@.len(),
            forall|k: int| 0 <= k < ranges@.len()
                ==> #[trigger] s.remaining@[k] == (ranges@[k].start, ranges@[k].end),
    {
        let mut remaining: Vec<(u64, u64)> = Vec::new();
        let n = ranges.len();
        let mut k: usize = 0;
        while k < n
            invariant
                n == ranges@.len(),
                0 <= k <= n,
                remaining@.len() == k,
                forall|t: int| 0 <= t < k
                    ==> #[trigger] remaining@[t] == (ranges@[t].start, ranges@[t].end),
            decreases n - k,
        {
            let r = ranges[k];
            remaining.push((r.start, r.end));
            k = k + 1;
        }
        DownloadState { remaining }
    }

    /// The saved pairs as byte ranges, in saved order.
    pub fn to_ranges(&self) -> (rs: Vec<ByteRange>)
        ensures
            rs@.len() == self.remaining@.len(),
            forall|k: int| 0 <= k < rs@.len()
                ==> #[trigger] rs@[k] == (ByteRange {
                    start: self.remaining@[k].0,
                    end: self.remaining@[k].1,
                }),
    {
        let mut rs: Vec<ByteRange> = Vec::new();
        let n = self.remaining.len();
        let mut k: usize = 0;
        while k < n
            invariant
                n == self.remaining@.len(),
                0 <= k <= n,
                rs@.len() == k,
                forall|t: int| 0 <= t < k
                    ==> #[trigger] rs@[t] == (ByteRange {
                        start: self.remaining@[t].0,
                        end: self.remaining@[t].1,
                    }),
            decreases n - k,
        {
            let p = self.remaining[k];
            rs.push(ByteRange { start: p.0, end: p.1 });
            k = k + 1;
        }
        rs
    }

    /// Serialize for the state file.
    pub fn to_bytes(&self) -> (out: Vec<u8>)
        ensures
            out@ == encode_state(self.remaining@),
    {
        let mut out = state_prefix_bytes();
        if self.remaining.len() > 0 {
            push_items(&mut out, &self.remaining, 0);
            proof {
                assert(self.remaining@.subrange(0, self.remaining@.len() as int)
                    =~= self.remaining@);
            }
        }
        out.push(93);
        out.push(125);
        proof {
            assert(out@ =~= encode_state(self.remaining@));
        }
        out
    }

    /// Deserialize a state file. The parser accepts exactly what
    /// `to_bytes` writes: any deviation, a partial write included, is
    /// reported as corruption.
    #[verifier::rlimit(100)]
    pub fn parse(bytes: &Vec<u8>) -> (r: Result<Self, StateError>)
        ensures
            r matches Ok(st) ==> bytes@ == encode_state(st.remaining@),
            forall|s: Seq<(u64, u64)>| bytes@ == encode_state(s)
                ==> (r matches Ok(st) && st.remaining@ == s),
            r is Err ==> r == Err::<Self, StateError>(StateError::Corrupt),
    {
        let ghost gb = bytes@;
        let len = bytes.len();
        proof {
            assert forall|s: Seq<(u64, u64)>| gb == encode_state(s)
                implies {
                    &&& gb.len() >= 16
                    &&& (forall|t: int| 0 <= t < 14 ==> #[trigger] gb[t] == state_prefix()[t])
                    &&& (s.len() == 0 ==> gb.len() == 16)
                    &&& (s.len() >= 1 ==> gb[14] == 91u8 && items_at(gb, 14, s, gb.len() - 2))
                    &&& gb[gb.len() - 2] == 93u8
                    &&& gb[gb.len() - 1] == 125u8
                } by {
                lemma_encode_state_facts(s);
                if s.len() >= 1 {
                    lemma_enc_items_len(s);
                }
            };
        }
        if len < 16 {
            return Err(StateError::Corrupt);
        }
        let pref = state_prefix_bytes();
        let mut k: usize = 0;
        while k < 14
            invariant
                gb == bytes@,
                len == gb.len(),
                len >= 16,
                pref@ == state_prefix(),
                0 <= k <= 14,
                forall|t: int| 0 <= t < k ==> #[trigger] gb[t] == state_prefix()[t],
            decreases 14 - k,
        {
            if bytes[k] != pref[k] {
                return Err(StateError::Corrupt);
            }
            k = k + 1;
        }
        if bytes[14] == 93 {
            if len == 16 && bytes[15] == 125 {
                let st = DownloadState { remaining: Vec::new() };
                proof {
                    assert(st.remaining@ =~= Seq::<(u64, u64)>::empty());
                    lemma_encode_state_facts(st.remaining@);
                    assert(gb =~= encode_state(st.remaining@));
                    assert forall|s: Seq<(u64, u64)>| gb == encode_state(s)
                        implies st.remaining@ == s by {
                        lemma_encode_state_facts(s);
                        if s.len() >= 1 {
                            assert(gb[14] == 91u8);
                        }
                        assert(s =~= st.remaining@);
                    };
                }
                return Ok(st);
            }
            return Err(StateError::Corrupt);
        }
        let mut pairs: Vec<(u64, u64)> = Vec::new();
        let j = match parse_items(bytes, 14, &mut pairs) {
            Ok(j) => j,
            Err(e) => {
                return Err(StateError::Corrupt);
            }
        };
        if !(j <= len && len - j == 2) {
            return Err(StateError::Corrupt);
        }
        if bytes[j] != 93 || bytes[j + 1] != 125 {
            return Err(StateError::Corrupt);
        }
        let st = DownloadState { remaining: pairs };
        proof {
            assert(st.remaining@.subrange(0, 0) =~= Seq::<(u64, u64)>::empty());
            assert(st.remaining@.skip(0) =~= st.remaining@);
            assert(gb.subrange(14, j as int) == enc_items(st.remaining@));
            lemma_encode_state_facts(st.remaining@);
            lemma_enc_items_len(st.remaining@);
            assert(gb =~= encode_state(st.remaining@));
        }
        Ok(st)
    }
}

/// A partial inverse of `encode_state`: the pairs a byte string encodes,
/// where it encodes any.
pub open spec fn decode_state(bytes: Seq<u8>) -> Option<Seq<(u64, u64)>> {
    if exists|s: Seq<(u64, u64)>| bytes == encode_state(s) {
        Some(choose|s: Seq<(u64, u64)>| bytes == encode_state(s))
    } else {
        None
    }
}

proof fn lemma_dec_fix_injective(a: u64, b: u64)
    requires
        dec_fix(a as int, 20) == dec_fix(b as int, 20),
    ensures
        a == b,
{
    let d = dec_fix(a as int, 20);
    lemma_dec_fix_len(a as int, 20);
    lemma_pow10_20();
    assert(d.subrange(0, 20) =~= d);
    lemma_parse_of_dec(d, 0, a as int, 20);
    lemma_parse_of_dec(d, 0, b as int, 20);
}

proof fn lemma_enc_pair_injective(p: (u64, u64), q: (u64, u64))
    requires
        enc_pair(p) == enc_pair(q),
    ensures
        p == q,
{
    lemma_enc_pair_facts(p);
    lemma_enc_pair_facts(q);
    lemma_dec_fix_injective(p.0, q.0);
    lemma_dec_fix_injective(p.1, q.1);
}

proof fn lemma_enc_items_injective(s1: Seq<(u64, u64)>, s2: Seq<(u64, u64)>)
    requires
        enc_items(s1) == enc_items(s2),
    ensures
        s1 == s2,
    decreases s1.len(),
{
    let b = enc_items(s1);
    if s1.len() == 0 {
        if s2.len() >= 1 {
            lemma_enc_items_len(s2);
        }
        assert(s1 =~= s2);
    } else {
        lemma_enc_items_len(s1);
        if s2.len() == 0 {
            assert(false);
        }
        lemma_enc_items_len(s2);
        assert(s1.len() == s2.len());
        assert(b.subrange(0, b.len() as int) =~= b);
        lemma_enc_items_decompose(s1, b, 0, b.len() as int);
        lemma_enc_items_decompose(s2, b, 0, b.len() as int);
        lemma_enc_pair_injective(s1[0], s2[0]);
        if s1.len() >= 2 {
            lemma_enc_items_injective(s1.drop_first(), s2.drop_first());
            assert forall|t: int| 0 <= t < s1.len() implies s1[t] == s2[t] by {
                if t >= 1 {
                    assert(s1.drop_first()[t - 1] == s2.drop_first()[t - 1]);
                }
            };
            assert(s1 =~= s2);
        } else {
            assert(s1 =~= s2);
        }
    }
}

proof fn lemma_encode_state_injective(s1: Seq<(u64, u64)>, s2: Seq<(u64, u64)>)
    requires
        encode_state(s1) == encode_state(s2),
    ensures
        s1 == s2,
{
    lemma_encode_state_facts(s1);
    lemma_encode_state_facts(s2);
    if s1.len() == 0 || s2.len() == 0 {
        if s1.len() == 0 {
            assert(enc_items(s1) == Seq::<u8>::empty());
        } else {
            lemma_enc_items_len(s1);
        }
        if s2.len() == 0 {
            assert(enc_items(s2) == Seq::<u8>::empty());
        } else {
            lemma_enc_items_len(s2);
        }
        assert(s1.len() == 0 && s2.len() == 0);
        assert(s1 =~= s2);
    } else {
        assert(enc_items(s1).len() == enc_items(s2).len());
        assert(encode_state(s1).subrange(14, 14 + enc_items(s1).len() as int)
            == encode_state(s2).subrange(14, 14 + enc_items(s2).len() as int));
        lemma_enc_items_injective(s1, s2);
    }
}

/// Decoding what was encoded gives back exactly what was encoded.
pub proof fn lemma_state_round_trip(s: Seq<(u64, u64)>)
    ensures
        decode_state(encode_state(s)) == Some(s),
{
    assert(encode_state(s) == encode_state(s));
    let t = choose|t: Seq<(u64, u64)>| encode_state(s) == encode_state(t);
    lemma_encode_state_injective(s, t);
}

/// Ascending order on pairs: by start, then by end.
pub open spec fn pair_le(a: (u64, u64), b: (u64, u64)) -> bool {
    a.0 < b.0 || (a.0 == b.0 && a.1 <= b.1)
}

/// The order as a first-class relation, for sorting.
pub open spec fn pair_order() -> spec_fn((u64, u64), (u64, u64)) -> bool {
    |a: (u64, u64), b: (u64, u64)| pair_le(a, b)
}

/// The saved pairs in ascending order.
pub open spec fn sort_pairs(s: Seq<(u64, u64)>) -> Seq<(u64, u64)> {
    s.sort_by(pair_order())
}

/// What `load` hands back for a saved state: sorted, empties dropped.
pub open spec fn canonical_pairs(s: Seq<(u64, u64)>) -> Seq<(u64, u64)> {
    sort_pairs(s).filter(|p: (u64, u64)| p.0 < p.1)
}

proof fn lemma_pair_order_total()
    ensures
        total_ordering(pair_order()),
{
    assert(vstd::relations::reflexive(pair_order())) by {
        assert forall|x: (u64, u64)| #[trigger] pair_order()(x, x) by {}
    };
    assert(vstd::relations::antisymmetric(pair_order())) by {
        assert forall|x: (u64, u64), y: (u64, u64)|
            #[trigger] pair_order()(x, y) && #[trigger] pair_order()(y, x) implies x == y by {}
    };
    assert(vstd::relations::transitive(pair_order())) by {
        assert forall|x: (u64, u64), y: (u64, u64), z: (u64, u64)|
            #[trigger] pair_order()(x, y) && #[trigger] pair_order()(y, z)
            implies pair_order()(x, z) by {}
    };
    assert(vstd::relations::strongly_connected(pair_order())) by {
        assert forall|x: (u64, u64), y: (u64, u64)|
            !(#[trigger] pair_order()(x, y)) implies pair_order()(y, x) by {}
    };
}

proof fn lemma_insert_multiset(s: Seq<(u64, u64)>, j: int, p: (u64, u64))
    requires
        0 <= j <= s.len(),
    ensures
        s.insert(j, p).to_multiset() == s.to_multiset().insert(p),
{
    let a = s.subrange(0, j);
    let b = s.subrange(j, s.len() as int);
    assert(s.insert(j, p) =~= a.push(p) + b);
    assert(s =~= a + b);
    lemma_multiset_commutative(a.push(p), b);
    lemma_multiset_commutative(a, b);
    a.to_multiset_ensures();
    assert(a.push(p).to_multiset() == a.to_multiset().insert(p));
    assert(a.to_multiset().insert(p).add(b.to_multiset())
        =~= a.to_multiset().add(b.to_multiset()).insert(p));
}

fn pair_le_exec(a: (u64, u64), b: (u64, u64)) -> (r: bool)
    ensures
        r == pair_le(a, b),
{
    a.0 < b.0 || (a.0 == b.0 && a.1 <= b.1)
}

/// Insertion sort into ascending pair order.
fn sort_pairs_exec(v: &Vec<(u64, u64)>) -> (out: Vec<(u64, u64)>)
    ensures
        out@ == sort_pairs(v@),
{
    let mut out: Vec<(u64, u64)> = Vec::new();
    let n = v.len();
    let mut i: usize = 0;
    proof {
        assert(v@.take(0) =~= Seq::<(u64, u64)>::empty());
        assert(out@.to_multiset() =~= v@.take(0).to_multiset());
    }
    while i < n
        invariant
            n == v@.len(),
            0 <= i <= n,
            out@.len() == i,
            sorted_by(out@, pair_order()),
            out@.to_multiset() == v@.take(i as int).to_multiset(),
        decreases n - i,
    {
        let p = v[i];
        let ghost o0 = out@;
        let mut j: usize = out.len();
        while j > 0 && !pair_le_exec(out[j - 1], p)
            invariant
                0 <= j <= out@.len(),
                out@ == o0,
                forall|t: int| j <= t < out@.len() ==> !pair_le(#[trigger] out@[t], p),
            decreases j,
        {
            j = j - 1;
        }
        out.insert(j, p);
        proof {
            assert(out@ == o0.insert(j as int, p));
            assert(out@ =~= o0.subrange(0, j as int).push(p) + o0.subrange(
                j as int,
                o0.len() as int,
            ));
            assert forall|a: int, b: int| 0 <= a < b < out@.len()
                implies #[trigger] pair_order()(out@[a], out@[b]) by {
                if b < j {
                    assert(out@[a] == o0[a] && out@[b] == o0[b]);
                    assert(pair_order()(o0[a], o0[b]));
                } else if a > j {
                    assert(out@[a] == o0[a - 1] && out@[b] == o0[b - 1]);
                    assert(pair_order()(o0[a - 1], o0[b - 1]));
                } else if a < j && b == j {
                    assert(out@[a] == o0[a] && out@[b] == p);
                    assert(j >= 1 && pair_le(o0[j - 1], p));
                    if a < j - 1 {
                        assert(pair_order()(o0[a], o0[j - 1]));
                    }
                } else if a == j && b > j {
                    assert(out@[a] == p && out@[b] == o0[b - 1]);
                    assert(!pair_le(o0[b - 1], p));
                } else {
                    assert(a < j && b > j);
                    assert(out@[a] == o0[a] && out@[b] == o0[b - 1]);
                    assert(j >= 1 && pair_le(o0[j - 1], p));
                    assert(!pair_le(o0[b - 1], p));
                    if a < j - 1 {
                        assert(pair_order()(o0[a], o0[j - 1]));
                    }
                    if j - 1 < b - 1 {
                        assert(pair_order()(o0[j - 1], o0[b - 1]));
                    }
                }
            };
            lemma_insert_multiset(o0, j as int, p);
            assert(v@.take(i + 1) =~= v@.take(i as int).push(p));
            v@.take(i as int).to_multiset_ensures();
            assert(v@.take(i + 1).to_multiset() == v@.take(i as int).to_multiset().insert(p));
        }
        i = i + 1;
    }
    proof {
        assert(v@.take(n as int) =~= v@);
        lemma_pair_order_total();
        v@.lemma_sort_by_ensures(pair_order());
        lemma_sorted_unique(out@, sort_pairs(v@), pair_order());
        assert(out@ =~= sort_pairs(v@));
    }
    out
}

/// A plausible residual for an artifact of `size` bytes: every pair is a
/// forward interval ending inside the artifact, and consecutive pairs do
/// not overlap.
pub open spec fn ranges_valid(t: Seq<(u64, u64)>, size: u64) -> bool {
    &&& forall|k: int| 0 <= k < t.len() ==> (#[trigger] t[k]).0 <= t[k].1 && t[k].1 <= size
    &&& forall|k: int| 0 <= k < t.len() - 1 ==> (#[trigger] t[k]).1 <= t[k + 1].0
}

fn check_ranges(t: &Vec<(u64, u64)>, size: u64) -> (b: bool)
    ensures
        b == ranges_valid(t@, size),
{
    let n = t.len();
    let mut k: usize = 0;
    while k < n
        invariant
            n == t@.len(),
            0 <= k <= n,
            forall|u: int| 0 <= u < k ==> (#[trigger] t@[u]).0 <= t@[u].1 && t@[u].1 <= size,
            forall|u: int| 0 <= u < k - 1 ==> (#[trigger] t@[u]).1 <= t@[u + 1].0,
        decreases n - k,
    {
        let p = t[k];
        if !(p.0 <= p.1 && p.1 <= size) {
            return false;
        }
        if k > 0 {
            let q = t[k - 1];
            if !(q.1 <= p.0) {
                return false;
            }
        }
        k = k + 1;
    }
    true
}

impl DownloadState {
    /// Sort the saved pairs, reject anything that is not a plausible
    /// residual for an artifact of `size` bytes, and hand back the ranges
    /// still to download: ascending, non-overlapping, non-empty.
    pub fn load_ranges(&self, size: u64) -> (r: Result<Vec<ByteRange>, StateError>)
        ensures
            r is Ok <==> ranges_valid(sort_pairs(self.remaining@), size),
            r matches Err(e) ==> e == StateError::Corrupt,
            r matches Ok(v) ==> {
                let c = canonical_pairs(self.remaining@);
                &&& v@.len() == c.len()
                &&& forall|k: int| 0 <= k < c.len() ==> #[trigger] v@[k] == (ByteRange {
                    start: c[k].0,
                    end: c[k].1,
                })
                &&& forall|k: int| 0 <= k < v@.len() ==> (#[trigger] v@[k]).wf() && v@[k].end
                    <= size && v@[k].spec_len() > 0
                &&& forall|k: int| 0 <= k < v@.len() - 1 ==> (#[trigger] v@[k]).end <= v@[k
                    + 1].start
            },
    {
        let sorted = sort_pairs_exec(&self.remaining);
        if !check_ranges(&sorted, size) {
            return Err(StateError::Corrupt);
        }
        let ghost gs = sorted@;
        let n = sorted.len();
        let mut v: Vec<ByteRange> = Vec::new();
        let ghost c = Seq::<(u64, u64)>::empty();
        let mut k: usize = 0;
        proof {
            reveal(Seq::filter);
            assert(gs.take(0) =~= Seq::<(u64, u64)>::empty());
            assert(c =~= gs.take(0).filter(|p: (u64, u64)| p.0 < p.1));
        }
        while k < n
            invariant
                n == gs.len(),
                gs == sorted@,
                0 <= k <= n,
                ranges_valid(gs, size),
                c == gs.take(k as int).filter(|p: (u64, u64)| p.0 < p.1),
                v@.len() == c.len(),
                forall|u: int| 0 <= u < c.len() ==> #[trigger] v@[u] == (ByteRange {
                    start: c[u].0,
                    end: c[u].1,
                }),
                forall|u: int| 0 <= u < v@.len() ==> (#[trigger] v@[u]).wf() && v@[u].end <= size
                    && v@[u].spec_len() > 0,
                forall|u: int| 0 <= u < v@.len() - 1 ==> (#[trigger] v@[u]).end <= v@[u + 1].start,
                v@.len() >= 1 && k < n ==> v@[v@.len() - 1].end <= gs[k as int].0,
            decreases n - k,
        {
            let p = sorted[k];
            proof {
                reveal(Seq::filter);
                assert(gs.take(k + 1).drop_last() =~= gs.take(k as int));
                assert(gs.take(k + 1).last() == gs[k as int]);
            }
            if p.0 < p.1 {
                let ghost c0 = c;
                proof {
                    c = c0.push(p);
                    assert(gs.take(k + 1).filter(|q: (u64, u64)| q.0 < q.1) == c0.push(p));
                }
                v.push(ByteRange { start: p.0, end: p.1 });
            } else {
                proof {
                    assert(gs.take(k + 1).filter(|q: (u64, u64)| q.0 < q.1) == c);
                }
            }
            proof {
                if k + 1 < n {
                    assert(gs[k as int].1 <= gs[k + 1].0);
                    if v@.len() >= 1 {
                        assert(v@[v@.len() - 1].end <= gs[k + 1].0);
                    }
                }
            }
            k = k + 1;
        }
        proof {
            assert(gs.take(n as int) =~= gs);
        }
        Ok(v)
    }
}

/// What loading a saved byte string yields: the canonical ranges where the
/// bytes decode to a plausible residual, nothing otherwise.
pub open spec fn load_spec(bytes: Seq<u8>, size: u64) -> Option<Seq<(u64, u64)>> {
    match decode_state(bytes) {
        Option::None => Option::None,
        Option::Some(s) => if ranges_valid(sort_pairs(s), size) {
            Option::Some(canonical_pairs(s))
        } else {
            Option::None
        },
    }
}

/// Saving a plausible residual and loading it back yields exactly its
/// canonical form: sorted, with empty ranges dropped.
pub proof fn lemma_save_load_round_trip(s: Seq<(u64, u64)>, size: u64)
    requires
        ranges_valid(sort_pairs(s), size),
    ensures
        load_spec(encode_state(s), size) == Some(canonical_pairs(s)),
{
    lemma_state_round_trip(s);
}

/// In a plausible residual, an earlier pair ends no later than a later
/// one begins.
proof fn lemma_valid_chain(t: Seq<(u64, u64)>, size: u64, i: int, j: int)
    requires
        ranges_valid(t, size),
        0 <= i < j < t.len(),
    ensures
        t[i].1 <= t[j].0,
    decreases j - i,
{
    if j == i + 1 {
        assert(t[i].1 <= t[i + 1].0);
    } else {
        lemma_valid_chain(t, size, i, j - 1);
        assert(t[j - 1].0 <= t[j - 1].1 && t[j - 1].1 <= t[j].0);
    }
}

/// Sorting leaves an already-sorted list alone.
proof fn lemma_sort_pairs_id(rs: Seq<(u64, u64)>)
    requires
        sorted_by(rs, pair_order()),
    ensures
        sort_pairs(rs) == rs,
{
    lemma_pair_order_total();
    rs.lemma_sort_by_ensures(pair_order());
    lemma_sorted_unique(rs, sort_pairs(rs), pair_order());
}

/// Dropping empty pairs leaves a list without any alone.
proof fn lemma_filter_nonempty_id(rs: Seq<(u64, u64)>)
    requires
        forall|k: int| 0 <= k < rs.len() ==> (#[trigger] rs[k]).0 < rs[k].1,
    ensures
        rs.filter(|p: (u64, u64)| p.0 < p.1) == rs,
    decreases rs.len(),
{
    reveal(Seq::filter);
    if rs.len() == 0 {
    } else {
        assert(rs[rs.len() - 1].0 < rs[rs.len() - 1].1);
        assert forall|k: int| 0 <= k < rs.drop_last().len()
            implies (#[trigger] rs.drop_last()[k]).0 < rs.drop_last()[k].1 by {
            assert(rs.drop_last()[k] == rs[k]);
        };
        lemma_filter_nonempty_id(rs.drop_last());
        assert(rs.filter(|p: (u64, u64)| p.0 < p.1) =~= rs);
    }
}

/// Interruption round trip: a residual as the scheduler reports it —
/// ascending, non-overlapping, non-empty, inside the artifact — comes back
/// from its own state file exactly as it was saved. A rerun therefore
/// plans precisely the bytes the interrupted run left unwritten.
pub proof fn lemma_resume_round_trip(rs: Seq<(u64, u64)>, size: u64)
    requires
        ranges_valid(rs, size),
        forall|k: int| 0 <= k < rs.len() ==> (#[trigger] rs[k]).0 < rs[k].1,
    ensures
        load_spec(encode_state(rs), size) == Some(rs),
{
    assert(sorted_by(rs, pair_order())) by {
        assert forall|i: int, j: int| 0 <= i < j < rs.len()
            implies #[trigger] pair_order()(rs[i], rs[j]) by {
            lemma_valid_chain(rs, size, i, j);
            assert(rs[i].0 <= rs[i].1 && rs[j].0 <= rs[j].1);
        };
    };
    lemma_sort_pairs_id(rs);
    lemma_state_round_trip(rs);
    lemma_filter_nonempty_id(rs);
}

} // verus!
