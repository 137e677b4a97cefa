//! The record syntax the store files pages and the shorthand table
//! under: length-prefixed tokens.  A token is `digits ':' payload`
//! where `digits` is the payload's length in decimal; a count is
//! `digits '#'`.  Records built from tokens are a pure function of the
//! value, so content addressing is deterministic, and the parser
//! recovers exactly the encoded value.

use vstd::prelude::*;
use vstd::string::StrSliceExecFns;
use vstd::string::StringExecFns;
use crate::digest::hex_digit;

verus! {

pub open spec fn pow10(k: nat) -> nat
    decreases k,
{
    if k == 0 {
        1
    } else {
        10 * pow10((k - 1) as nat)
    }
}

pub proof fn lemma_pow10_20()
    ensures
        pow10(20) == 100000000000000000000,
{
    reveal_with_fuel(pow10, 22);
}

pub proof fn lemma_pow10_mono(a: nat, b: nat)
    requires
        a <= b,
    ensures
        pow10(a) <= pow10(b),
    decreases b,
{
    if a < b {
        lemma_pow10_mono(a, (b - 1) as nat);
        assert(pow10(b) == 10 * pow10((b - 1) as nat));
    }
}

pub open spec fn is_dec_digit(c: char) -> bool {
    48 <= c as u32 <= 57
}

pub open spec fn digit_val(c: char) -> int {
    c as u32 - 48
}

/// The decimal digits of `n`, most significant first.
pub open spec fn dec_str(n: nat) -> Seq<char>
    decreases n,
{
    if n < 10 {
        seq![hex_digit(n as int)]
    } else {
        dec_str(n / 10) + seq![hex_digit((n % 10) as int)]
    }
}

pub proof fn lemma_dec_str_is_digits(n: nat)
    ensures
        dec_str(n).len() >= 1,
        forall|i: int| 0 <= i < dec_str(n).len() ==> is_dec_digit(#[trigger] dec_str(n)[i]),
    decreases n,
{
    if n < 10 {
    } else {
        lemma_dec_str_is_digits(n / 10);
    }
}

pub proof fn lemma_dec_str_len(n: nat, k: nat)
    requires
        n < pow10(k),
        k >= 1,
    ensures
        dec_str(n).len() <= k,
    decreases n,
{
    if n < 10 {
    } else {
        assert(k >= 2) by {
            if k == 1 {
                assert(pow10(0nat) == 1);
                assert(pow10(1nat) == 10);
            }
        }
        assert(n / 10 < pow10((k - 1) as nat)) by {
            assert(pow10(k) == 10 * pow10((k - 1) as nat));
            assert(n < 10 * pow10((k - 1) as nat));
            assert(n / 10 < pow10((k - 1) as nat)) by (nonlinear_arith)
                requires
                    n < 10 * pow10((k - 1) as nat),
            ;
        }
        lemma_dec_str_len(n / 10, (k - 1) as nat);
    }
}

/// The length of the run of decimal digits starting at `i`.
pub open spec fn digits_run(s: Seq<char>, i: int) -> int
    decreases s.len() - i when i <= s.len()
{
    if 0 <= i < s.len() && is_dec_digit(s[i]) {
        1 + digits_run(s, i + 1)
    } else {
        0
    }
}

pub proof fn lemma_digits_run_bounds(s: Seq<char>, i: int)
    requires
        0 <= i <= s.len(),
    ensures
        0 <= digits_run(s, i) <= s.len() - i,
    decreases s.len() - i,
{
    if i < s.len() && is_dec_digit(s[i]) {
        lemma_digits_run_bounds(s, i + 1);
    }
}

pub proof fn lemma_digits_run_split(s: Seq<char>, i: int, j: int)
    requires
        0 <= i <= j <= s.len(),
        forall|t: int| i <= t < j ==> is_dec_digit(#[trigger] s[t]),
    ensures
        digits_run(s, i) == j - i + digits_run(s, j),
    decreases j - i,
{
    if i < j {
        lemma_digits_run_split(s, i + 1, j);
    }
}

/// The value of the decimal digits `s[i .. j]`.
pub open spec fn digits_val(s: Seq<char>, i: int, j: int) -> nat
    decreases j - i when i <= j
{
    if i < j {
        (digits_val(s, i, j - 1) * 10 + (if 0 <= j - 1 < s.len() && is_dec_digit(s[j - 1]) {
            digit_val(s[j - 1])
        } else {
            0
        })) as nat
    } else {
        0
    }
}

pub proof fn lemma_digits_val_bound(s: Seq<char>, i: int, j: int)
    requires
        i <= j,
    ensures
        digits_val(s, i, j) < pow10((j - i) as nat),
    decreases j - i,
{
    if i < j {
        lemma_digits_val_bound(s, i, j - 1);
        assert(pow10((j - i) as nat) == 10 * pow10((j - 1 - i) as nat));
    }
}

/// Reading back the digits of `n` embedded in `s` yields `n`.
pub proof fn lemma_digits_val_dec_str(n: nat, s: Seq<char>, i: int)
    requires
        0 <= i,
        i + dec_str(n).len() <= s.len(),
        s.subrange(i, i + dec_str(n).len()) == dec_str(n),
    ensures
        digits_val(s, i, i + dec_str(n).len()) == n,
    decreases n,
{
    let l = dec_str(n).len();
    if n < 10 {
        assert(s[i] == dec_str(n)[0]);
        assert(digit_val(hex_digit(n as int)) == n);
        assert(is_dec_digit(hex_digit(n as int)));
        assert(digits_val(s, i, i) == 0);
        assert(digits_val(s, i, i + 1) == digits_val(s, i, i) * 10 + digit_val(s[i]));
    } else {
        lemma_dec_str_is_digits(n / 10);
        let lp = dec_str(n / 10).len();
        assert(l == lp + 1);
        assert(s.subrange(i, i + lp) =~= dec_str(n / 10)) by {
            assert(forall|t: int|
                0 <= t < lp ==> #[trigger] s.subrange(i, i + lp)[t] == s.subrange(i, i + l)[t]);
        }
        lemma_digits_val_dec_str(n / 10, s, i);
        assert(s[i + l - 1] == dec_str(n)[l - 1]);
        assert(dec_str(n)[l - 1] == hex_digit((n % 10) as int));
        assert(digit_val(hex_digit((n % 10) as int)) == n % 10);
        assert(digits_val(s, i, i + l) == (n / 10) * 10 + n % 10);
        assert((n / 10) * 10 + n % 10 == n) by (nonlinear_arith);
    }
}

/// Every character of `dec_str(n)` is a digit, so a digit run covers it;
/// and any non-digit (or the end) right after stops the run there.
pub proof fn lemma_digits_run_exact(s: Seq<char>, i: int, j: int)
    requires
        0 <= i <= j <= s.len(),
        forall|t: int| i <= t < j ==> is_dec_digit(#[trigger] s[t]),
        j == s.len() || !is_dec_digit(s[j]),
    ensures
        digits_run(s, i) == j - i,
{
    lemma_digits_run_split(s, i, j);
}

/// A length-prefixed token: the payload's length in decimal, a colon,
/// the payload.
pub open spec fn tok_enc(v: Seq<char>) -> Seq<char> {
    dec_str(v.len()) + seq![':'] + v
}

/// An embedded count: digits and a terminating hash mark.
pub open spec fn cnt_enc(n: nat) -> Seq<char> {
    dec_str(n) + seq!['#']
}

/// Lengths and counts the codec can carry; every in-memory length does.
pub open spec fn fits_len(n: nat) -> bool {
    n <= u64::MAX
}

/// The value of the digits never shrinks as the run extends.
pub proof fn lemma_digits_val_mono(s: Seq<char>, i: int, j1: int, j2: int)
    requires
        i <= j1 <= j2,
    ensures
        digits_val(s, i, j2) >= digits_val(s, i, j1),
    decreases j2 - j1,
{
    if j1 < j2 {
        lemma_digits_val_mono(s, i, j1, j2 - 1);
    }
}

/// Parse one token at position `i`: `Some((payload, next position))`,
/// or `None` if the text there is not a token.
pub open spec fn sp_tok(s: Seq<char>, i: int) -> Option<(Seq<char>, int)> {
    if !(0 <= i <= s.len()) {
        None
    } else {
        let r = digits_run(s, i);
        if r == 0 || r > 20 {
            None
        } else if i + r == s.len() || s[i + r] != ':' {
            None
        } else if digits_val(s, i, i + r) > u64::MAX {
            None
        } else {
            let n = digits_val(s, i, i + r) as int;
            if i + r + 1 + n <= s.len() {
                Some((s.subrange(i + r + 1, i + r + 1 + n), i + r + 1 + n))
            } else {
                None
            }
        }
    }
}

/// Parse one count at position `i`.
pub open spec fn sp_cnt(s: Seq<char>, i: int) -> Option<(nat, int)> {
    if !(0 <= i <= s.len()) {
        None
    } else {
        let r = digits_run(s, i);
        if r == 0 || r > 20 {
            None
        } else if i + r == s.len() || s[i + r] != '#' {
            None
        } else if digits_val(s, i, i + r) > u64::MAX {
            None
        } else {
            Some((digits_val(s, i, i + r), i + r + 1))
        }
    }
}

pub proof fn lemma_sp_cnt_progress(s: Seq<char>, i: int)
    ensures
        sp_cnt(s, i) matches Some(p) ==> i < p.1 <= s.len(),
{
    if 0 <= i <= s.len() {
        lemma_digits_run_bounds(s, i);
    }
}

/// Parsing at the start of an encoded token embedded in any context
/// recovers exactly the payload.
pub proof fn lemma_sp_tok_at(a: Seq<char>, v: Seq<char>, b: Seq<char>)
    requires
        fits_len(v.len()),
    ensures
        sp_tok(a + tok_enc(v) + b, a.len() as int) == Some(
            (v, a.len() + tok_enc(v).len() as int),
        ),
{
    let s = a + tok_enc(v) + b;
    let i = a.len() as int;
    let d = dec_str(v.len());
    let l = d.len();
    lemma_dec_str_is_digits(v.len());
    lemma_pow10_20();
    lemma_dec_str_len(v.len(), 20);
    assert(s =~= a + d + seq![':'] + v + b);
    assert(forall|t: int| i <= t < i + l ==> s[t] == d[t - i]);
    assert(s[i + l] == ':');
    assert(!is_dec_digit(':'));
    lemma_digits_run_exact(s, i, i + l);
    assert(s.subrange(i, i + l) =~= d);
    lemma_digits_val_dec_str(v.len(), s, i);
    assert(digits_val(s, i, i + l) == v.len());
    assert(s.subrange(i + l + 1, i + l + 1 + v.len()) =~= v);
}

/// Parsing at the start of an encoded count recovers exactly the count.
pub proof fn lemma_sp_cnt_at(a: Seq<char>, n: nat, b: Seq<char>)
    requires
        fits_len(n),
    ensures
        sp_cnt(a + cnt_enc(n) + b, a.len() as int) == Some(
            (n, a.len() + cnt_enc(n).len() as int),
        ),
{
    let s = a + cnt_enc(n) + b;
    let i = a.len() as int;
    let d = dec_str(n);
    let l = d.len();
    lemma_dec_str_is_digits(n);
    lemma_pow10_20();
    lemma_dec_str_len(n, 20);
    assert(s =~= a + d + seq!['#'] + b);
    assert(forall|t: int| i <= t < i + l ==> s[t] == d[t - i]);
    assert(s[i + l] == '#');
    assert(!is_dec_digit('#'));
    lemma_digits_run_exact(s, i, i + l);
    assert(s.subrange(i, i + l) =~= d);
    lemma_digits_val_dec_str(n, s, i);
}

/// Render `n` in decimal.
pub fn to_dec(n: u64) -> (r: String)
    ensures
        r@ == dec_str(n as nat),
    decreases n,
{
    let digits = "0123456789";
    proof {
        reveal_strlit("0123456789");
        assert(digits.is_ascii());
        assert(forall|d: int| 0 <= d < 10 ==> digits@[d] == hex_digit(d));
    }
    if n < 10 {
        let d = n as usize;
        let r = digits.substring_ascii(d, d + 1).to_owned();
        proof {
            assert(digits@.subrange(d as int, d as int + 1) =~= seq![hex_digit(n as int)]);
        }
        r
    } else {
        let hi = to_dec(n / 10);
        let d = (n % 10) as usize;
        let r = hi.concat(digits.substring_ascii(d, d + 1));
        proof {
            assert(digits@.subrange(d as int, d as int + 1) =~= seq![
                hex_digit((n as nat % 10) as int)]);
        }
        r
    }
}

/// Append the token encoding of `v` to `out`.
pub fn tok_write(out: &mut String, v: &str)
    ensures
        final(out)@ == old(out)@ + tok_enc(v@),
        fits_len(v@.len()),
{
    let ghost o0 = out@;
    let n = v.unicode_len();
    let d = to_dec(n as u64);
    out.append(d.as_str());
    out.append(":");
    out.append(v);
    proof {
        reveal_strlit(":");
        assert(":"@ =~= seq![':']);
        assert(out@ =~= o0 + tok_enc(v@));
    }
}

/// Append the count encoding of `n` to `out`.
pub fn cnt_write(out: &mut String, n: u64)
    ensures
        final(out)@ == old(out)@ + cnt_enc(n as nat),
{
    let ghost o0 = out@;
    let d = to_dec(n);
    out.append(d.as_str());
    out.append("#");
    proof {
        reveal_strlit("#");
        assert("#"@ =~= seq!['#']);
        assert(out@ =~= o0 + cnt_enc(n as nat));
    }
}

/// Scan the decimal digit run starting at `i`; returns its end.
fn scan_digits(s: &str, i: usize) -> (j: usize)
    requires
        i <= s@.len(),
    ensures
        i <= j <= s@.len(),
        j - i == digits_run(s@, i as int),
        forall|t: int| i <= t < j ==> is_dec_digit(#[trigger] s@[t]),
{
    let n = s.unicode_len();
    let mut j = i;
    loop
        invariant
            n == s@.len(),
            i <= j <= n,
            forall|t: int| i <= t < j ==> is_dec_digit(#[trigger] s@[t]),
        ensures
            i <= j <= n,
            forall|t: int| i <= t < j ==> is_dec_digit(#[trigger] s@[t]),
            j == n || !is_dec_digit(s@[j as int]),
        decreases n - j,
    {
        if j >= n {
            break ;
        }
        let c = s.get_char(j);
        let u = c as u32;
        if !(48 <= u && u <= 57) {
            proof {
                assert(!is_dec_digit(s@[j as int]));
            }
            break ;
        }
        j = j + 1;
    }
    proof {
        lemma_digits_run_exact(s@, i as int, j as int);
    }
    j
}

/// Read the value of the digits `s[i .. j]`; `None` when it does not
/// fit in a `u64`.
fn read_digits(s: &str, i: usize, j: usize) -> (r: Option<u64>)
    requires
        i <= j <= s@.len(),
        forall|t: int| i <= t < j ==> is_dec_digit(#[trigger] s@[t]),
    ensures
        match r {
            Some(v) => v as nat == digits_val(s@, i as int, j as int),
            None => digits_val(s@, i as int, j as int) > u64::MAX,
        },
{
    let mut k = i;
    let mut val: u64 = 0;
    while k < j
        invariant
            i <= k <= j <= s@.len(),
            forall|t: int| i <= t < j ==> is_dec_digit(#[trigger] s@[t]),
            val as nat == digits_val(s@, i as int, k as int),
        decreases j - k,
    {
        let c = s.get_char(k);
        let d = (c as u32 - 48) as u64;
        if val > (u64::MAX - d) / 10 {
            proof {
                assert(digits_val(s@, i as int, k as int + 1) == val * 10 + d);
                assert(val * 10 + d > u64::MAX) by (nonlinear_arith)
                    requires
                        val > (u64::MAX - d) / 10,
                        d <= 9,
                ;
                lemma_digits_val_mono(s@, i as int, k as int + 1, j as int);
            }
            return None;
        }
        val = val * 10 + d;
        k = k + 1;
    }
    Some(val)
}

/// Parse one token at position `i`; mirrors `sp_tok` exactly.
pub fn parse_tok(s: &str, i: usize) -> (r: Option<(String, usize)>)
    requires
        i <= s@.len(),
    ensures
        match r {
            Some(p) => sp_tok(s@, i as int) == Some((p.0@, p.1 as int)) && i < p.1 <= s@.len(),
            None => sp_tok(s@, i as int) is None,
        },
{
    let n = s.unicode_len();
    let j = scan_digits(s, i);
    let run = j - i;
    if run == 0 || run > 20 {
        return None;
    }
    if j >= n {
        return None;
    }
    if s.get_char(j) != ':' {
        return None;
    }
    let val = match read_digits(s, i, j) {
        Some(v) => v,
        None => {
            return None;
        },
    };
    let remaining = (n - (j + 1)) as u64;
    if val > remaining {
        return None;
    }
    let plen = val as usize;
    let payload = s.substring_char(j + 1, j + 1 + plen).to_owned();
    proof {
        assert(sp_tok(s@, i as int) == Some((payload@, (j + 1 + plen) as int)));
    }
    Some((payload, j + 1 + plen))
}

/// Parse one count at position `i`; mirrors `sp_cnt` exactly.
pub fn parse_cnt(s: &str, i: usize) -> (r: Option<(u64, usize)>)
    requires
        i <= s@.len(),
    ensures
        match r {
            Some(p) => sp_cnt(s@, i as int) == Some((p.0 as nat, p.1 as int)) && i < p.1
                <= s@.len(),
            None => sp_cnt(s@, i as int) is None,
        },
{
    let n = s.unicode_len();
    let j = scan_digits(s, i);
    let run = j - i;
    if run == 0 || run > 20 {
        return None;
    }
    if j >= n {
        return None;
    }
    if s.get_char(j) != '#' {
        return None;
    }
    let val = match read_digits(s, i, j) {
        Some(v) => v,
        None => {
            return None;
        },
    };
    Some((val, j + 1))
}

/// The pairs of a dictionary, each as two tokens, in order.
pub open spec fn enc_pairs_items(ps: Seq<(Seq<char>, Seq<char>)>) -> Seq<char>
    decreases ps.len(),
{
    if ps.len() == 0 {
        Seq::empty()
    } else {
        tok_enc(ps.first().0) + tok_enc(ps.first().1) + enc_pairs_items(ps.drop_first())
    }
}

/// A dictionary block: the pair count, then the pairs.
pub open spec fn enc_pairs(ps: Seq<(Seq<char>, Seq<char>)>) -> Seq<char> {
    cnt_enc(ps.len()) + enc_pairs_items(ps)
}

pub proof fn lemma_enc_pairs_items_push(ps: Seq<(Seq<char>, Seq<char>)>, k: Seq<char>, v: Seq<char>)
    ensures
        enc_pairs_items(ps.push((k, v))) == enc_pairs_items(ps) + tok_enc(k) + tok_enc(v),
    decreases ps.len(),
{
    if ps.len() == 0 {
        assert(ps.push((k, v)).drop_first() =~~= Seq::<(Seq<char>, Seq<char>)>::empty());
        assert(ps =~~= Seq::<(Seq<char>, Seq<char>)>::empty());
        assert(enc_pairs_items(Seq::<(Seq<char>, Seq<char>)>::empty()) == Seq::<char>::empty());
        assert(ps.push((k, v)).first() == (k, v));
        assert(enc_pairs_items(ps.push((k, v))) =~= enc_pairs_items(ps) + tok_enc(k) + tok_enc(v));
    } else {
        lemma_enc_pairs_items_push(ps.drop_first(), k, v);
        assert(ps.push((k, v)).first() == ps.first());
        assert(ps.push((k, v)).drop_first() =~~= ps.drop_first().push((k, v)));
        let t0 = tok_enc(ps.first().0);
        let t1 = tok_enc(ps.first().1);
        let e = enc_pairs_items(ps.drop_first());
        assert(enc_pairs_items(ps.push((k, v))) == t0 + t1 + (e + tok_enc(k) + tok_enc(v)));
        assert(enc_pairs_items(ps) == t0 + t1 + e);
        assert(t0 + t1 + (e + tok_enc(k) + tok_enc(v)) =~= (t0 + t1 + e) + tok_enc(k) + tok_enc(
            v,
        ));
    }
}

/// Parse `n` pairs starting at `i`.
pub open spec fn sp_pairs(s: Seq<char>, i: int, n: nat) -> Option<
    (Seq<(Seq<char>, Seq<char>)>, int),
>
    decreases n,
{
    if n == 0 {
        Some((Seq::empty(), i))
    } else {
        match sp_tok(s, i) {
            None => None,
            Some(kp) => match sp_tok(s, kp.1) {
                None => None,
                Some(vp) => match sp_pairs(s, vp.1, (n - 1) as nat) {
                    None => None,
                    Some(rest) => Some((seq![(kp.0, vp.0)] + rest.0, rest.1)),
                },
            },
        }
    }
}

/// Parse a dictionary block at `i`: count, pairs, unique keys.
pub open spec fn sp_dict(s: Seq<char>, i: int) -> Option<(Seq<(Seq<char>, Seq<char>)>, int)> {
    match sp_cnt(s, i) {
        None => None,
        Some(np) => match sp_pairs(s, np.1, np.0) {
            None => None,
            Some(ps) => if crate::dict::unique_keys(ps.0) {
                Some(ps)
            } else {
                None
            },
        },
    }
}

/// Parsing at the start of an encoded pair block recovers the pairs.
#[verifier::rlimit(60)]
#[verifier::spinoff_prover]
pub proof fn lemma_sp_pairs_at(a: Seq<char>, ps: Seq<(Seq<char>, Seq<char>)>, b: Seq<char>)
    requires
        forall|t: int|
            0 <= t < ps.len() ==> fits_len((#[trigger] ps[t]).0.len()) && fits_len(ps[t].1.len()),
    ensures
        sp_pairs(a + enc_pairs_items(ps) + b, a.len() as int, ps.len()) == Some(
            (ps, a.len() + enc_pairs_items(ps).len() as int),
        ),
    decreases ps.len(),
{
    let s = a + enc_pairs_items(ps) + b;
    if ps.len() == 0 {
        assert(ps =~~= Seq::<(Seq<char>, Seq<char>)>::empty());
    } else {
        let h = ps.first();
        let t = ps.drop_first();
        assert(h.0.len() <= u64::MAX && h.1.len() <= u64::MAX) by {
            assert(ps[0] == h);
        }
        let a2 = a + tok_enc(h.0);
        let a3 = a2 + tok_enc(h.1);
        assert(s =~= a + tok_enc(h.0) + (tok_enc(h.1) + enc_pairs_items(t) + b));
        lemma_sp_tok_at(a, h.0, tok_enc(h.1) + enc_pairs_items(t) + b);
        assert(s =~= a2 + tok_enc(h.1) + (enc_pairs_items(t) + b));
        lemma_sp_tok_at(a2, h.1, enc_pairs_items(t) + b);
        assert(s =~= a3 + enc_pairs_items(t) + b);
        assert(forall|u: int| 0 <= u < t.len() ==> t[u] == ps[u + 1]);
        lemma_sp_pairs_at(a3, t, b);
        assert(sp_tok(s, a.len() as int) == Some((h.0, a2.len() as int)));
        assert(sp_tok(s, a2.len() as int) == Some((h.1, a3.len() as int)));
        assert(sp_pairs(s, a3.len() as int, t.len()) == Some(
            (t, a3.len() + enc_pairs_items(t).len() as int),
        ));
        assert(seq![(h.0, h.1)] + t =~~= ps);
        assert(a3.len() + enc_pairs_items(t).len() == a.len() + enc_pairs_items(ps).len());
    }
}

/// Parsing at the start of an encoded dictionary block recovers the
/// pairs, provided the keys are unique.
pub proof fn lemma_sp_dict_at(a: Seq<char>, ps: Seq<(Seq<char>, Seq<char>)>, b: Seq<char>)
    requires
        fits_len(ps.len()),
        crate::dict::unique_keys(ps),
        forall|t: int|
            0 <= t < ps.len() ==> fits_len((#[trigger] ps[t]).0.len()) && fits_len(ps[t].1.len()),
    ensures
        sp_dict(a + enc_pairs(ps) + b, a.len() as int) == Some(
            (ps, a.len() + enc_pairs(ps).len() as int),
        ),
{
    let s = a + enc_pairs(ps) + b;
    assert(s =~= a + cnt_enc(ps.len()) + (enc_pairs_items(ps) + b));
    lemma_sp_cnt_at(a, ps.len(), enc_pairs_items(ps) + b);
    let a2 = a + cnt_enc(ps.len());
    assert(s =~= a2 + enc_pairs_items(ps) + b);
    lemma_sp_pairs_at(a2, ps, b);
}

/// Append the dictionary block of `d` to `out`.
pub fn write_dict(out: &mut String, d: &crate::dict::Dict)
    ensures
        final(out)@ == old(out)@ + enc_pairs(d.seqv()),
        fits_len(d.seqv().len()),
        forall|t: int|
            0 <= t < d.seqv().len() ==> fits_len((#[trigger] d.seqv()[t]).0.len()) && fits_len(
                d.seqv()[t].1.len(),
            ),
{
    let ghost o0 = out@;
    let ghost ps = d.seqv();
    let n = d.len();
    cnt_write(out, n as u64);
    let mut i: usize = 0;
    while i < n
        invariant
            n == ps.len(),
            d.seqv() == ps,
            i <= n,
            out@ == o0 + cnt_enc(ps.len()) + enc_pairs_items(ps.subrange(0, i as int)),
            forall|t: int|
                0 <= t < i ==> fits_len((#[trigger] ps[t]).0.len()) && fits_len(ps[t].1.len()),
        decreases n - i,
    {
        tok_write(out, d.key_at(i).as_str());
        tok_write(out, d.val_at(i).as_str());
        proof {
            lemma_enc_pairs_items_push(ps.subrange(0, i as int), ps[i as int].0, ps[i as int].1);
            assert(ps.subrange(0, i as int).push(ps[i as int]) =~~= ps.subrange(0, i as int + 1));
            assert(out@ =~= o0 + cnt_enc(ps.len()) + enc_pairs_items(ps.subrange(0, i as int + 1)));
        }
        i = i + 1;
    }
    proof {
        assert(ps.subrange(0, ps.len() as int) =~~= ps);
        assert(out@ =~= o0 + enc_pairs(ps));
    }
}

/// Parse a dictionary block at `i`; mirrors `sp_dict` exactly.
pub fn parse_dict(s: &str, i: usize) -> (r: Option<(crate::dict::Dict, usize)>)
    requires
        i <= s@.len(),
    ensures
        match r {
            Some(p) => p.0.wf() && sp_dict(s@, i as int) == Some((p.0.seqv(), p.1 as int)) && i
                < p.1 <= s@.len(),
            None => sp_dict(s@, i as int) is None,
        },
{
    let (count, start) = match parse_cnt(s, i) {
        Some(p) => p,
        None => {
            return None;
        },
    };
    let mut d = crate::dict::Dict::new();
    let mut cur = start;
    let mut rem = count;
    while rem > 0
        invariant
            i <= s@.len(),
            cur <= s@.len(),
            i < cur,
            d.wf(),
            sp_cnt(s@, i as int) == Some((count as nat, start as int)),
            sp_pairs(s@, start as int, count as nat) == (match sp_pairs(
                s@,
                cur as int,
                rem as nat,
            ) {
                None => None::<(Seq<(Seq<char>, Seq<char>)>, int)>,
                Some(tail) => Some((d.seqv() + tail.0, tail.1)),
            }),
        decreases rem,
    {
        let (k, i2) = match parse_tok(s, cur) {
            Some(p) => p,
            None => {
                return None;
            },
        };
        let (v, i3) = match parse_tok(s, i2) {
            Some(p) => p,
            None => {
                return None;
            },
        };
        let ghost d0 = d.seqv();
        if d.contains(k.as_str()) {
            proof {
                crate::dict::lemma_map_of_contains(d0, k@);
                let w = choose|w: int| 0 <= w < d0.len() && (#[trigger] d0[w]).0 == k@;
                match sp_pairs(s@, cur as int, rem as nat) {
                    Some(tail) => {
                        let total = d0 + tail.0;
                        assert(total[w].0 == k@);
                        assert(total[d0.len() as int].0 == k@);
                        assert(!crate::dict::unique_keys(total));
                    },
                    None => {},
                }
            }
            return None;
        }
        d.insert(k, v);
        proof {
            crate::dict::lemma_map_of_contains(d0, k@);
            assert(d.seqv() =~~= d0.push((k@, v@)));
            match sp_pairs(s@, i3 as int, (rem - 1) as nat) {
                Some(tail) => {
                    assert(d.seqv() + tail.0 =~~= d0 + (seq![(k@, v@)] + tail.0));
                },
                None => {},
            }
        }
        cur = i3;
        rem = rem - 1;
    }
    proof {
        assert(sp_pairs(s@, cur as int, 0) == Some((Seq::<(Seq<char>, Seq<char>)>::empty(), cur as int)));
        assert(d.seqv() + Seq::<(Seq<char>, Seq<char>)>::empty() =~~= d.seqv());
    }
    Some((d, cur))
}

} // verus!
