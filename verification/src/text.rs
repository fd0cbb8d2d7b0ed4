//! Decimal rendering and parsing of unsigned integers over character
//! sequences, with round-trip lemmas. These are the building blocks of the
//! wire codec and of the pairing-code text form.
use vstd::prelude::*;

verus! {

/// Relies on std's String::push: appends exactly the given character.
#[verifier::external_body]
pub fn push_char(out: &mut String, c: char)
    ensures
        final(out)@ == old(out)@.push(c),
{
    out.push(c)
}

pub open spec fn is_digit(c: char) -> bool {
    48 <= c as int && c as int <= 57
}

pub open spec fn digit_val(c: char) -> nat
    recommends
        is_digit(c),
{
    (c as int - 48) as nat
}

pub open spec fn digit_char(d: nat) -> char
    recommends
        d < 10,
{
    if d == 0 {
        '0'
    } else if d == 1 {
        '1'
    } else if d == 2 {
        '2'
    } else if d == 3 {
        '3'
    } else if d == 4 {
        '4'
    } else if d == 5 {
        '5'
    } else if d == 6 {
        '6'
    } else if d == 7 {
        '7'
    } else if d == 8 {
        '8'
    } else {
        '9'
    }
}

/// Decimal digits of `n`, most significant first, without leading zeros
/// (except that zero itself is rendered as "0").
pub open spec fn spec_digits(n: nat) -> Seq<char>
    decreases n,
{
    if n < 10 {
        seq![digit_char(n)]
    } else {
        spec_digits(n / 10).push(digit_char(n % 10))
    }
}

/// The numeric value of a sequence of digit characters, by Horner's rule.
pub open spec fn seq_val(ds: Seq<char>) -> nat
    decreases ds.len(),
{
    if ds.len() == 0 {
        0
    } else {
        seq_val(ds.drop_last()) * 10 + digit_val(ds.last())
    }
}

pub proof fn lemma_digit_char_val(d: nat)
    requires
        d < 10,
    ensures
        is_digit(digit_char(d)),
        digit_val(digit_char(d)) == d,
{
}

pub proof fn lemma_digits_wf(n: nat)
    ensures
        spec_digits(n).len() >= 1,
        forall|i: int| 0 <= i < spec_digits(n).len() ==> is_digit(#[trigger] spec_digits(n)[i]),
    decreases n,
{
    if n < 10 {
        lemma_digit_char_val(n);
    } else {
        lemma_digits_wf(n / 10);
        lemma_digit_char_val(n % 10);
        assert forall|i: int| 0 <= i < spec_digits(n).len() implies is_digit(
            #[trigger] spec_digits(n)[i],
        ) by {
            if i < spec_digits(n / 10).len() {
                assert(spec_digits(n)[i] == spec_digits(n / 10)[i]);
            }
        }
    }
}

/// Parsing the digits of `n` recovers `n`.
pub proof fn lemma_digits_val(n: nat)
    ensures
        seq_val(spec_digits(n)) == n,
    decreases n,
{
    if n < 10 {
        lemma_digit_char_val(n);
        let ds = spec_digits(n);
        assert(ds.len() == 1);
        assert(ds.drop_last() =~= Seq::<char>::empty());
        assert(ds.last() == digit_char(n));
        assert(seq_val(ds) == seq_val(Seq::<char>::empty()) * 10 + digit_val(digit_char(n)));
    } else {
        lemma_digits_val(n / 10);
        lemma_digit_char_val(n % 10);
        let ds = spec_digits(n);
        lemma_digits_wf(n / 10);
        assert(ds.len() >= 1);
        assert(ds.drop_last() =~= spec_digits(n / 10));
        assert(ds.last() == digit_char(n % 10));
        assert(seq_val(ds) == seq_val(spec_digits(n / 10)) * 10 + digit_val(digit_char(n % 10)));
        assert(n == (n / 10) * 10 + n % 10) by (nonlinear_arith);
    }
}

/// The position just past the run of digit characters that starts at `i`.
pub open spec fn digit_run_end(s: Seq<char>, i: int) -> int
    decreases s.len() - i when 0 <= i <= s.len()
{
    if i < s.len() && is_digit(s[i]) {
        digit_run_end(s, i + 1)
    } else {
        i
    }
}

pub proof fn lemma_digit_run_end(s: Seq<char>, i: int, k: int)
    requires
        0 <= i,
        0 <= k,
        i + k <= s.len(),
        forall|t: int| i <= t < i + k ==> is_digit(#[trigger] s[t]),
        i + k == s.len() || !is_digit(s[i + k]),
    ensures
        digit_run_end(s, i) == i + k,
    decreases k,
{
    if k > 0 {
        lemma_digit_run_end(s, i + 1, k - 1);
    }
}

pub proof fn lemma_digit_run_digits(s: Seq<char>, i: int)
    requires
        0 <= i <= s.len(),
    ensures
        forall|t: int| i <= t < digit_run_end(s, i) ==> is_digit(#[trigger] s[t]),
    decreases s.len() - i,
{
    if i < s.len() && is_digit(s[i]) {
        lemma_digit_run_digits(s, i + 1);
    }
}

pub proof fn lemma_digit_run_end_bounds(s: Seq<char>, i: int)
    requires
        0 <= i <= s.len(),
    ensures
        i <= digit_run_end(s, i) <= s.len(),
    decreases s.len() - i,
{
    if i < s.len() && is_digit(s[i]) {
        lemma_digit_run_end_bounds(s, i + 1);
    }
}

/// Greedy decimal parse at position `i`: the longest digit run, provided it is
/// non-empty and its value fits in a `u64`.
pub open spec fn spec_parse_u64(s: Seq<char>, i: int) -> Option<(u64, int)> {
    let j = digit_run_end(s, i);
    if i < j && seq_val(s.subrange(i, j)) <= u64::MAX {
        Some(((seq_val(s.subrange(i, j)) as u64), j))
    } else {
        None
    }
}

/// A digit sequence is worth at least any of its prefixes.
pub proof fn lemma_seq_val_prefix(ds: Seq<char>, k: int)
    requires
        0 <= k <= ds.len(),
    ensures
        seq_val(ds.subrange(0, k)) <= seq_val(ds),
    decreases ds.len() - k,
{
    if k < ds.len() {
        lemma_seq_val_prefix(ds, k + 1);
        let a = ds.subrange(0, k);
        let b = ds.subrange(0, k + 1);
        assert(b.drop_last() =~= a);
        assert(seq_val(b) == seq_val(a) * 10 + digit_val(b.last()));
    } else {
        assert(ds.subrange(0, k) =~= ds);
    }
}

/// Parsing right after a rendering of `n` yields `n` back and stops at the
/// first non-digit.
pub proof fn lemma_parse_after_digits(pre: Seq<char>, n: u64, rest: Seq<char>)
    requires
        rest.len() == 0 || !is_digit(rest[0]),
    ensures
        spec_parse_u64(pre + spec_digits(n as nat) + rest, pre.len() as int) == Some(
            (n, pre.len() + spec_digits(n as nat).len() as int),
        ),
{
    let ds = spec_digits(n as nat);
    let s = pre + ds + rest;
    let i = pre.len() as int;
    lemma_digits_wf(n as nat);
    lemma_digits_val(n as nat);
    assert(forall|t: int| i <= t < i + ds.len() ==> is_digit(#[trigger] s[t])) by {
        assert(forall|t: int| i <= t < i + ds.len() ==> s[t] == ds[t - i]);
    }
    if rest.len() > 0 {
        assert(s[i + ds.len()] == rest[0]);
    }
    lemma_digit_run_end(s, i, ds.len() as int);
    assert(s.subrange(i, i + ds.len()) =~= ds);
}

pub fn digit_char_exec(d: u64) -> (c: char)
    requires
        d < 10,
    ensures
        c == digit_char(d as nat),
{
    if d == 0 {
        '0'
    } else if d == 1 {
        '1'
    } else if d == 2 {
        '2'
    } else if d == 3 {
        '3'
    } else if d == 4 {
        '4'
    } else if d == 5 {
        '5'
    } else if d == 6 {
        '6'
    } else if d == 7 {
        '7'
    } else if d == 8 {
        '8'
    } else {
        '9'
    }
}

pub fn is_digit_exec(c: char) -> (b: bool)
    ensures
        b == is_digit(c),
{
    let u = c as u32;
    48 <= u && u <= 57
}

/// Appends the decimal rendering of `n`.
pub fn push_digits(out: &mut String, n: u64)
    ensures
        final(out)@ == old(out)@ + spec_digits(n as nat),
    decreases n,
{
    if n < 10 {
        push_char(out, digit_char_exec(n));
        assert(final(out)@ =~= old(out)@ + spec_digits(n as nat));
    } else {
        push_digits(out, n / 10);
        push_char(out, digit_char_exec(n % 10));
        assert(final(out)@ =~= old(out)@ + spec_digits(n as nat));
    }
}

pub fn u64_to_string(n: u64) -> (r: String)
    ensures
        r@ == spec_digits(n as nat),
{
    let mut out = String::new();
    push_digits(&mut out, n);
    assert(out@ =~= spec_digits(n as nat));
    out
}

/// Greedy decimal parse of `s` at position `i`, exactly as `spec_parse_u64`
/// describes: `None` when no digit stands at `i` or the value overflows.
pub fn parse_u64_at(s: &str, i: usize) -> (r: Option<(u64, usize)>)
    requires
        i <= s@.len(),
    ensures
        match r {
            Some((n, j)) => spec_parse_u64(s@, i as int) == Some((n, j as int)),
            None => spec_parse_u64(s@, i as int) is None,
        },
{
    let len = s.unicode_len();
    // First find the end of the digit run.
    let mut j = i;
    while j < len && is_digit_exec(s.get_char(j))
        invariant
            i <= j <= len,
            len == s@.len(),
            digit_run_end(s@, i as int) == digit_run_end(s@, j as int),
        decreases len - j,
    {
        j += 1;
    }
    proof {
        assert(digit_run_end(s@, j as int) == j as int);
        lemma_digit_run_digits(s@, i as int);
    }
    if j == i {
        return None;
    }
    // Then accumulate the value, watching for overflow.
    let mut t = i;
    let mut acc: u64 = 0;
    while t < j
        invariant
            i <= t <= j <= len,
            len == s@.len(),
            digit_run_end(s@, i as int) == j as int,
            forall|u: int| i <= u < j ==> is_digit(#[trigger] s@[u]),
            acc as nat == seq_val(s@.subrange(i as int, t as int)),
        decreases j - t,
    {
        let c = s.get_char(t);
        let d = (c as u32 - 48) as u64;
        proof {
            let run = s@.subrange(i as int, j as int);
            let cur = s@.subrange(i as int, t as int);
            let next = s@.subrange(i as int, t + 1 as int);
            assert(next.drop_last() =~= cur);
            assert(next.last() == s@[t as int]);
            assert(seq_val(next) == acc * 10 + d);
            assert(next =~= run.subrange(0, t - i + 1));
            lemma_seq_val_prefix(run, t - i + 1);
        }
        if acc > (u64::MAX - d) / 10 {
            // The run's value exceeds u64::MAX, so the parse fails.
            proof {
                assert(acc * 10 + d > u64::MAX) by (nonlinear_arith)
                    requires
                        acc > (u64::MAX - d) / 10,
                        d <= 9,
                {
                }
            }
            return None;
        }
        acc = acc * 10 + d;
        t += 1;
    }
    proof {
        assert(s@.subrange(i as int, t as int) =~= s@.subrange(i as int, j as int));
    }
    Some((acc, j))
}

} // verus!
