//! Pairing codes and the bounded pool of channel-number slots they draw from.
//! A slot is *available* until it is embedded in an issued code, *pending*
//! from then until it is released, and never held by two codes at once.
use crate::text::{parse_u64_at, push_char, spec_digits, spec_parse_u64, u64_to_string};
use rand::Rng;
use rand::SeedableRng;
use rand_chacha::ChaCha8Rng;
use vstd::prelude::*;

verus! {

/// The failure with which code issuance refuses: every slot of the bounded
/// pool is already pending.
#[derive(Debug)]
pub enum CodeError {
    ChannelNotAvailable,
}

#[verifier::external_type_specification]
#[verifier::external_body]
pub struct ExChaCha8Rng(ChaCha8Rng);

/// Relies on rand's SeedableRng::from_entropy: a generator freshly seeded
/// from the operating system.
#[verifier::external_body]
fn rng_from_entropy() -> ChaCha8Rng {
    ChaCha8Rng::from_entropy()
}

/// Relies on rand's Rng::gen_range: a value drawn from the given range. The
/// range must not be empty, since gen_range panics on an empty one.
#[verifier::external_body]
fn rng_below(rng: &mut ChaCha8Rng, bound: usize) -> (r: usize)
    requires
        bound >= 1,
    ensures
        r < bound,
{
    rng.gen_range(0..bound)
}

/// How many words the fixed dictionary holds.
pub const WORD_COUNT: usize = 8;

/// The fixed dictionary that code words are drawn from.
pub open spec fn spec_word(i: int) -> Seq<char> {
    if i == 0 {
        "apple"@
    } else if i == 1 {
        "banana"@
    } else if i == 2 {
        "cherry"@
    } else if i == 3 {
        "date"@
    } else if i == 4 {
        "elderberry"@
    } else if i == 5 {
        "fig"@
    } else if i == 6 {
        "grape"@
    } else {
        "honeydew"@
    }
}

/// The word at a dictionary index.
pub fn word_at(i: usize) -> (r: &'static str)
    requires
        i < WORD_COUNT,
    ensures
        r@ == spec_word(i as int),
{
    if i == 0 {
        "apple"
    } else if i == 1 {
        "banana"
    } else if i == 2 {
        "cherry"
    } else if i == 3 {
        "date"
    } else if i == 4 {
        "elderberry"
    } else if i == 5 {
        "fig"
    } else if i == 6 {
        "grape"
    } else {
        "honeydew"
    }
}

/// A pairing code: a channel-number slot and two dictionary words, rendered
/// as `<number>-<word1>-<word2>`.
#[derive(Debug)]
pub struct Code {
    pub channel_number: u8,
    pub word1: String,
    pub word2: String,
}

/// The mathematical value of a pairing code.
pub struct CodeView {
    pub channel_number: u8,
    pub word1: Seq<char>,
    pub word2: Seq<char>,
}

impl View for Code {
    type V = CodeView;

    open spec fn view(&self) -> CodeView {
        CodeView { channel_number: self.channel_number, word1: self.word1@, word2: self.word2@ }
    }
}

impl Clone for Code {
    fn clone(&self) -> (r: Code)
        ensures
            r@ == self@,
    {
        Code {
            channel_number: self.channel_number,
            word1: self.word1.clone(),
            word2: self.word2.clone(),
        }
    }
}

impl PartialEq for Code {
    /// Two codes are the same when the slot and both words agree.
    fn eq(&self, other: &Code) -> (r: bool) {
        self.channel_number == other.channel_number && self.word1 == other.word1 && self.word2
            == other.word2
    }
}

impl vstd::std_specs::cmp::PartialEqSpecImpl for Code {
    open spec fn obeys_eq_spec() -> bool {
        true
    }

    open spec fn eq_spec(&self, other: &Code) -> bool {
        self@ == other@
    }
}

impl Code {
    fn new(channel_number: u8, word1: &str, word2: &str) -> (r: Code)
        ensures
            r@.channel_number == channel_number,
            r@.word1 == word1@,
            r@.word2 == word2@,
    {
        Code {
            channel_number,
            word1: String::from_str(word1),
            word2: String::from_str(word2),
        }
    }
}

/// The text form of a pairing code.
pub open spec fn spec_code_text(c: CodeView) -> Seq<char> {
    spec_digits(c.channel_number as nat) + seq!['-'] + c.word1 + seq!['-'] + c.word2
}

impl Code {
    /// Renders the code in its human-typeable form.
    pub fn to_string(&self) -> (r: String)
        ensures
            r@ == spec_code_text(self@),
    {
        let mut out = u64_to_string(self.channel_number as u64);
        push_char(&mut out, '-');
        out.append(self.word1.as_str());
        push_char(&mut out, '-');
        out.append(self.word2.as_str());
        proof {
            assert(out@ =~= spec_code_text(self@));
        }
        out
    }
}

/// The position of the first `-` at or after `i`, or the end of `s`.
pub open spec fn dash_run_end(s: Seq<char>, i: int) -> int
    decreases s.len() - i when 0 <= i <= s.len()
{
    if i < s.len() && s[i] != '-' {
        dash_run_end(s, i + 1)
    } else {
        i
    }
}

pub proof fn lemma_dash_run_end(s: Seq<char>, i: int, k: int)
    requires
        0 <= i,
        0 <= k,
        i + k <= s.len(),
        forall|t: int| i <= t < i + k ==> #[trigger] s[t] != '-',
        i + k == s.len() || s[i + k] == '-',
    ensures
        dash_run_end(s, i) == i + k,
    decreases k,
{
    if k > 0 {
        lemma_dash_run_end(s, i + 1, k - 1);
    }
}

/// What parsing a code's text yields: the number segment read as a decimal
/// that fits a `u8`, then two `-`-separated word segments; anything after a
/// third `-` is ignored.
pub open spec fn spec_parse_code(s: Seq<char>) -> Option<CodeView> {
    match spec_parse_u64(s, 0) {
        Some((n, j)) => {
            if n <= 255 && j < s.len() && s[j] == '-' {
                let k = dash_run_end(s, j + 1);
                if k < s.len() {
                    let e = dash_run_end(s, k + 1);
                    Some(
                        CodeView {
                            channel_number: n as u8,
                            word1: s.subrange(j + 1, k),
                            word2: s.subrange(k + 1, e),
                        },
                    )
                } else {
                    None
                }
            } else {
                None
            }
        },
        None => None,
    }
}

/// Finds the first `-` at or after `i`, exactly as `dash_run_end` describes.
fn dash_run_end_exec(s: &str, i: usize) -> (r: usize)
    requires
        i <= s@.len(),
    ensures
        r as int == dash_run_end(s@, i as int),
        i <= r <= s@.len(),
{
    let len = s.unicode_len();
    let mut j = i;
    while j < len && s.get_char(j) != '-'
        invariant
            i <= j <= len,
            len == s@.len(),
            dash_run_end(s@, i as int) == dash_run_end(s@, j as int),
        decreases len - j,
    {
        j += 1;
    }
    j
}

impl Code {
    /// Reads a code from its text form, exactly as `spec_parse_code`
    /// describes; any failure is reported as `ChannelNotAvailable`, the one
    /// error codes carry.
    pub fn parse(s: &str) -> (r: Result<Code, CodeError>)
        ensures
            match r {
                Ok(code) => spec_parse_code(s@) == Some(code@),
                Err(e) => spec_parse_code(s@) is None && e == CodeError::ChannelNotAvailable,
            },
    {
        let len = s.unicode_len();
        match parse_u64_at(s, 0) {
            None => Err(CodeError::ChannelNotAvailable),
            Some((n, j)) => {
                proof {
                    crate::text::lemma_digit_run_end_bounds(s@, 0);
                }
                if n > 255 || j == len || s.get_char(j) != '-' {
                    return Err(CodeError::ChannelNotAvailable);
                }
                let k = dash_run_end_exec(s, j + 1);
                if k == len {
                    return Err(CodeError::ChannelNotAvailable);
                }
                let e = dash_run_end_exec(s, k + 1);
                let word1 = s.substring_char(j + 1, k);
                let word2 = s.substring_char(k + 1, e);
                Ok(
                    Code {
                        channel_number: n as u8,
                        word1: String::from_str(word1),
                        word2: String::from_str(word2),
                    },
                )
            },
        }
    }
}

/// No value occurs twice.
pub open spec fn no_dups<T>(v: Seq<T>) -> bool {
    forall|i: int, j: int| 0 <= i < j < v.len() ==> v[i] != v[j]
}

pub proof fn lemma_seq_remove_membership<T>(v: Seq<T>, i: int)
    requires
        0 <= i < v.len(),
        no_dups(v),
    ensures
        !v.remove(i).contains(v[i]),
        forall|m: T| m != v[i] ==> (v.remove(i).contains(m) == v.contains(m)),
        no_dups(v.remove(i)),
{
    let w = v.remove(i);
    assert forall|m: T| m != v[i] implies (w.contains(m) == v.contains(m)) by {
        if v.contains(m) {
            let k = choose|k: int| 0 <= k < v.len() && v[k] == m;
            if k < i {
                assert(w[k] == m);
            } else {
                assert(w[k - 1] == m);
            }
        }
        if w.contains(m) {
            let k = choose|k: int| 0 <= k < w.len() && w[k] == m;
            if k < i {
                assert(v[k] == m);
            } else {
                assert(v[k + 1] == m);
            }
        }
    }
    assert(!w.contains(v[i])) by {
        if w.contains(v[i]) {
            let k = choose|k: int| 0 <= k < w.len() && w[k] == v[i];
            if k < i {
                assert(v[k] == v[i]);
            } else {
                assert(v[k + 1] == v[i]);
            }
        }
    }
}

/// Allocates channel-number slots and mints the random word pairs of pairing
/// codes. A slot leaves `available` when a code is issued on it and returns
/// on release.
pub struct CodeGenerator {
    rng: ChaCha8Rng,
    available: Vec<u8>,
    pool_size: u8,
}

impl CodeGenerator {
    /// The slots a code may currently be issued on.
    pub closed spec fn spec_available(&self) -> Seq<u8> {
        self.available@
    }

    pub open spec fn spec_is_available(&self, n: u8) -> bool {
        self.spec_available().contains(n)
    }

    /// A slot of the pool is pending while it is not available.
    pub open spec fn spec_is_pending(&self, n: u8) -> bool {
        n < self.spec_pool_size() && !self.spec_available().contains(n)
    }

    pub closed spec fn spec_pool_size(&self) -> u8 {
        self.pool_size
    }

    pub closed spec fn inv(&self) -> bool {
        &&& no_dups(self.available@)
        &&& forall|i: int|
            0 <= i < self.available@.len() ==> (#[trigger] self.available@[i])
                < self.pool_size
    }

    /// A generator over the given number of slots, all of them available.
    pub fn with_pool_size(size: u8) -> (r: CodeGenerator)
        ensures
            r.inv(),
            r.spec_pool_size() == size,
            forall|n: u8| r.spec_is_available(n) == (n < size),
    {
        let mut available: Vec<u8> = Vec::new();
        let mut n: u8 = 0;
        while n < size
            invariant
                n <= size,
                available@.len() == n as int,
                forall|i: int| 0 <= i < n as int ==> available@[i] == i,
            decreases size - n,
        {
            available.push(n);
            n += 1;
        }
        proof {
            assert forall|m: u8| available@.contains(m) == (m < size) by {
                if m < size {
                    assert(available@[m as int] == m);
                }
            }
        }
        CodeGenerator { rng: rng_from_entropy(), available, pool_size: size }
    }

    /// The generator the relay starts with: one hundred slots.
    pub fn new() -> (r: CodeGenerator)
        ensures
            r.inv(),
            r.spec_pool_size() == 100,
            forall|n: u8| r.spec_is_available(n) == (n < 100),
    {
        CodeGenerator::with_pool_size(100)
    }

    /// Issues a pairing code: a slot drawn at random from the available set
    /// (so it is never one that is pending) moves to pending, and the two
    /// words are drawn at random from the dictionary. Fails exactly when no
    /// slot is available, leaving the pool as it was.
    pub fn generate(&mut self) -> (r: Result<Code, CodeError>)
        requires
            old(self).inv(),
        ensures
            final(self).inv(),
            final(self).spec_pool_size() == old(self).spec_pool_size(),
            match r {
                Ok(code) => old(self).spec_is_available(code@.channel_number) && !old(self).spec_is_pending(code@.channel_number) && code@.channel_number < old(self).spec_pool_size() && !final(self).spec_is_available(code@.channel_number) && (forall|m: u8|
                    m != code@.channel_number ==> final(self).spec_is_available(m) == old(self).spec_is_available(m)) && (exists|i: int|
                    0 <= i < WORD_COUNT && code@.word1 == spec_word(i)) && (exists|i: int|
                    0 <= i < WORD_COUNT && code@.word2 == spec_word(i)),
                Err(e) => e == CodeError::ChannelNotAvailable && old(self).spec_available().len()
                    == 0 && final(self).spec_available() == old(self).spec_available(),
            },
            (r is Err) == (old(self).spec_available().len() == 0),
    {
        if self.available.len() == 0 {
            return Err(CodeError::ChannelNotAvailable);
        }
        let idx = rng_below(&mut self.rng, self.available.len());
        proof {
            lemma_seq_remove_membership(self.available@, idx as int);
            assert(self.available@.contains(self.available@[idx as int]));
        }
        let number = self.available.remove(idx);
        let w1 = word_at(rng_below(&mut self.rng, WORD_COUNT));
        let w2 = word_at(rng_below(&mut self.rng, WORD_COUNT));
        Ok(Code::new(number, w1, w2))
    }

    /// Returns a slot to the available set and so retires it from pending;
    /// doing so twice is harmless, and a number outside the pool is no slot
    /// at all and is ignored.
    pub fn release(&mut self, channel_number: u8)
        requires
            old(self).inv(),
        ensures
            final(self).inv(),
            final(self).spec_pool_size() == old(self).spec_pool_size(),
            channel_number < old(self).spec_pool_size() ==> final(self).spec_is_available(
                channel_number,
            ),
            !final(self).spec_is_pending(channel_number),
            forall|m: u8|
                m != channel_number ==> final(self).spec_is_available(m) == old(self).spec_is_available(m),
            old(self).spec_is_available(channel_number) ==> final(self).spec_available() == old(self).spec_available(),
            channel_number >= old(self).spec_pool_size() ==> final(self).spec_available() == old(self).spec_available(),
    {
        if channel_number >= self.pool_size {
            proof {
                assert(!self.spec_is_available(channel_number));
            }
            return ;
        }
        let n = self.available.len();
        let mut k: usize = 0;
        while k < n
            invariant
                k <= n,
                n == self.available@.len(),
                self.available@ == old(self).available@,
                self.pool_size == old(self).pool_size,
                self.inv(),
                channel_number < self.pool_size,
                forall|i: int| 0 <= i < k as int ==> self.available@[i] != channel_number,
            decreases n - k,
        {
            if self.available[k] == channel_number {
                proof {
                    assert(self.available@[k as int] == channel_number);
                    assert(self.available@.contains(channel_number));
                }
                return ;
            }
            k += 1;
        }
        proof {
            assert(!self.available@.contains(channel_number));
        }
        self.available.push(channel_number);
        proof {
            assert(self.available@ == old(self).available@.push(channel_number));
            assert(self.available@[self.available@.len() - 1] == channel_number);
            assert forall|i: int|
                0 <= i < self.available@.len() implies (#[trigger] self.available@[i])
                < self.pool_size by {
                if i < self.available@.len() - 1 {
                    assert(self.available@[i] == old(self).available@[i]);
                }
            }
            assert forall|m: u8|
                m != channel_number implies (final(self).spec_is_available(m) == old(self).spec_is_available(m)) by {
                if old(self).available@.contains(m) {
                    let t = choose|t: int|
                        0 <= t < old(self).available@.len() && old(self).available@[t] == m;
                    assert(self.available@[t] == m);
                }
                if self.available@.contains(m) {
                    let t = choose|t: int|
                        0 <= t < self.available@.len() && self.available@[t] == m;
                    assert(old(self).available@[t] == m);
                }
            }
        }
    }
}

/// A code's text form parses back to the code itself, as long as neither word
/// holds a hyphen of its own (the fixed dictionary holds none).
pub proof fn lemma_code_text_round_trip(c: CodeView)
    requires
        forall|t: int| 0 <= t < c.word1.len() ==> #[trigger] c.word1[t] != '-',
        forall|t: int| 0 <= t < c.word2.len() ==> #[trigger] c.word2[t] != '-',
    ensures
        spec_parse_code(spec_code_text(c)) == Some(c),
{
    let s = spec_code_text(c);
    let ds = spec_digits(c.channel_number as nat);
    crate::text::lemma_digits_wf(c.channel_number as nat);
    let tail = seq!['-'] + c.word1 + seq!['-'] + c.word2;
    assert(s =~= Seq::<char>::empty() + ds + tail);
    assert(tail[0] == '-');
    assert(!crate::text::is_digit('-'));
    crate::text::lemma_parse_after_digits(Seq::empty(), c.channel_number as u64, tail);
    let j = ds.len() as int;
    assert(spec_parse_u64(s, 0) == Some((c.channel_number as u64, j)));
    assert(s[j] == '-');
    // the first word runs to the second hyphen
    let k = j + 1 + c.word1.len() as int;
    assert forall|t: int| j + 1 <= t < k implies #[trigger] s[t] != '-' by {
        assert(s[t] == c.word1[t - (j + 1)]);
    }
    assert(s[k] == '-');
    lemma_dash_run_end(s, j + 1, c.word1.len() as int);
    assert(dash_run_end(s, j + 1) == k);
    assert(s.subrange(j + 1, k) =~= c.word1);
    // the second word runs to the end
    let e = k + 1 + c.word2.len() as int;
    assert forall|t: int| k + 1 <= t < e implies #[trigger] s[t] != '-' by {
        assert(s[t] == c.word2[t - (k + 1)]);
    }
    assert(e == s.len());
    lemma_dash_run_end(s, k + 1, c.word2.len() as int);
    assert(s.subrange(k + 1, e) =~= c.word2);
}

/// With one slot left in the available set, any available number is that very
/// slot: after a release leaves `n` as the only available slot, the next code
/// issued carries `n` again.
pub proof fn lemma_sole_available_slot(g: &CodeGenerator, number: u8)
    requires
        g.spec_available().len() == 1,
        g.spec_is_available(number),
    ensures
        number == g.spec_available()[0],
{
    let i = choose|i: int|
        0 <= i < g.spec_available().len() && g.spec_available()[i] == number;
}

} // verus!
