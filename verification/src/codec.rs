//! The wire codec: renders each protocol message as a tagged JSON object and
//! parses that form back. Encoding and parsing are exact inverses, which the
//! round-trip lemmas at the end of this module prove.
use crate::protocol::{IncomingMessage, IncomingView, OutgoingMessage, OutgoingView};
use crate::text::{
    digit_run_end, is_digit, lemma_digit_run_end_bounds, lemma_parse_after_digits, parse_u64_at,
    push_char, push_digits, spec_digits, spec_parse_u64,
};
use vstd::prelude::*;

verus! {

// ---------------------------------------------------------------------------
// JSON string escaping
// ---------------------------------------------------------------------------
/// The control characters, by code point.
pub open spec fn ctrl_char(d: nat) -> char
    recommends
        d < 32,
{
    if d == 0 {
        '\u{00}'
    } else if d == 1 {
        '\u{01}'
    } else if d == 2 {
        '\u{02}'
    } else if d == 3 {
        '\u{03}'
    } else if d == 4 {
        '\u{04}'
    } else if d == 5 {
        '\u{05}'
    } else if d == 6 {
        '\u{06}'
    } else if d == 7 {
        '\u{07}'
    } else if d == 8 {
        '\u{08}'
    } else if d == 9 {
        '\u{09}'
    } else if d == 10 {
        '\u{0a}'
    } else if d == 11 {
        '\u{0b}'
    } else if d == 12 {
        '\u{0c}'
    } else if d == 13 {
        '\u{0d}'
    } else if d == 14 {
        '\u{0e}'
    } else if d == 15 {
        '\u{0f}'
    } else if d == 16 {
        '\u{10}'
    } else if d == 17 {
        '\u{11}'
    } else if d == 18 {
        '\u{12}'
    } else if d == 19 {
        '\u{13}'
    } else if d == 20 {
        '\u{14}'
    } else if d == 21 {
        '\u{15}'
    } else if d == 22 {
        '\u{16}'
    } else if d == 23 {
        '\u{17}'
    } else if d == 24 {
        '\u{18}'
    } else if d == 25 {
        '\u{19}'
    } else if d == 26 {
        '\u{1a}'
    } else if d == 27 {
        '\u{1b}'
    } else if d == 28 {
        '\u{1c}'
    } else if d == 29 {
        '\u{1d}'
    } else if d == 30 {
        '\u{1e}'
    } else {
        '\u{1f}'
    }
}

pub proof fn lemma_ctrl_char_code(d: nat)
    requires
        d < 32,
    ensures
        ctrl_char(d) as u32 == d,
{
}

/// The table inverts the code point of any control character.
pub proof fn lemma_ctrl_char_inverse(c: char)
    requires
        (c as u32) < 32,
    ensures
        ctrl_char((c as u32) as nat) == c,
{
    let d = (c as u32) as nat;
    lemma_ctrl_char_code(d);
    vstd::utf8::char_u32_cast(c, c as u32);
    vstd::utf8::char_u32_cast(ctrl_char(d), ctrl_char(d) as u32);
}

pub fn ctrl_char_exec(d: u64) -> (c: char)
    requires
        d < 32,
    ensures
        c == ctrl_char(d as nat),
{
    if d == 0 {
        '\u{00}'
    } else if d == 1 {
        '\u{01}'
    } else if d == 2 {
        '\u{02}'
    } else if d == 3 {
        '\u{03}'
    } else if d == 4 {
        '\u{04}'
    } else if d == 5 {
        '\u{05}'
    } else if d == 6 {
        '\u{06}'
    } else if d == 7 {
        '\u{07}'
    } else if d == 8 {
        '\u{08}'
    } else if d == 9 {
        '\u{09}'
    } else if d == 10 {
        '\u{0a}'
    } else if d == 11 {
        '\u{0b}'
    } else if d == 12 {
        '\u{0c}'
    } else if d == 13 {
        '\u{0d}'
    } else if d == 14 {
        '\u{0e}'
    } else if d == 15 {
        '\u{0f}'
    } else if d == 16 {
        '\u{10}'
    } else if d == 17 {
        '\u{11}'
    } else if d == 18 {
        '\u{12}'
    } else if d == 19 {
        '\u{13}'
    } else if d == 20 {
        '\u{14}'
    } else if d == 21 {
        '\u{15}'
    } else if d == 22 {
        '\u{16}'
    } else if d == 23 {
        '\u{17}'
    } else if d == 24 {
        '\u{18}'
    } else if d == 25 {
        '\u{19}'
    } else if d == 26 {
        '\u{1a}'
    } else if d == 27 {
        '\u{1b}'
    } else if d == 28 {
        '\u{1c}'
    } else if d == 29 {
        '\u{1d}'
    } else if d == 30 {
        '\u{1e}'
    } else {
        '\u{1f}'
    }
}

/// How one character is rendered inside a JSON string: quote and backslash
/// are escaped, the control characters take their named escapes or the
/// `\u00XX` form, everything else stands for itself.
pub open spec fn esc_char(c: char) -> Seq<char> {
    if c == '"' {
        seq!['\\', '"']
    } else if c == '\\' {
        seq!['\\', '\\']
    } else if c as u32 == 8 {
        seq!['\\', 'b']
    } else if c as u32 == 9 {
        seq!['\\', 't']
    } else if c as u32 == 10 {
        seq!['\\', 'n']
    } else if c as u32 == 12 {
        seq!['\\', 'f']
    } else if c as u32 == 13 {
        seq!['\\', 'r']
    } else if (c as u32) < 32 {
        seq![
            '\\',
            'u',
            '0',
            '0',
            hex_char(((c as u32) / 16) as nat),
            hex_char(((c as u32) % 16) as nat),
        ]
    } else {
        seq![c]
    }
}

/// The escaped rendering of a whole string.
pub open spec fn spec_escape(s: Seq<char>) -> Seq<char>
    decreases s.len(),
{
    if s.len() == 0 {
        Seq::empty()
    } else {
        esc_char(s[0]) + spec_escape(s.drop_first())
    }
}

pub proof fn lemma_escape_snoc(s: Seq<char>, c: char)
    ensures
        spec_escape(s.push(c)) == spec_escape(s) + esc_char(c),
    decreases s.len(),
{
    if s.len() == 0 {
        assert(s.push(c).drop_first() =~= Seq::<char>::empty());
        assert(s.push(c)[0] == c);
        assert(spec_escape(s.push(c)) == esc_char(c) + spec_escape(Seq::<char>::empty()));
        assert(esc_char(c) + Seq::<char>::empty() =~= esc_char(c));
        assert(spec_escape(s) + esc_char(c) =~= esc_char(c));
    } else {
        lemma_escape_snoc(s.drop_first(), c);
        assert(s.push(c).drop_first() =~= s.drop_first().push(c));
        assert(s.push(c)[0] == s[0]);
        assert(spec_escape(s.push(c)) == esc_char(s[0]) + (spec_escape(s.drop_first()) + esc_char(
            c,
        )));
        assert(esc_char(s[0]) + (spec_escape(s.drop_first()) + esc_char(c)) =~= (esc_char(s[0])
            + spec_escape(s.drop_first())) + esc_char(c));
    }
}

/// A `\u00XX` escape naming a control character: four hexadecimal digits
/// whose value lies below 32.
pub open spec fn spec_unescape_u(s: Seq<char>, i: int) -> Option<(char, int)> {
    if i + 6 <= s.len() && is_hex(s[i + 2]) && is_hex(s[i + 3]) && is_hex(s[i + 4]) && is_hex(
        s[i + 5],
    ) {
        let v = ((hex_val(s[i + 2]) * 16 + hex_val(s[i + 3])) * 16 + hex_val(s[i + 4])) * 16
            + hex_val(s[i + 5]);
        if v < 32 {
            Some((ctrl_char(v), i + 6))
        } else {
            None
        }
    } else {
        None
    }
}

/// What one backslash escape at position `i` denotes: the character it names
/// and the position just past the escape. The named escapes, the solidus, and
/// the `\u00XX` forms of the control characters are read.
pub open spec fn spec_unescape_at(s: Seq<char>, i: int) -> Option<(char, int)>
    recommends
        0 <= i < s.len(),
        s[i] == '\\',
{
    if i + 1 >= s.len() {
        None
    } else {
        let e = s[i + 1];
        if e == '"' || e == '\\' || e == '/' {
            Some((e, i + 2))
        } else if e == 'b' {
            Some((ctrl_char(8), i + 2))
        } else if e == 't' {
            Some((ctrl_char(9), i + 2))
        } else if e == 'n' {
            Some((ctrl_char(10), i + 2))
        } else if e == 'f' {
            Some((ctrl_char(12), i + 2))
        } else if e == 'r' {
            Some((ctrl_char(13), i + 2))
        } else if e == 'u' {
            spec_unescape_u(s, i)
        } else {
            None
        }
    }
}

pub proof fn lemma_unescape_bounds(s: Seq<char>, i: int)
    requires
        0 <= i,
    ensures
        match spec_unescape_at(s, i) {
            Some((c, j)) => i + 2 <= j <= s.len(),
            None => true,
        },
{
}

/// Parses the body of a JSON string at position `i`, through its closing
/// quote; returns the unescaped content and the position just past the quote.
pub open spec fn spec_parse_strbody(s: Seq<char>, i: int) -> Option<(Seq<char>, int)>
    decreases s.len() - i when 0 <= i <= s.len() via spec_parse_strbody_dec
{
    if i >= s.len() {
        None
    } else if s[i] == '"' {
        Some((Seq::empty(), i + 1))
    } else if s[i] == '\\' {
        match spec_unescape_at(s, i) {
            Some((c, j)) => match spec_parse_strbody(s, j) {
                Some((t, k)) => Some((seq![c] + t, k)),
                None => None,
            },
            None => None,
        }
    } else {
        match spec_parse_strbody(s, i + 1) {
            Some((t, j)) => Some((seq![s[i]] + t, j)),
            None => None,
        }
    }
}

#[via_fn]
proof fn spec_parse_strbody_dec(s: Seq<char>, i: int) {
    lemma_unescape_bounds(s, i);
}

pub proof fn lemma_strbody_bounds(s: Seq<char>, i: int)
    requires
        0 <= i <= s.len(),
    ensures
        match spec_parse_strbody(s, i) {
            Some((t, j)) => i < j <= s.len(),
            None => true,
        },
    decreases s.len() - i,
{
    if i < s.len() {
        if s[i] == '\\' {
            lemma_unescape_bounds(s, i);
            match spec_unescape_at(s, i) {
                Some((c, j)) => {
                    lemma_strbody_bounds(s, j);
                },
                None => {},
            }
        } else if s[i] != '"' {
            lemma_strbody_bounds(s, i + 1);
        }
    }
}

/// Parsing right after an escaped rendering of `w` followed by a closing
/// quote recovers `w` exactly.
pub proof fn lemma_strbody_round_trip(pre: Seq<char>, w: Seq<char>, rest: Seq<char>)
    ensures
        spec_parse_strbody(pre + spec_escape(w) + seq!['"'] + rest, pre.len() as int) == Some(
            (w, pre.len() + spec_escape(w).len() + 1 as int),
        ),
    decreases w.len(),
{
    let s = pre + spec_escape(w) + seq!['"'] + rest;
    let i = pre.len() as int;
    if w.len() == 0 {
        assert(s[i] == '"');
        assert(spec_parse_strbody(s, i) == Some((Seq::<char>::empty(), i + 1)));
        assert(Seq::<char>::empty() =~= w);
    } else {
        let c = w[0];
        let w2 = w.drop_first();
        let e = esc_char(c);
        let pre2 = pre + e;
        lemma_strbody_round_trip(pre2, w2, rest);
        assert(spec_escape(w) == e + spec_escape(w2));
        assert(s =~= pre2 + spec_escape(w2) + seq!['"'] + rest);
        let inner = spec_parse_strbody(s, pre2.len() as int);
        assert(inner == Some((w2, pre2.len() + spec_escape(w2).len() + 1 as int)));
        // the escape (or the bare character) at the front denotes c
        if c == '"' || c == '\\' {
            assert(s[i] == '\\' && s[i + 1] == c);
            assert(spec_unescape_at(s, i) == Some((c, i + 2)));
            assert(pre2.len() == i + 2);
        } else if c as u32 == 8 || c as u32 == 9 || c as u32 == 10 || c as u32 == 12 || c as u32
            == 13 {
            assert(s[i] == '\\' && s[i + 1] == e[1]);
            lemma_ctrl_char_inverse(c);
            assert(spec_unescape_at(s, i) == Some((c, i + 2)));
            assert(pre2.len() == i + 2);
        } else if (c as u32) < 32 {
            let hi = ((c as u32) / 16) as nat;
            let lo = ((c as u32) % 16) as nat;
            assert(s[i] == '\\' && s[i + 1] == 'u' && s[i + 2] == '0' && s[i + 3] == '0');
            assert(s[i + 4] == hex_char(hi) && s[i + 5] == hex_char(lo));
            lemma_hex_char_val(hi);
            lemma_hex_char_val(lo);
            assert(is_hex('0') && hex_val('0') == 0);
            assert(i + 6 <= s.len());
            vstd::arithmetic::div_mod::lemma_fundamental_div_mod(c as u32 as int, 16);
            assert(((hex_val(s[i + 2]) * 16 + hex_val(s[i + 3])) * 16 + hex_val(s[i + 4])) * 16
                + hex_val(s[i + 5]) == c as u32);
            lemma_ctrl_char_inverse(c);
            assert(spec_unescape_u(s, i) == Some((c, i + 6)));
            assert(spec_unescape_at(s, i) == Some((c, i + 6)));
            assert(pre2.len() == i + 6);
        } else {
            assert(s[i] == c);
            assert(pre2.len() == i + 1);
        }
        // fold the front character onto the tail parse
        if c != '"' && c != '\\' && c as u32 >= 32 {
            assert(spec_parse_strbody(s, i) == Some(
                (seq![s[i]] + w2, pre2.len() + spec_escape(w2).len() + 1 as int),
            ));
            assert(seq![s[i]] + w2 =~= w);
        } else {
            assert(s[i] == '\\');
            assert(spec_parse_strbody(s, i) == Some(
                (seq![c] + w2, pre2.len() + spec_escape(w2).len() + 1 as int),
            ));
            assert(seq![c] + w2 =~= w);
        }
        assert(pre.len() + spec_escape(w).len() + 1 == pre2.len() + spec_escape(w2).len() + 1);
    }
}

/// Appends the escaped rendering of `w` to `out`.
pub fn push_escaped(out: &mut String, w: &str)
    ensures
        final(out)@ == old(out)@ + spec_escape(w@),
{
    let len = w.unicode_len();
    let mut k: usize = 0;
    while k < len
        invariant
            k <= len,
            len == w@.len(),
            out@ == old(out)@ + spec_escape(w@.subrange(0, k as int)),
        decreases len - k,
    {
        let c = w.get_char(k);
        proof {
            lemma_escape_snoc(w@.subrange(0, k as int), c);
            assert(w@.subrange(0, k + 1 as int) =~= w@.subrange(0, k as int).push(c));
        }
        let u = c as u32;
        if c == '"' {
            push_char(out, '\\');
            push_char(out, '"');
        } else if c == '\\' {
            push_char(out, '\\');
            push_char(out, '\\');
        } else if u == 8 {
            push_char(out, '\\');
            push_char(out, 'b');
        } else if u == 9 {
            push_char(out, '\\');
            push_char(out, 't');
        } else if u == 10 {
            push_char(out, '\\');
            push_char(out, 'n');
        } else if u == 12 {
            push_char(out, '\\');
            push_char(out, 'f');
        } else if u == 13 {
            push_char(out, '\\');
            push_char(out, 'r');
        } else if u < 32 {
            push_char(out, '\\');
            push_char(out, 'u');
            push_char(out, '0');
            push_char(out, '0');
            push_char(out, hex_char_exec((u / 16) as u64));
            push_char(out, hex_char_exec((u % 16) as u64));
        } else {
            push_char(out, c);
        }
        proof {
            assert(out@ =~= old(out)@ + spec_escape(w@.subrange(0, k + 1 as int)));
        }
        k += 1;
    }
    proof {
        assert(w@.subrange(0, len as int) =~= w@);
    }
}

/// Reads one backslash escape at position `i`, exactly as `spec_unescape_at`
/// describes.
fn unescape_at(s: &str, i: usize) -> (r: Option<(char, usize)>)
    requires
        i < s@.len(),
        s@[i as int] == '\\',
    ensures
        match r {
            Some((c, j)) => spec_unescape_at(s@, i as int) == Some((c, j as int)) && i + 2 <= j
                <= s@.len(),
            None => spec_unescape_at(s@, i as int) is None,
        },
{
    let len = s.unicode_len();
    if i + 1 == len {
        return None;
    }
    let e = s.get_char(i + 1);
    if e == '"' || e == '\\' || e == '/' {
        Some((e, i + 2))
    } else if e == 'b' {
        Some((ctrl_char_exec(8), i + 2))
    } else if e == 't' {
        Some((ctrl_char_exec(9), i + 2))
    } else if e == 'n' {
        Some((ctrl_char_exec(10), i + 2))
    } else if e == 'f' {
        Some((ctrl_char_exec(12), i + 2))
    } else if e == 'r' {
        Some((ctrl_char_exec(13), i + 2))
    } else if e == 'u' {
        if len - i < 6 {
            return None;
        }
        let h2 = s.get_char(i + 2);
        let h3 = s.get_char(i + 3);
        let h4 = s.get_char(i + 4);
        let h5 = s.get_char(i + 5);
        if !is_hex_exec(h2) || !is_hex_exec(h3) || !is_hex_exec(h4) || !is_hex_exec(h5) {
            return None;
        }
        let v = ((hex_val_exec(h2) * 16 + hex_val_exec(h3)) * 16 + hex_val_exec(h4)) * 16
            + hex_val_exec(h5);
        if v >= 32 {
            return None;
        }
        Some((ctrl_char_exec(v), i + 6))
    } else {
        None
    }
}

/// Parses a JSON string body at position `i` of `s`, exactly as
/// `spec_parse_strbody` describes.
pub fn parse_strbody_at(s: &str, i: usize) -> (r: Option<(String, usize)>)
    requires
        i <= s@.len(),
    ensures
        match r {
            Some((w, j)) => spec_parse_strbody(s@, i as int) == Some((w@, j as int)),
            None => spec_parse_strbody(s@, i as int) is None,
        },
{
    let len = s.unicode_len();
    let mut cur = i;
    let mut acc = String::new();
    loop
        invariant
            i <= cur <= len,
            len == s@.len(),
            spec_parse_strbody(s@, i as int) == (match spec_parse_strbody(s@, cur as int) {
                Some((t, j)) => Some((acc@ + t, j)),
                None => None::<(Seq<char>, int)>,
            }),
        decreases len - cur,
    {
        if cur == len {
            return None;
        }
        let c = s.get_char(cur);
        if c == '"' {
            proof {
                assert(acc@ + Seq::<char>::empty() =~= acc@);
            }
            return Some((acc, cur + 1));
        }
        if c == '\\' {
            match unescape_at(s, cur) {
                None => {
                    return None;
                },
                Some((uc, nxt)) => {
                    proof {
                        if spec_parse_strbody(s@, nxt as int) is Some {
                            let (t, j) = spec_parse_strbody(s@, nxt as int)->Some_0;
                            assert(acc@ + (seq![uc] + t) =~= (acc@.push(uc)) + t);
                        }
                    }
                    push_char(&mut acc, uc);
                    cur = nxt;
                },
            }
        } else {
            proof {
                if spec_parse_strbody(s@, cur + 1 as int) is Some {
                    let (t, j) = spec_parse_strbody(s@, cur + 1 as int)->Some_0;
                    assert(acc@ + (seq![c] + t) =~= (acc@.push(c)) + t);
                }
            }
            push_char(&mut acc, c);
            cur += 1;
        }
    }
}

// ---------------------------------------------------------------------------
// Fixed-width lowercase hexadecimal, and the hyphenated identifier form
// ---------------------------------------------------------------------------
pub open spec fn pow16(w: nat) -> nat
    decreases w,
{
    if w == 0 {
        1
    } else {
        16 * pow16((w - 1) as nat)
    }
}

pub open spec fn is_hex(c: char) -> bool {
    (48 <= c as int && c as int <= 57) || (65 <= c as int && c as int <= 70) || (97 <= c as int
        && c as int <= 102)
}

pub open spec fn hex_val(c: char) -> nat
    recommends
        is_hex(c),
{
    if c as int <= 57 {
        (c as int - 48) as nat
    } else if c as int <= 70 {
        (c as int - 55) as nat
    } else {
        (c as int - 87) as nat
    }
}

pub open spec fn hex_char(d: nat) -> char
    recommends
        d < 16,
{
    if d == 0 {
        '0'
    } else if d == 1 {
        '1'
    } else if d == 2 {
        '2'
    } else if d == 3 {
        '3'
    } else if d == 4 {
        '4'
    } else if d == 5 {
        '5'
    } else if d == 6 {
        '6'
    } else if d == 7 {
        '7'
    } else if d == 8 {
        '8'
    } else if d == 9 {
        '9'
    } else if d == 10 {
        'a'
    } else if d == 11 {
        'b'
    } else if d == 12 {
        'c'
    } else if d == 13 {
        'd'
    } else if d == 14 {
        'e'
    } else {
        'f'
    }
}

pub proof fn lemma_hex_char_val(d: nat)
    requires
        d < 16,
    ensures
        is_hex(hex_char(d)),
        hex_val(hex_char(d)) == d,
{
}

pub proof fn lemma_pow16_pos(w: nat)
    ensures
        pow16(w) >= 1,
    decreases w,
{
    if w > 0 {
        lemma_pow16_pos((w - 1) as nat);
    }
}

/// The values of `pow16` that the identifier form works with.
pub proof fn lemma_pow16_concrete()
    ensures
        pow16(4) == 0x10000,
        pow16(8) == 0x100000000,
        pow16(11) == 0x100000000000,
        pow16(12) == 0x1000000000000,
        pow16(16) == 0x10000000000000000,
        pow16(20) == 0x100000000000000000000,
        pow16(24) == 0x1000000000000000000000000,
        pow16(32) == 0x100000000000000000000000000000000,
{
    assert(pow16(0) == 1);
    assert(pow16(1) == 16);
    assert(pow16(2) == 0x100);
    assert(pow16(3) == 0x1000);
    assert(pow16(4) == 0x10000);
    assert(pow16(5) == 0x100000);
    assert(pow16(6) == 0x1000000);
    assert(pow16(7) == 0x10000000);
    assert(pow16(8) == 0x100000000);
    assert(pow16(9) == 0x1000000000);
    assert(pow16(10) == 0x10000000000);
    assert(pow16(11) == 0x100000000000);
    assert(pow16(12) == 0x1000000000000);
    assert(pow16(13) == 0x10000000000000);
    assert(pow16(14) == 0x100000000000000);
    assert(pow16(15) == 0x1000000000000000);
    assert(pow16(16) == 0x10000000000000000);
    assert(pow16(17) == 0x100000000000000000);
    assert(pow16(18) == 0x1000000000000000000);
    assert(pow16(19) == 0x10000000000000000000);
    assert(pow16(20) == 0x100000000000000000000);
    assert(pow16(21) == 0x1000000000000000000000);
    assert(pow16(22) == 0x10000000000000000000000);
    assert(pow16(23) == 0x100000000000000000000000);
    assert(pow16(24) == 0x1000000000000000000000000);
    assert(pow16(25) == 0x10000000000000000000000000);
    assert(pow16(26) == 0x100000000000000000000000000);
    assert(pow16(27) == 0x1000000000000000000000000000);
    assert(pow16(28) == 0x10000000000000000000000000000);
    assert(pow16(29) == 0x100000000000000000000000000000);
    assert(pow16(30) == 0x1000000000000000000000000000000);
    assert(pow16(31) == 0x10000000000000000000000000000000);
    assert(pow16(32) == 0x100000000000000000000000000000000);
}

/// `n` rendered as exactly `w` lowercase hexadecimal digits, most significant
/// first, zero-padded.
pub open spec fn spec_hex_fixed(n: nat, w: nat) -> Seq<char>
    decreases w,
{
    if w == 0 {
        Seq::empty()
    } else {
        seq![hex_char(n / pow16((w - 1) as nat))] + spec_hex_fixed(
            n % pow16((w - 1) as nat),
            (w - 1) as nat,
        )
    }
}

pub proof fn lemma_hex_fixed_wf(n: nat, w: nat)
    requires
        n < pow16(w),
    ensures
        spec_hex_fixed(n, w).len() == w,
        forall|k: int| 0 <= k < w ==> is_hex(#[trigger] spec_hex_fixed(n, w)[k]),
    decreases w,
{
    if w > 0 {
        let p = pow16((w - 1) as nat);
        lemma_pow16_pos((w - 1) as nat);
        vstd::arithmetic::div_mod::lemma_multiply_divide_lt(n as int, p as int, 16);
        assert(n / p < 16);
        lemma_hex_char_val(n / p);
        lemma_hex_fixed_wf(n % p, (w - 1) as nat);
        assert forall|k: int| 0 <= k < w implies is_hex(#[trigger] spec_hex_fixed(n, w)[k]) by {
            if k > 0 {
                assert(spec_hex_fixed(n, w)[k] == spec_hex_fixed(n % p, (w - 1) as nat)[k - 1]);
            }
        }
    }
}

/// Reads exactly `w` hexadecimal digits at position `i`, folding them into
/// `acc` from the most significant end.
pub open spec fn spec_parse_hex_rec(s: Seq<char>, i: int, w: nat, acc: nat) -> Option<nat>
    decreases w,
{
    if w == 0 {
        Some(acc)
    } else if 0 <= i < s.len() && is_hex(s[i]) {
        spec_parse_hex_rec(s, i + 1, (w - 1) as nat, acc * 16 + hex_val(s[i]))
    } else {
        None
    }
}

pub proof fn lemma_parse_hex_bound(s: Seq<char>, i: int, w: nat, acc: nat)
    ensures
        match spec_parse_hex_rec(s, i, w, acc) {
            Some(v) => v < (acc + 1) * pow16(w),
            None => true,
        },
    decreases w,
{
    if w == 0 {
        assert(pow16(0) == 1);
        assert((acc + 1) * 1 == acc + 1);
    } else if 0 <= i < s.len() && is_hex(s[i]) {
        let d = hex_val(s[i]);
        let acc2 = acc * 16 + d;
        lemma_parse_hex_bound(s, i + 1, (w - 1) as nat, acc2);
        let p = pow16((w - 1) as nat);
        lemma_pow16_pos((w - 1) as nat);
        assert(d < 16);
        assert((acc2 + 1) * p <= (acc + 1) * pow16(w)) by (nonlinear_arith)
            requires
                acc2 == acc * 16 + d,
                d < 16,
                pow16(w) == 16 * p,
                p >= 1,
                acc >= 0,
        {
        }
    }
}

/// Parsing right after a fixed-width rendering of `n` folds `n` onto `acc`.
pub proof fn lemma_parse_hex_round_trip(pre: Seq<char>, n: nat, w: nat, rest: Seq<char>, acc: nat)
    requires
        n < pow16(w),
    ensures
        spec_parse_hex_rec(pre + spec_hex_fixed(n, w) + rest, pre.len() as int, w, acc) == Some(
            acc * pow16(w) + n,
        ),
    decreases w,
{
    let s = pre + spec_hex_fixed(n, w) + rest;
    let i = pre.len() as int;
    if w == 0 {
        assert(acc * 1 + n == acc);
    } else {
        let p = pow16((w - 1) as nat);
        lemma_pow16_pos((w - 1) as nat);
        let msd = n / p;
        let n2 = n % p;
        vstd::arithmetic::div_mod::lemma_multiply_divide_lt(n as int, p as int, 16);
        assert(msd < 16);
        lemma_hex_char_val(msd);
        assert(s[i] == hex_char(msd));
        let pre2 = pre + seq![hex_char(msd)];
        assert(s =~= pre2 + spec_hex_fixed(n2, (w - 1) as nat) + rest);
        lemma_parse_hex_round_trip(pre2, n2, (w - 1) as nat, rest, acc * 16 + msd);
        assert((acc * 16 + msd) * p == acc * pow16(w) + msd * p) by (nonlinear_arith)
            requires
                pow16(w) == 16 * p,
        {
        }
        vstd::arithmetic::div_mod::lemma_fundamental_div_mod(n as int, p as int);
        assert(msd * p + n2 == n);
    }
}

/// A channel identifier's text form: 32 hexadecimal digits in the usual
/// 8-4-4-4-12 grouping, hyphen-separated.
pub open spec fn spec_uuid_text(v: u128) -> Seq<char> {
    let n = v as nat;
    spec_hex_fixed(n / pow16(24), 8) + seq!['-'] + spec_hex_fixed((n / pow16(20)) % pow16(4), 4)
        + seq!['-'] + spec_hex_fixed((n / pow16(16)) % pow16(4), 4) + seq!['-'] + spec_hex_fixed(
        (n / pow16(12)) % pow16(4),
        4,
    ) + seq!['-'] + spec_hex_fixed(n % pow16(12), 12)
}

/// Reads a 36-character identifier at position `i`.
pub open spec fn spec_parse_uuid(s: Seq<char>, i: int) -> Option<u128> {
    if i + 36 <= s.len() && s[i + 8] == '-' && s[i + 13] == '-' && s[i + 18] == '-' && s[i + 23]
        == '-' {
        match (
            spec_parse_hex_rec(s, i, 8, 0),
            spec_parse_hex_rec(s, i + 9, 4, 0),
            spec_parse_hex_rec(s, i + 14, 4, 0),
            spec_parse_hex_rec(s, i + 19, 4, 0),
            spec_parse_hex_rec(s, i + 24, 12, 0),
        ) {
            (Some(a), Some(b), Some(c), Some(d), Some(e)) => Some(
                (((((a * 0x10000 + b) * 0x10000 + c) * 0x10000 + d) * 0x1000000000000 + e) as u128),
            ),
            _ => None,
        }
    } else {
        None
    }
}

pub proof fn lemma_pow16_mono(a: nat, b: nat)
    requires
        a <= b,
    ensures
        pow16(a) <= pow16(b),
    decreases b,
{
    if a < b {
        lemma_pow16_mono(a, (b - 1) as nat);
        lemma_pow16_pos((b - 1) as nat);
    }
}

/// Parsing right after the text form of an identifier recovers it, whatever
/// stands around it.
pub proof fn lemma_uuid_round_trip(pre: Seq<char>, v: u128, rest: Seq<char>)
    ensures
        spec_uuid_text(v).len() == 36,
        spec_parse_uuid(pre + spec_uuid_text(v) + rest, pre.len() as int) == Some(v),
{
    lemma_pow16_concrete();
    let n = v as nat;
    let q = pow16(4);
    let p12 = pow16(12);
    let p16 = pow16(16);
    let p20 = pow16(20);
    let p24 = pow16(24);
    let a = n / p24;
    let b = (n / p20) % q;
    let c = (n / p16) % q;
    let d = (n / p12) % q;
    let e = n % p12;
    assert(n < pow16(32));
    vstd::arithmetic::div_mod::lemma_multiply_divide_lt(n as int, p24 as int, pow16(8) as int);
    assert(a < pow16(8));
    let seg_a = spec_hex_fixed(a, 8);
    let seg_b = spec_hex_fixed(b, 4);
    let seg_c = spec_hex_fixed(c, 4);
    let seg_d = spec_hex_fixed(d, 4);
    let seg_e = spec_hex_fixed(e, 12);
    lemma_hex_fixed_wf(a, 8);
    lemma_hex_fixed_wf(b, 4);
    lemma_hex_fixed_wf(c, 4);
    lemma_hex_fixed_wf(d, 4);
    lemma_hex_fixed_wf(e, 12);
    let u = spec_uuid_text(v);
    assert(u == seg_a + seq!['-'] + seg_b + seq!['-'] + seg_c + seq!['-'] + seg_d + seq!['-']
        + seg_e);
    assert(u.len() == 36);
    let s = pre + u + rest;
    let i = pre.len() as int;
    assert(s.len() == pre.len() + 36 + rest.len());
    // Each hyphen stands where the grouping puts it.
    assert(s[i + 8] == '-' && s[i + 13] == '-' && s[i + 18] == '-' && s[i + 23] == '-') by {
        assert(s[i + 8] == u[8]);
        assert(s[i + 13] == u[13]);
        assert(s[i + 18] == u[18]);
        assert(s[i + 23] == u[23]);
        assert(u[8] == '-');
        assert(u[13] == '-');
        assert(u[18] == '-');
        assert(u[23] == '-');
    }
    // Each hexadecimal segment parses back to its value.
    assert(s =~= pre + seg_a + (seq!['-'] + seg_b + seq!['-'] + seg_c + seq!['-'] + seg_d
        + seq!['-'] + seg_e + rest));
    lemma_parse_hex_round_trip(
        pre,
        a,
        8,
        seq!['-'] + seg_b + seq!['-'] + seg_c + seq!['-'] + seg_d + seq!['-'] + seg_e + rest,
        0,
    );
    assert(spec_parse_hex_rec(s, i, 8, 0) == Some(a));
    let pre_b = pre + seg_a + seq!['-'];
    assert(s =~= pre_b + seg_b + (seq!['-'] + seg_c + seq!['-'] + seg_d + seq!['-'] + seg_e
        + rest));
    lemma_parse_hex_round_trip(
        pre_b,
        b,
        4,
        seq!['-'] + seg_c + seq!['-'] + seg_d + seq!['-'] + seg_e + rest,
        0,
    );
    assert(spec_parse_hex_rec(s, i + 9, 4, 0) == Some(b));
    let pre_c = pre_b + seg_b + seq!['-'];
    assert(s =~= pre_c + seg_c + (seq!['-'] + seg_d + seq!['-'] + seg_e + rest));
    lemma_parse_hex_round_trip(pre_c, c, 4, seq!['-'] + seg_d + seq!['-'] + seg_e + rest, 0);
    assert(spec_parse_hex_rec(s, i + 14, 4, 0) == Some(c));
    let pre_d = pre_c + seg_c + seq!['-'];
    assert(s =~= pre_d + seg_d + (seq!['-'] + seg_e + rest));
    lemma_parse_hex_round_trip(pre_d, d, 4, seq!['-'] + seg_e + rest, 0);
    assert(spec_parse_hex_rec(s, i + 19, 4, 0) == Some(d));
    let pre_e = pre_d + seg_d + seq!['-'];
    assert(s =~= pre_e + seg_e + rest);
    lemma_parse_hex_round_trip(pre_e, e, 12, rest, 0);
    assert(spec_parse_hex_rec(s, i + 24, 12, 0) == Some(e));
    // The five segments recompose to the identifier.
    let n12 = n / p12;
    let n16 = n / p16;
    let n20 = n / p20;
    vstd::arithmetic::div_mod::lemma_fundamental_div_mod(n as int, p12 as int);
    vstd::arithmetic::div_mod::lemma_fundamental_div_mod(n12 as int, q as int);
    vstd::arithmetic::div_mod::lemma_fundamental_div_mod(n16 as int, q as int);
    vstd::arithmetic::div_mod::lemma_fundamental_div_mod(n20 as int, q as int);
    vstd::arithmetic::div_mod::lemma_div_denominator(n as int, p12 as int, q as int);
    vstd::arithmetic::div_mod::lemma_div_denominator(n as int, p16 as int, q as int);
    vstd::arithmetic::div_mod::lemma_div_denominator(n as int, p20 as int, q as int);
    assert(n12 / q == n16);
    assert(n16 / q == n20);
    assert(n20 / q == a);
    assert(n20 == a * 0x10000 + b);
    assert(n16 == n20 * 0x10000 + c);
    assert(n12 == n16 * 0x10000 + d);
    assert(n == n12 * 0x1000000000000 + e);
    assert((((a * 0x10000 + b) * 0x10000 + c) * 0x10000 + d) * 0x1000000000000 + e == n);
}

pub fn hex_char_exec(d: u64) -> (c: char)
    requires
        d < 16,
    ensures
        c == hex_char(d as nat),
{
    if d == 0 {
        '0'
    } else if d == 1 {
        '1'
    } else if d == 2 {
        '2'
    } else if d == 3 {
        '3'
    } else if d == 4 {
        '4'
    } else if d == 5 {
        '5'
    } else if d == 6 {
        '6'
    } else if d == 7 {
        '7'
    } else if d == 8 {
        '8'
    } else if d == 9 {
        '9'
    } else if d == 10 {
        'a'
    } else if d == 11 {
        'b'
    } else if d == 12 {
        'c'
    } else if d == 13 {
        'd'
    } else if d == 14 {
        'e'
    } else {
        'f'
    }
}

pub fn is_hex_exec(c: char) -> (b: bool)
    ensures
        b == is_hex(c),
{
    let u = c as u32;
    (48 <= u && u <= 57) || (65 <= u && u <= 70) || (97 <= u && u <= 102)
}

pub fn hex_val_exec(c: char) -> (r: u64)
    requires
        is_hex(c),
    ensures
        r as nat == hex_val(c),
{
    let u = c as u32;
    if u <= 57 {
        (u - 48) as u64
    } else if u <= 70 {
        (u - 55) as u64
    } else {
        (u - 87) as u64
    }
}

pub fn pow16_u64(w: u64) -> (r: u64)
    requires
        w <= 12,
    ensures
        r as nat == pow16(w as nat),
    decreases w,
{
    if w == 0 {
        1
    } else {
        let p = pow16_u64(w - 1);
        proof {
            lemma_pow16_concrete();
            lemma_pow16_mono((w - 1) as nat, 11);
        }
        16 * p
    }
}

/// Appends `n` as exactly `w` hexadecimal digits.
pub fn push_hex_fixed(out: &mut String, n: u64, w: u64)
    requires
        w <= 12,
        (n as nat) < pow16(w as nat),
    ensures
        final(out)@ == old(out)@ + spec_hex_fixed(n as nat, w as nat),
    decreases w,
{
    if w == 0 {
        proof {
            assert(final(out)@ =~= old(out)@ + spec_hex_fixed(n as nat, 0));
        }
    } else {
        let p = pow16_u64(w - 1);
        proof {
            lemma_pow16_pos((w - 1) as nat);
            vstd::arithmetic::div_mod::lemma_multiply_divide_lt(n as int, p as int, 16);
        }
        let msd = n / p;
        push_char(out, hex_char_exec(msd));
        push_hex_fixed(out, n % p, w - 1);
        proof {
            assert(final(out)@ =~= old(out)@ + spec_hex_fixed(n as nat, w as nat));
        }
    }
}

/// Appends the hyphenated text form of the identifier `v`.
pub fn push_uuid(out: &mut String, v: u128)
    ensures
        final(out)@ == old(out)@ + spec_uuid_text(v),
{
    proof {
        lemma_pow16_concrete();
    }
    let a = (v / 0x1000000000000000000000000u128) as u64;
    let b = ((v / 0x100000000000000000000u128) % 0x10000) as u64;
    let c = ((v / 0x10000000000000000u128) % 0x10000) as u64;
    let d = ((v / 0x1000000000000u128) % 0x10000) as u64;
    let e = (v % 0x1000000000000u128) as u64;
    proof {
        vstd::arithmetic::div_mod::lemma_multiply_divide_lt(
            v as int,
            pow16(24) as int,
            pow16(8) as int,
        );
    }
    push_hex_fixed(out, a, 8);
    push_char(out, '-');
    push_hex_fixed(out, b, 4);
    push_char(out, '-');
    push_hex_fixed(out, c, 4);
    push_char(out, '-');
    push_hex_fixed(out, d, 4);
    push_char(out, '-');
    push_hex_fixed(out, e, 12);
    proof {
        assert(final(out)@ =~= old(out)@ + spec_uuid_text(v));
    }
}

/// Reads exactly `w` hexadecimal digits at position `i`, as
/// `spec_parse_hex_rec` from an empty accumulator describes.
pub fn parse_hex_run(s: &str, i: usize, w: usize) -> (r: Option<u64>)
    requires
        i <= s@.len(),
        w <= 12,
    ensures
        match r {
            Some(x) => spec_parse_hex_rec(s@, i as int, w as nat, 0) == Some(x as nat),
            None => spec_parse_hex_rec(s@, i as int, w as nat, 0) is None,
        },
{
    let len = s.unicode_len();
    let rem = len - i;
    let mut k: usize = 0;
    let mut acc: u64 = 0;
    proof {
        lemma_pow16_concrete();
    }
    while k < w
        invariant
            k <= w <= 12,
            i <= len,
            rem == len - i,
            len == s@.len(),
            (acc as nat) < pow16(k as nat),
            spec_parse_hex_rec(s@, i as int, w as nat, 0) == spec_parse_hex_rec(
                s@,
                i + k,
                (w - k) as nat,
                acc as nat,
            ),
        decreases w - k,
    {
        if k >= rem {
            return None;
        }
        let c = s.get_char(i + k);
        if !is_hex_exec(c) {
            return None;
        }
        let d = hex_val_exec(c);
        proof {
            lemma_pow16_concrete();
            lemma_pow16_mono((k + 1) as nat, 12);
            assert(acc as nat * 16 + hex_val(c) < pow16((k + 1) as nat)) by (nonlinear_arith)
                requires
                    (acc as nat) < pow16(k as nat),
                    hex_val(c) < 16,
                    pow16((k + 1) as nat) == 16 * pow16(k as nat),
            {
            }
        }
        acc = acc * 16 + d;
        k += 1;
    }
    Some(acc)
}

/// Reads a 36-character hyphenated identifier at position `i`, exactly as
/// `spec_parse_uuid` describes.
pub fn parse_uuid_at(s: &str, i: usize) -> (r: Option<u128>)
    requires
        i <= s@.len(),
    ensures
        r == spec_parse_uuid(s@, i as int),
{
    let len = s.unicode_len();
    if len - i < 36 {
        return None;
    }
    if s.get_char(i + 8) != '-' || s.get_char(i + 13) != '-' || s.get_char(i + 18) != '-'
        || s.get_char(i + 23) != '-' {
        return None;
    }
    let oa = parse_hex_run(s, i, 8);
    let ob = parse_hex_run(s, i + 9, 4);
    let oc = parse_hex_run(s, i + 14, 4);
    let od = parse_hex_run(s, i + 19, 4);
    let oe = parse_hex_run(s, i + 24, 12);
    match (oa, ob, oc, od, oe) {
        (Some(a), Some(b), Some(c), Some(d), Some(e)) => {
            proof {
                lemma_pow16_concrete();
                lemma_parse_hex_bound(s@, i as int, 8, 0);
                lemma_parse_hex_bound(s@, i + 9, 4, 0);
                lemma_parse_hex_bound(s@, i + 14, 4, 0);
                lemma_parse_hex_bound(s@, i + 19, 4, 0);
                lemma_parse_hex_bound(s@, i + 24, 12, 0);
            }
            let hi = ((((a as u128) * 0x10000 + (b as u128)) * 0x10000 + (c as u128)) * 0x10000
                + (d as u128)) * 0x1000000000000 + (e as u128);
            Some(hi)
        },
        _ => None,
    }
}

// ---------------------------------------------------------------------------
// Comma-separated id lists in brackets
// ---------------------------------------------------------------------------
/// The members of an id list, comma-separated, without the brackets.
pub open spec fn spec_ids_items(ids: Seq<u64>) -> Seq<char>
    decreases ids.len(),
{
    if ids.len() == 0 {
        Seq::empty()
    } else if ids.len() == 1 {
        spec_digits(ids[0] as nat)
    } else {
        spec_digits(ids[0] as nat) + seq![','] + spec_ids_items(ids.drop_first())
    }
}

/// A bracketed, comma-separated id list.
pub open spec fn spec_encode_ids(ids: Seq<u64>) -> Seq<char> {
    seq!['['] + spec_ids_items(ids) + seq![']']
}

/// Reads one or more comma-separated numbers at `i`, through the closing
/// bracket.
pub open spec fn spec_parse_items(s: Seq<char>, i: int) -> Option<(Seq<u64>, int)>
    decreases s.len() - i when 0 <= i <= s.len() via spec_parse_items_dec
{
    match spec_parse_u64(s, i) {
        Some((n, j)) => {
            if j < s.len() && s[j] == ',' {
                match spec_parse_items(s, j + 1) {
                    Some((t, k)) => Some((seq![n] + t, k)),
                    None => None,
                }
            } else if j < s.len() && s[j] == ']' {
                Some((seq![n], j + 1))
            } else {
                None
            }
        },
        None => None,
    }
}

#[via_fn]
proof fn spec_parse_items_dec(s: Seq<char>, i: int) {
    lemma_digit_run_end_bounds(s, i);
}

/// Reads a bracketed id list at `i`: the empty list, or items through the
/// closing bracket.
pub open spec fn spec_parse_ids(s: Seq<char>, i: int) -> Option<(Seq<u64>, int)> {
    if 0 <= i && i < s.len() && s[i] == '[' {
        if i + 1 < s.len() && s[i + 1] == ']' {
            Some((Seq::empty(), i + 2))
        } else {
            spec_parse_items(s, i + 1)
        }
    } else {
        None
    }
}

/// Parsing right after the items of a non-empty list, closed by a bracket,
/// recovers them.
pub proof fn lemma_items_round_trip(pre: Seq<char>, ids: Seq<u64>, rest: Seq<char>)
    requires
        ids.len() >= 1,
    ensures
        spec_parse_items(pre + spec_ids_items(ids) + seq![']'] + rest, pre.len() as int) == Some(
            (ids, pre.len() + spec_ids_items(ids).len() + 1 as int),
        ),
    decreases ids.len(),
{
    let s = pre + spec_ids_items(ids) + seq![']'] + rest;
    let i = pre.len() as int;
    let first = ids[0];
    let dlen = spec_digits(first as nat).len() as int;
    if ids.len() == 1 {
        assert(spec_ids_items(ids) == spec_digits(first as nat));
        assert(s =~= pre + spec_digits(first as nat) + (seq![']'] + rest));
        lemma_parse_after_digits(pre, first, seq![']'] + rest);
        let j = i + dlen;
        assert(s[j] == ']');
        assert(!is_digit(']'));
        assert(seq![first] =~= ids);
    } else {
        let tail = ids.drop_first();
        assert(spec_ids_items(ids) == spec_digits(first as nat) + seq![','] + spec_ids_items(
            tail,
        ));
        assert(s =~= pre + spec_digits(first as nat) + (seq![','] + spec_ids_items(tail)
            + seq![']'] + rest));
        lemma_parse_after_digits(pre, first, seq![','] + spec_ids_items(tail) + seq![']'] + rest);
        let j = i + dlen;
        assert(s[j] == ',');
        assert(!is_digit(','));
        let pre2 = pre + spec_digits(first as nat) + seq![','];
        assert(s =~= pre2 + spec_ids_items(tail) + seq![']'] + rest);
        lemma_items_round_trip(pre2, tail, rest);
        assert(seq![first] + tail =~= ids);
    }
}

/// Parsing right after an encoded id list recovers it.
pub proof fn lemma_ids_round_trip(pre: Seq<char>, ids: Seq<u64>, rest: Seq<char>)
    ensures
        spec_parse_ids(pre + spec_encode_ids(ids) + rest, pre.len() as int) == Some(
            (ids, pre.len() + spec_encode_ids(ids).len() as int),
        ),
{
    let s = pre + spec_encode_ids(ids) + rest;
    let i = pre.len() as int;
    assert(s[i] == '[');
    if ids.len() == 0 {
        assert(spec_ids_items(ids) == Seq::<char>::empty());
        assert(spec_encode_ids(ids) =~= seq!['[', ']']);
        assert(s[i + 1] == ']');
        assert(Seq::<u64>::empty() =~= ids);
    } else {
        crate::text::lemma_digits_wf(ids[0] as nat);
        let pre2 = pre + seq!['['];
        assert(s =~= pre2 + spec_ids_items(ids) + seq![']'] + rest);
        lemma_items_round_trip(pre2, ids, rest);
        assert(s[i + 1] == spec_ids_items(ids)[0]);
        if ids.len() == 1 {
            assert(spec_ids_items(ids)[0] == spec_digits(ids[0] as nat)[0]);
        } else {
            assert(spec_ids_items(ids)[0] == spec_digits(ids[0] as nat)[0]);
        }
        assert(is_digit(s[i + 1]));
        assert(s[i + 1] != ']');
    }
}

pub proof fn lemma_ids_items_snoc(a: Seq<u64>, x: u64)
    ensures
        spec_ids_items(a.push(x)) == if a.len() == 0 {
            spec_digits(x as nat)
        } else {
            spec_ids_items(a) + seq![','] + spec_digits(x as nat)
        },
    decreases a.len(),
{
    if a.len() == 0 {
        assert(a.push(x).len() == 1);
        assert(a.push(x)[0] == x);
    } else {
        lemma_ids_items_snoc(a.drop_first(), x);
        assert(a.push(x).drop_first() =~= a.drop_first().push(x));
        assert(a.push(x)[0] == a[0]);
        if a.len() == 1 {
            assert(spec_ids_items(a.push(x)) == spec_digits(a[0] as nat) + seq![',']
                + spec_ids_items(a.drop_first().push(x)));
            assert(spec_ids_items(a.drop_first().push(x)) == spec_digits(x as nat));
            assert(spec_ids_items(a) == spec_digits(a[0] as nat));
        } else {
            assert(spec_ids_items(a.push(x)) == spec_digits(a[0] as nat) + seq![',']
                + (spec_ids_items(a.drop_first()) + seq![','] + spec_digits(x as nat)));
            assert(spec_digits(a[0] as nat) + seq![','] + (spec_ids_items(a.drop_first())
                + seq![','] + spec_digits(x as nat)) =~= (spec_digits(a[0] as nat) + seq![',']
                + spec_ids_items(a.drop_first())) + seq![','] + spec_digits(x as nat));
        }
    }
}

/// Appends a bracketed, comma-separated rendering of `ids`.
pub fn push_ids(out: &mut String, ids: &Vec<u64>)
    ensures
        final(out)@ == old(out)@ + spec_encode_ids(ids@),
{
    push_char(out, '[');
    let n = ids.len();
    let mut k: usize = 0;
    while k < n
        invariant
            k <= n,
            n == ids@.len(),
            out@ == old(out)@ + seq!['['] + spec_ids_items(ids@.subrange(0, k as int)),
        decreases n - k,
    {
        proof {
            lemma_ids_items_snoc(ids@.subrange(0, k as int), ids@[k as int]);
            assert(ids@.subrange(0, k + 1 as int) =~= ids@.subrange(0, k as int).push(
                ids@[k as int],
            ));
        }
        if k > 0 {
            push_char(out, ',');
        }
        push_digits(out, ids[k]);
        proof {
            if k == 0 {
                assert(ids@.subrange(0, 0) =~= Seq::<u64>::empty());
            }
            assert(out@ =~= old(out)@ + seq!['['] + spec_ids_items(ids@.subrange(0, k + 1 as int)));
        }
        k += 1;
    }
    push_char(out, ']');
    proof {
        assert(ids@.subrange(0, n as int) =~= ids@);
        assert(final(out)@ =~= old(out)@ + spec_encode_ids(ids@));
    }
}

/// Reads a bracketed id list at position `i`, exactly as `spec_parse_ids`
/// describes.
pub fn parse_ids_at(s: &str, i: usize) -> (r: Option<(Vec<u64>, usize)>)
    requires
        i <= s@.len(),
    ensures
        match r {
            Some((v, j)) => spec_parse_ids(s@, i as int) == Some((v@, j as int)) && j <= s@.len(),
            None => spec_parse_ids(s@, i as int) is None,
        },
{
    let len = s.unicode_len();
    if i == len || s.get_char(i) != '[' {
        return None;
    }
    if i + 1 < len && s.get_char(i + 1) == ']' {
        let v: Vec<u64> = Vec::new();
        proof {
            assert(v@ =~= Seq::<u64>::empty());
        }
        return Some((v, i + 2));
    }
    let mut cur = i + 1;
    let mut acc: Vec<u64> = Vec::new();
    loop
        invariant
            i + 1 <= cur <= len,
            len == s@.len(),
            spec_parse_ids(s@, i as int) == (match spec_parse_items(s@, cur as int) {
                Some((t, k)) => Some((acc@ + t, k)),
                None => None::<(Seq<u64>, int)>,
            }),
        decreases len - cur,
    {
        match parse_u64_at(s, cur) {
            None => {
                return None;
            },
            Some((x, j)) => {
                proof {
                    lemma_digit_run_end_bounds(s@, cur as int);
                }
                if j == len {
                    return None;
                }
                let c = s.get_char(j);
                if c == ',' {
                    proof {
                        if spec_parse_items(s@, j + 1 as int) is Some {
                            let (t, k) = spec_parse_items(s@, j + 1 as int)->Some_0;
                            assert(acc@ + (seq![x] + t) =~= (acc@.push(x)) + t);
                        }
                    }
                    acc.push(x);
                    cur = j + 1;
                } else if c == ']' {
                    proof {
                        assert(acc@ + seq![x] =~= acc@.push(x));
                    }
                    acc.push(x);
                    return Some((acc, j + 1));
                } else {
                    return None;
                }
            },
        }
    }
}

// ---------------------------------------------------------------------------
// Literal framing
// ---------------------------------------------------------------------------
pub open spec fn spec_starts_with(s: Seq<char>, p: Seq<char>) -> bool {
    s.len() >= p.len() && s.subrange(0, p.len() as int) == p
}

/// The position just past `lit`, when `lit` stands at `i` in `s`.
pub open spec fn spec_expect(s: Seq<char>, i: int, lit: Seq<char>) -> Option<int> {
    if 0 <= i && i + lit.len() <= s.len() && s.subrange(i, i + lit.len()) == lit {
        Some(i + lit.len() as int)
    } else {
        None
    }
}

pub proof fn lemma_expect(pre: Seq<char>, lit: Seq<char>, rest: Seq<char>)
    ensures
        spec_expect(pre + lit + rest, pre.len() as int, lit) == Some(
            pre.len() + lit.len() as int,
        ),
{
    let s = pre + lit + rest;
    assert(s.subrange(pre.len() as int, pre.len() + lit.len() as int) =~= lit);
}

pub proof fn lemma_not_starts_with(s: Seq<char>, p: Seq<char>, k: int)
    requires
        0 <= k < p.len(),
        k < s.len(),
        s[k] != p[k],
    ensures
        !spec_starts_with(s, p),
{
    if spec_starts_with(s, p) {
        assert(s.subrange(0, p.len() as int)[k] == s[k]);
    }
}

pub fn starts_with_exec(s: &str, p: &str) -> (b: bool)
    ensures
        b == spec_starts_with(s@, p@),
{
    let slen = s.unicode_len();
    let plen = p.unicode_len();
    if slen < plen {
        return false;
    }
    let mut k: usize = 0;
    while k < plen
        invariant
            k <= plen <= slen,
            slen == s@.len(),
            plen == p@.len(),
            forall|t: int| 0 <= t < k ==> s@[t] == p@[t],
        decreases plen - k,
    {
        if s.get_char(k) != p.get_char(k) {
            proof {
                if spec_starts_with(s@, p@) {
                    assert(s@.subrange(0, p@.len() as int)[k as int] == s@[k as int]);
                }
            }
            return false;
        }
        k += 1;
    }
    proof {
        assert(s@.subrange(0, p@.len() as int) =~= p@);
    }
    true
}

pub fn str_eq_exec(s: &str, p: &str) -> (b: bool)
    ensures
        b == (s@ == p@),
{
    let slen = s.unicode_len();
    let plen = p.unicode_len();
    if slen != plen {
        return false;
    }
    let r = starts_with_exec(s, p);
    proof {
        if r {
            assert(s@.subrange(0, p@.len() as int) =~= s@);
        }
        if s@ == p@ {
            assert(s@.subrange(0, p@.len() as int) =~= p@);
        }
    }
    r
}

/// Checks that `lit` stands at `i` in `s`, exactly as `spec_expect` describes.
pub fn expect_at(s: &str, i: usize, lit: &str) -> (r: Option<usize>)
    requires
        i <= s@.len(),
    ensures
        match r {
            Some(j) => spec_expect(s@, i as int, lit@) == Some(j as int) && j <= s@.len(),
            None => spec_expect(s@, i as int, lit@) is None,
        },
{
    let slen = s.unicode_len();
    let llen = lit.unicode_len();
    if slen - i < llen {
        return None;
    }
    let mut k: usize = 0;
    while k < llen
        invariant
            k <= llen,
            i + llen <= slen,
            slen == s@.len(),
            llen == lit@.len(),
            forall|t: int| 0 <= t < k ==> s@[i + t] == lit@[t],
        decreases llen - k,
    {
        if s.get_char(i + k) != lit.get_char(k) {
            proof {
                if spec_expect(s@, i as int, lit@) is Some {
                    assert(s@.subrange(i as int, i + lit@.len())[k as int] == s@[i + k]);
                }
            }
            return None;
        }
        k += 1;
    }
    proof {
        assert(s@.subrange(i as int, i + lit@.len()) =~= lit@);
    }
    Some(i + llen)
}

// ---------------------------------------------------------------------------
// Whole messages
// ---------------------------------------------------------------------------
pub open spec fn lit_generate_code() -> Seq<char> {
    "{\"type\":\"generate_code\"}"@
}

pub open spec fn lit_data_pre() -> Seq<char> {
    "{\"type\":\"data\",\"content\":\""@
}

pub open spec fn lit_gc_pre() -> Seq<char> {
    "{\"type\":\"generated_code\",\"code\":\""@
}

pub open spec fn lit_ci_pre() -> Seq<char> {
    "{\"type\":\"connection_info\",\"id\":"@
}

pub open spec fn lit_ci_mid1() -> Seq<char> {
    ",\"channel_uuid\":\""@
}

pub open spec fn lit_ci_mid2() -> Seq<char> {
    "\",\"client_ids\":"@
}

pub open spec fn lit_ci_mid3() -> Seq<char> {
    ",\"protocol_version\":"@
}

pub open spec fn lit_cc_pre() -> Seq<char> {
    "{\"type\":\"client_connected\",\"id\":"@
}

pub open spec fn lit_cd_pre() -> Seq<char> {
    "{\"type\":\"client_disconnected\",\"id\":"@
}

pub open spec fn lit_close_str() -> Seq<char> {
    "\"}"@
}

/// The JSON rendering of a client command.
pub open spec fn spec_encode_incoming(m: IncomingView) -> Seq<char> {
    match m {
        IncomingView::GenerateCode => lit_generate_code(),
        IncomingView::Data { content } => lit_data_pre() + spec_escape(content) + lit_close_str(),
    }
}

/// The JSON rendering of a relay event.
pub open spec fn spec_encode_outgoing(m: OutgoingView) -> Seq<char> {
    match m {
        OutgoingView::GeneratedCode { code } => lit_gc_pre() + spec_escape(code) + lit_close_str(),
        OutgoingView::Data { content } => lit_data_pre() + spec_escape(content) + lit_close_str(),
        OutgoingView::ConnectionInfo { id, channel_uuid, client_ids, protocol_version } => (
        lit_ci_pre() + spec_digits(id as nat) + lit_ci_mid1() + spec_uuid_text(channel_uuid)
            + lit_ci_mid2() + spec_encode_ids(client_ids) + lit_ci_mid3() + spec_digits(
            protocol_version as nat,
        ) + seq!['}']),
        OutgoingView::ClientConnected { id } => lit_cc_pre() + spec_digits(id as nat) + seq!['}'],
        OutgoingView::ClientDisconnected { id } => (lit_cd_pre() + spec_digits(id as nat)
            + seq!['}']),
    }
}

/// Reads a whole client command; `None` on anything else.
pub open spec fn spec_decode_incoming(s: Seq<char>) -> Option<IncomingView> {
    if s == lit_generate_code() {
        Some(IncomingView::GenerateCode)
    } else if spec_starts_with(s, lit_data_pre()) {
        match spec_parse_strbody(s, lit_data_pre().len() as int) {
            Some((w, j)) => if j == s.len() - 1 && s[j] == '}' {
                Some(IncomingView::Data { content: w })
            } else {
                None
            },
            None => None,
        }
    } else {
        None
    }
}

/// Reads a whole relay event; `None` on anything else.
pub open spec fn spec_decode_outgoing(s: Seq<char>) -> Option<OutgoingView> {
    if spec_starts_with(s, lit_gc_pre()) {
        match spec_parse_strbody(s, lit_gc_pre().len() as int) {
            Some((w, j)) => if j == s.len() - 1 && s[j] == '}' {
                Some(OutgoingView::GeneratedCode { code: w })
            } else {
                None
            },
            None => None,
        }
    } else if spec_starts_with(s, lit_data_pre()) {
        match spec_parse_strbody(s, lit_data_pre().len() as int) {
            Some((w, j)) => if j == s.len() - 1 && s[j] == '}' {
                Some(OutgoingView::Data { content: w })
            } else {
                None
            },
            None => None,
        }
    } else if spec_starts_with(s, lit_ci_pre()) {
        match spec_parse_u64(s, lit_ci_pre().len() as int) {
            Some((id, j1)) => match spec_expect(s, j1, lit_ci_mid1()) {
                Some(j2) => match spec_parse_uuid(s, j2) {
                    Some(u) => match spec_expect(s, j2 + 36, lit_ci_mid2()) {
                        Some(j3) => match spec_parse_ids(s, j3) {
                            Some((ids, j4)) => match spec_expect(s, j4, lit_ci_mid3()) {
                                Some(j5) => match spec_parse_u64(s, j5) {
                                    Some((pv, j6)) => if j6 == s.len() - 1 && s[j6] == '}' {
                                        Some(
                                            OutgoingView::ConnectionInfo {
                                                id,
                                                channel_uuid: u,
                                                client_ids: ids,
                                                protocol_version: pv,
                                            },
                                        )
                                    } else {
                                        None
                                    },
                                    None => None,
                                },
                                None => None,
                            },
                            None => None,
                        },
                        None => None,
                    },
                    None => None,
                },
                None => None,
            },
            None => None,
        }
    } else if spec_starts_with(s, lit_cc_pre()) {
        match spec_parse_u64(s, lit_cc_pre().len() as int) {
            Some((id, j)) => if j == s.len() - 1 && s[j] == '}' {
                Some(OutgoingView::ClientConnected { id })
            } else {
                None
            },
            None => None,
        }
    } else if spec_starts_with(s, lit_cd_pre()) {
        match spec_parse_u64(s, lit_cd_pre().len() as int) {
            Some((id, j)) => if j == s.len() - 1 && s[j] == '}' {
                Some(OutgoingView::ClientDisconnected { id })
            } else {
                None
            },
            None => None,
        }
    } else {
        None
    }
}

/// Renders a client command as its JSON text.
pub fn encode_incoming(m: &IncomingMessage) -> (r: String)
    ensures
        r@ == spec_encode_incoming(m@),
{
    match m {
        IncomingMessage::GenerateCode => String::from_str("{\"type\":\"generate_code\"}"),
        IncomingMessage::Data { content } => {
            let mut out = String::from_str("{\"type\":\"data\",\"content\":\"");
            push_escaped(&mut out, content.as_str());
            out.append("\"}");
            proof {
                assert(out@ =~= spec_encode_incoming(m@));
            }
            out
        },
    }
}

/// Renders a relay event as its JSON text.
pub fn encode_outgoing(m: &OutgoingMessage) -> (r: String)
    ensures
        r@ == spec_encode_outgoing(m@),
{
    match m {
        OutgoingMessage::GeneratedCode { code } => {
            let mut out = String::from_str("{\"type\":\"generated_code\",\"code\":\"");
            push_escaped(&mut out, code.as_str());
            out.append("\"}");
            proof {
                assert(out@ =~= spec_encode_outgoing(m@));
            }
            out
        },
        OutgoingMessage::Data { content } => {
            let mut out = String::from_str("{\"type\":\"data\",\"content\":\"");
            push_escaped(&mut out, content.as_str());
            out.append("\"}");
            proof {
                assert(out@ =~= spec_encode_outgoing(m@));
            }
            out
        },
        OutgoingMessage::ConnectionInfo { id, channel_uuid, client_ids, protocol_version } => {
            let mut out = String::from_str("{\"type\":\"connection_info\",\"id\":");
            push_digits(&mut out, *id);
            out.append(",\"channel_uuid\":\"");
            push_uuid(&mut out, *channel_uuid);
            out.append("\",\"client_ids\":");
            push_ids(&mut out, client_ids);
            out.append(",\"protocol_version\":");
            push_digits(&mut out, *protocol_version);
            push_char(&mut out, '}');
            proof {
                assert(out@ =~= spec_encode_outgoing(m@));
            }
            out
        },
        OutgoingMessage::ClientConnected { id } => {
            let mut out = String::from_str("{\"type\":\"client_connected\",\"id\":");
            push_digits(&mut out, *id);
            push_char(&mut out, '}');
            proof {
                assert(out@ =~= spec_encode_outgoing(m@));
            }
            out
        },
        OutgoingMessage::ClientDisconnected { id } => {
            let mut out = String::from_str("{\"type\":\"client_disconnected\",\"id\":");
            push_digits(&mut out, *id);
            push_char(&mut out, '}');
            proof {
                assert(out@ =~= spec_encode_outgoing(m@));
            }
            out
        },
    }
}

/// Reads a client command from its JSON text, exactly as
/// `spec_decode_incoming` describes.
pub fn decode_incoming(s: &str) -> (r: Option<IncomingMessage>)
    ensures
        match r {
            Some(m) => spec_decode_incoming(s@) == Some(m@),
            None => spec_decode_incoming(s@) is None,
        },
{
    let len = s.unicode_len();
    if str_eq_exec(s, "{\"type\":\"generate_code\"}") {
        return Some(IncomingMessage::GenerateCode);
    }
    let pre = "{\"type\":\"data\",\"content\":\"";
    if !starts_with_exec(s, pre) {
        return None;
    }
    let plen = pre.unicode_len();
    match parse_strbody_at(s, plen) {
        Some((w, j)) => {
            proof {
                lemma_strbody_bounds(s@, plen as int);
            }
            if j < len && len - j == 1 && s.get_char(j) == '}' {
                Some(IncomingMessage::Data { content: w })
            } else {
                None
            }
        },
        None => None,
    }
}

/// Reads a relay event from its JSON text, exactly as `spec_decode_outgoing`
/// describes.
pub fn decode_outgoing(s: &str) -> (r: Option<OutgoingMessage>)
    ensures
        match r {
            Some(m) => spec_decode_outgoing(s@) == Some(m@),
            None => spec_decode_outgoing(s@) is None,
        },
{
    let len = s.unicode_len();
    let gc_pre = "{\"type\":\"generated_code\",\"code\":\"";
    let data_pre = "{\"type\":\"data\",\"content\":\"";
    let ci_pre = "{\"type\":\"connection_info\",\"id\":";
    let cc_pre = "{\"type\":\"client_connected\",\"id\":";
    let cd_pre = "{\"type\":\"client_disconnected\",\"id\":";
    if starts_with_exec(s, gc_pre) {
        match parse_strbody_at(s, gc_pre.unicode_len()) {
            Some((w, j)) => {
                proof {
                    lemma_strbody_bounds(s@, gc_pre@.len() as int);
                }
                if j < len && len - j == 1 && s.get_char(j) == '}' {
                    Some(OutgoingMessage::GeneratedCode { code: w })
                } else {
                    None
                }
            },
            None => None,
        }
    } else if starts_with_exec(s, data_pre) {
        match parse_strbody_at(s, data_pre.unicode_len()) {
            Some((w, j)) => {
                proof {
                    lemma_strbody_bounds(s@, data_pre@.len() as int);
                }
                if j < len && len - j == 1 && s.get_char(j) == '}' {
                    Some(OutgoingMessage::Data { content: w })
                } else {
                    None
                }
            },
            None => None,
        }
    } else if starts_with_exec(s, ci_pre) {
        match parse_u64_at(s, ci_pre.unicode_len()) {
            None => None,
            Some((id, j1)) => {
                proof {
                    lemma_digit_run_end_bounds(s@, ci_pre@.len() as int);
                }
                match expect_at(s, j1, ",\"channel_uuid\":\"") {
                    None => None,
                    Some(j2) => match parse_uuid_at(s, j2) {
                        None => None,
                        Some(u) => match expect_at(s, j2 + 36, "\",\"client_ids\":") {
                            None => None,
                            Some(j3) => match parse_ids_at(s, j3) {
                                None => None,
                                Some((ids, j4)) => match expect_at(
                                    s,
                                    j4,
                                    ",\"protocol_version\":",
                                ) {
                                    None => None,
                                    Some(j5) => match parse_u64_at(s, j5) {
                                        None => None,
                                        Some((pv, j6)) => {
                                            proof {
                                                lemma_digit_run_end_bounds(s@, j5 as int);
                                            }
                                            if j6 < len && len - j6 == 1 && s.get_char(j6)
                                                == '}' {
                                                Some(
                                                    OutgoingMessage::ConnectionInfo {
                                                        id,
                                                        channel_uuid: u,
                                                        client_ids: ids,
                                                        protocol_version: pv,
                                                    },
                                                )
                                            } else {
                                                None
                                            }
                                        },
                                    },
                                },
                            },
                        },
                    },
                }
            },
        }
    } else if starts_with_exec(s, cc_pre) {
        match parse_u64_at(s, cc_pre.unicode_len()) {
            None => None,
            Some((id, j)) => {
                proof {
                    lemma_digit_run_end_bounds(s@, cc_pre@.len() as int);
                }
                if j < len && len - j == 1 && s.get_char(j) == '}' {
                    Some(OutgoingMessage::ClientConnected { id })
                } else {
                    None
                }
            },
        }
    } else if starts_with_exec(s, cd_pre) {
        match parse_u64_at(s, cd_pre.unicode_len()) {
            None => None,
            Some((id, j)) => {
                proof {
                    lemma_digit_run_end_bounds(s@, cd_pre@.len() as int);
                }
                if j < len && len - j == 1 && s.get_char(j) == '}' {
                    Some(OutgoingMessage::ClientDisconnected { id })
                } else {
                    None
                }
            },
        }
    } else {
        None
    }
}

/// Every client command round-trips losslessly through its JSON rendering.
pub proof fn lemma_incoming_round_trip(m: IncomingView)
    ensures
        spec_decode_incoming(spec_encode_incoming(m)) == Some(m),
{
    reveal_strlit("{\"type\":\"generate_code\"}");
    reveal_strlit("{\"type\":\"data\",\"content\":\"");
    reveal_strlit("\"}");
    match m {
        IncomingView::GenerateCode => {},
        IncomingView::Data { content } => {
            let s = spec_encode_incoming(m);
            let pre = lit_data_pre();
            assert(lit_close_str() =~= seq!['"', '}']);
            assert(s =~= pre + spec_escape(content) + seq!['"'] + seq!['}']);
            lemma_strbody_round_trip(pre, content, seq!['}']);
            assert(s.len() >= pre.len() + 2);
            assert(s != lit_generate_code());
            assert(spec_starts_with(s, pre)) by {
                assert(s.subrange(0, pre.len() as int) =~= pre);
            }
            let j = pre.len() + spec_escape(content).len() + 1;
            assert(s[j as int] == '}');
            assert(j == s.len() - 1);
        },
    }
}

/// Every relay event round-trips losslessly through its JSON rendering.
#[verifier::spinoff_prover]
#[verifier::rlimit(100)]
pub proof fn lemma_outgoing_round_trip(m: OutgoingView)
    ensures
        spec_decode_outgoing(spec_encode_outgoing(m)) == Some(m),
{
    reveal_strlit("{\"type\":\"generated_code\",\"code\":\"");
    reveal_strlit("{\"type\":\"data\",\"content\":\"");
    reveal_strlit("{\"type\":\"connection_info\",\"id\":");
    reveal_strlit(",\"channel_uuid\":\"");
    reveal_strlit("\",\"client_ids\":");
    reveal_strlit(",\"protocol_version\":");
    reveal_strlit("{\"type\":\"client_connected\",\"id\":");
    reveal_strlit("{\"type\":\"client_disconnected\",\"id\":");
    reveal_strlit("\"}");
    let s = spec_encode_outgoing(m);
    match m {
        OutgoingView::GeneratedCode { code } => {
            let pre = lit_gc_pre();
            assert(lit_close_str() =~= seq!['"', '}']);
            assert(s =~= pre + spec_escape(code) + seq!['"'] + seq!['}']);
            lemma_strbody_round_trip(pre, code, seq!['}']);
            assert(spec_starts_with(s, pre)) by {
                assert(s.subrange(0, pre.len() as int) =~= pre);
            }
            let j = pre.len() + spec_escape(code).len() + 1;
            assert(s[j as int] == '}');
            assert(j == s.len() - 1);
        },
        OutgoingView::Data { content } => {
            let pre = lit_data_pre();
            assert(lit_close_str() =~= seq!['"', '}']);
            assert(s =~= pre + spec_escape(content) + seq!['"'] + seq!['}']);
            assert(s[9] == pre[9]);
            assert(s[9] == 'd' && lit_gc_pre()[9] == 'g');
            lemma_not_starts_with(s, lit_gc_pre(), 9);
            lemma_strbody_round_trip(pre, content, seq!['}']);
            assert(spec_starts_with(s, pre)) by {
                assert(s.subrange(0, pre.len() as int) =~= pre);
            }
            let j = pre.len() + spec_escape(content).len() + 1;
            assert(s[j as int] == '}');
            assert(j == s.len() - 1);
        },
        OutgoingView::ConnectionInfo { id, channel_uuid, client_ids, protocol_version } => {
            let p0 = lit_ci_pre();
            let d1 = spec_digits(id as nat);
            let l1 = lit_ci_mid1();
            let u = spec_uuid_text(channel_uuid);
            let l2 = lit_ci_mid2();
            let enc_ids = spec_encode_ids(client_ids);
            let l3 = lit_ci_mid3();
            let d2 = spec_digits(protocol_version as nat);
            assert(s == p0 + d1 + l1 + u + l2 + enc_ids + l3 + d2 + seq!['}']);
            assert(s[9] == p0[9]);
            assert(s[9] == 'c' && lit_gc_pre()[9] == 'g' && lit_data_pre()[9] == 'd');
            lemma_not_starts_with(s, lit_gc_pre(), 9);
            lemma_not_starts_with(s, lit_data_pre(), 9);
            assert(spec_starts_with(s, p0)) by {
                assert(s.subrange(0, p0.len() as int) =~= p0);
            }
            // the id, closed by the comma of the next field
            let rest1 = l1 + u + l2 + enc_ids + l3 + d2 + seq!['}'];
            assert(s =~= p0 + d1 + rest1);
            assert(rest1[0] == ',');
            lemma_parse_after_digits(p0, id, rest1);
            let j1 = p0.len() + d1.len() as int;
            // the literal before the identifier
            let rest2 = u + l2 + enc_ids + l3 + d2 + seq!['}'];
            assert(s =~= (p0 + d1) + l1 + rest2);
            lemma_expect(p0 + d1, l1, rest2);
            let j2 = j1 + l1.len() as int;
            // the identifier
            let rest3 = l2 + enc_ids + l3 + d2 + seq!['}'];
            assert(s =~= (p0 + d1 + l1) + u + rest3);
            lemma_uuid_round_trip(p0 + d1 + l1, channel_uuid, rest3);
            // the literal before the member list
            let rest4 = enc_ids + l3 + d2 + seq!['}'];
            assert(s =~= (p0 + d1 + l1 + u) + l2 + rest4);
            lemma_expect(p0 + d1 + l1 + u, l2, rest4);
            let j3 = j2 + 36 + l2.len() as int;
            // the member list
            let rest5 = l3 + d2 + seq!['}'];
            assert(s =~= (p0 + d1 + l1 + u + l2) + enc_ids + rest5);
            lemma_ids_round_trip(p0 + d1 + l1 + u + l2, client_ids, rest5);
            let j4 = j3 + enc_ids.len() as int;
            // the literal before the version
            let rest6 = d2 + seq!['}'];
            assert(s =~= (p0 + d1 + l1 + u + l2 + enc_ids) + l3 + rest6);
            lemma_expect(p0 + d1 + l1 + u + l2 + enc_ids, l3, rest6);
            let j5 = j4 + l3.len() as int;
            // the version, closed by the final brace
            assert(s =~= (p0 + d1 + l1 + u + l2 + enc_ids + l3) + d2 + seq!['}']);
            lemma_parse_after_digits(p0 + d1 + l1 + u + l2 + enc_ids + l3, protocol_version,
                seq!['}']);
            let j6 = j5 + d2.len() as int;
            assert(s[j6] == '}');
            assert(j6 == s.len() - 1);
        },
        OutgoingView::ClientConnected { id } => {
            let pre = lit_cc_pre();
            assert(s == pre + spec_digits(id as nat) + seq!['}']);
            assert(s[9] == pre[9]);
            assert(s[10] == pre[10]);
            assert(s[9] == 'c' && lit_gc_pre()[9] == 'g' && lit_data_pre()[9] == 'd');
            assert(s[10] == 'l' && lit_ci_pre()[10] == 'o');
            lemma_not_starts_with(s, lit_gc_pre(), 9);
            lemma_not_starts_with(s, lit_data_pre(), 9);
            lemma_not_starts_with(s, lit_ci_pre(), 10);
            assert(spec_starts_with(s, pre)) by {
                assert(s.subrange(0, pre.len() as int) =~= pre);
            }
            assert(s =~= pre + spec_digits(id as nat) + seq!['}']);
            lemma_parse_after_digits(pre, id, seq!['}']);
            let j = pre.len() + spec_digits(id as nat).len() as int;
            assert(s[j] == '}');
            assert(j == s.len() - 1);
        },
        OutgoingView::ClientDisconnected { id } => {
            let pre = lit_cd_pre();
            assert(s == pre + spec_digits(id as nat) + seq!['}']);
            assert(s[9] == pre[9]);
            assert(s[10] == pre[10]);
            assert(s[16] == pre[16]);
            assert(s[9] == 'c' && lit_gc_pre()[9] == 'g' && lit_data_pre()[9] == 'd');
            assert(s[10] == 'l' && lit_ci_pre()[10] == 'o');
            assert(s[16] == 'd' && lit_cc_pre()[16] == 'c');
            lemma_not_starts_with(s, lit_gc_pre(), 9);
            lemma_not_starts_with(s, lit_data_pre(), 9);
            lemma_not_starts_with(s, lit_ci_pre(), 10);
            lemma_not_starts_with(s, lit_cc_pre(), 16);
            assert(spec_starts_with(s, pre)) by {
                assert(s.subrange(0, pre.len() as int) =~= pre);
            }
            assert(s =~= pre + spec_digits(id as nat) + seq!['}']);
            lemma_parse_after_digits(pre, id, seq!['}']);
            let j = pre.len() + spec_digits(id as nat).len() as int;
            assert(s[j] == '}');
            assert(j == s.len() - 1);
        },
    }
}

} // verus!
