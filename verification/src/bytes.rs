//! Small verified helpers over byte vectors: equality, slicing, searching,
//! ASCII case folding and bounded decimal parsing. Everything downstream
//! (framing, parsing, the cache key) is built on these.

use vstd::prelude::*;

verus! {

/// ASCII space.
pub const SP: u8 = 32;
/// ASCII carriage return.
pub const CR: u8 = 13;
/// ASCII line feed.
pub const LF: u8 = 10;

/// Byte-for-byte equality of two byte vectors.
pub fn bytes_eq(a: &Vec<u8>, b: &Vec<u8>) -> (r: bool)
    ensures
        r == (a@ == b@),
{
    if a.len() != b.len() {
        assert(a@ != b@) by {
            assert(a@.len() != b@.len());
        }
        return false;
    }
    let mut i: usize = 0;
    while i < a.len()
        invariant
            i <= a.len(),
            a@.len() == b@.len(),
            forall|j: int| 0 <= j < i ==> a@[j] == b@[j],
        decreases a.len() - i,
    {
        if a[i] != b[i] {
            return false;
        }
        i += 1;
    }
    proof {
        assert(a@ =~= b@);
    }
    true
}

/// Copy of the byte range `[i, j)` of `v`.
pub fn subvec(v: &Vec<u8>, i: usize, j: usize) -> (r: Vec<u8>)
    requires
        i <= j <= v@.len(),
    ensures
        r@ == v@.subrange(i as int, j as int),
{
    let mut r: Vec<u8> = Vec::new();
    let mut k: usize = i;
    while k < j
        invariant
            i <= k <= j <= v@.len(),
            r@ == v@.subrange(i as int, k as int),
        decreases j - k,
    {
        r.push(v[k]);
        proof {
            assert(r@ =~= v@.subrange(i as int, k + 1 as int));
        }
        k += 1;
    }
    r
}

/// Index of the first occurrence of `b` in `s` at or after `i`; `s.len()` if none.
pub open spec fn first_byte_from(s: Seq<u8>, b: u8, i: int) -> int
    decreases s.len() - i,
{
    if i < 0 || i >= s.len() {
        s.len() as int
    } else if s[i] == b {
        i
    } else {
        first_byte_from(s, b, i + 1)
    }
}

/// The result of `first_byte_from` lies between `i` and `s.len()`, marks `b`
/// when in range, and nothing before it (from `i` on) is `b`.
pub proof fn lemma_first_byte_from(s: Seq<u8>, b: u8, i: int)
    requires
        0 <= i <= s.len(),
    ensures
        i <= first_byte_from(s, b, i) <= s.len(),
        first_byte_from(s, b, i) < s.len() ==> s[first_byte_from(s, b, i)] == b,
        forall|j: int| i <= j < first_byte_from(s, b, i) ==> s[j] != b,
    decreases s.len() - i,
{
    if i < s.len() && s[i] != b {
        lemma_first_byte_from(s, b, i + 1);
    }
}

/// First occurrence of `b` in `v` at or after `i`, as `first_byte_from` gives it.
pub fn find_byte(v: &Vec<u8>, b: u8, i: usize) -> (r: usize)
    requires
        i <= v@.len(),
    ensures
        r == first_byte_from(v@, b, i as int),
        i <= r <= v@.len(),
    decreases v@.len() - i,
{
    proof {
        lemma_first_byte_from(v@, b, i as int);
    }
    if i == v.len() {
        i
    } else if v[i] == b {
        i
    } else {
        find_byte(v, b, i + 1)
    }
}

/// ASCII upper-casing of one byte: lower-case letters are folded, the rest kept.
pub open spec fn spec_upper(b: u8) -> u8 {
    if 97 <= b && b <= 122 {
        (b - 32) as u8
    } else {
        b
    }
}

/// The ASCII upper-casing of a whole byte sequence.
pub open spec fn upper_seq(s: Seq<u8>) -> Seq<u8> {
    s.map_values(|b: u8| spec_upper(b))
}

/// Upper-cased copy of `v` (ASCII only; other bytes are kept).
pub fn to_upper(v: &Vec<u8>) -> (r: Vec<u8>)
    ensures
        r@ == upper_seq(v@),
{
    let mut r: Vec<u8> = Vec::new();
    let mut k: usize = 0;
    while k < v.len()
        invariant
            k <= v@.len(),
            r@ =~= upper_seq(v@.subrange(0, k as int)),
        decreases v.len() - k,
    {
        let b = v[k];
        if 97 <= b && b <= 122 {
            r.push(b - 32);
        } else {
            r.push(b);
        }
        proof {
            assert(r@ =~= upper_seq(v@.subrange(0, k + 1 as int)));
        }
        k += 1;
    }
    proof {
        assert(v@.subrange(0, v@.len() as int) =~= v@);
    }
    r
}

/// Whether `b` is an ASCII decimal digit.
pub open spec fn is_digit(b: u8) -> bool {
    48 <= b && b <= 57
}

/// Whether every byte of `s` is an ASCII decimal digit.
pub open spec fn all_digits(s: Seq<u8>) -> bool {
    forall|j: int| 0 <= j < s.len() ==> is_digit(#[trigger] s[j])
}

/// The value of `s` read as a decimal numeral, most significant digit first.
pub open spec fn dec_val(s: Seq<u8>) -> nat
    decreases s.len(),
{
    if s.len() == 0 {
        0
    } else {
        dec_val(s.drop_last()) * 10 + (s.last() - 48) as nat
    }
}

/// Ten to the power `n`.
pub open spec fn pow10(n: nat) -> nat
    decreases n,
{
    if n == 0 {
        1
    } else {
        10 * pow10((n - 1) as nat)
    }
}

/// Largest number of digits a recognised numeral may have. Longer number
/// tokens are not recognised; a command holding one is still relayed, just
/// never intercepted.
pub const MAX_NUM_DIGITS: usize = 9;

/// Whether `s` is a numeral this crate recognises: one to nine digits.
pub open spec fn is_numeral(s: Seq<u8>) -> bool {
    1 <= s.len() <= MAX_NUM_DIGITS && all_digits(s)
}

/// Parse `v` as a decimal numeral of one to nine digits.
/// Returns the value exactly when `v` is such a numeral.
pub fn parse_num(v: &Vec<u8>) -> (r: Option<u32>)
    ensures
        r is Some <==> is_numeral(v@),
        r is Some ==> r->0 == dec_val(v@),
{
    if v.len() == 0 || v.len() > MAX_NUM_DIGITS {
        return None;
    }
    let mut acc: u32 = 0;
    let mut k: usize = 0;
    proof {
        lemma_pow10_mono(0, MAX_NUM_DIGITS as nat);
    }
    while k < v.len()
        invariant
            k <= v@.len() <= MAX_NUM_DIGITS,
            all_digits(v@.subrange(0, k as int)),
            acc == dec_val(v@.subrange(0, k as int)),
            acc < pow10(k as nat),
            pow10(k as nat) <= pow10(MAX_NUM_DIGITS as nat),
        decreases v.len() - k,
    {
        let b = v[k];
        if b < 48 || b > 57 {
            assert(!is_digit(v@[k as int]));
            return None;
        }
        proof {
            assert(v@.subrange(0, k + 1 as int).drop_last() =~= v@.subrange(0, k as int));
            assert(v@.subrange(0, k + 1 as int).last() == v@[k as int]);
            reveal_with_fuel(pow10, 10);
            lemma_pow10_mono(k as nat, (MAX_NUM_DIGITS - 1) as nat);
            lemma_pow10_mono((k + 1) as nat, MAX_NUM_DIGITS as nat);
        }
        acc = acc * 10 + (b - 48) as u32;
        k += 1;
    }
    proof {
        assert(v@.subrange(0, v@.len() as int) =~= v@);
    }
    Some(acc)
}

/// `pow10` is monotone.
pub proof fn lemma_pow10_mono(a: nat, b: nat)
    requires
        a <= b,
    ensures
        pow10(a) <= pow10(b),
    decreases b,
{
    if a < b {
        lemma_pow10_mono(a, (b - 1) as nat);
        assert(pow10(b) == 10 * pow10((b - 1) as nat));
    }
}

/// The tokens of `s` from position `i` on: maximal runs between single
/// spaces. A trailing space yields no empty trailing token.
pub open spec fn split_from(s: Seq<u8>, i: int) -> Seq<Seq<u8>>
    decreases s.len() - i,
    via split_from_dec
{
    if i < 0 || i >= s.len() {
        seq![]
    } else {
        let j = first_byte_from(s, SP, i);
        let next = if j + 1 <= s.len() {
            j + 1
        } else {
            s.len() as int
        };
        seq![s.subrange(i, j)] + split_from(s, next)
    }
}

#[via_fn]
proof fn split_from_dec(s: Seq<u8>, i: int) {
    if 0 <= i && i < s.len() {
        lemma_first_byte_from(s, SP, i);
    }
}

/// The tokens of a whole line.
pub open spec fn tokens_of(s: Seq<u8>) -> Seq<Seq<u8>> {
    split_from(s, 0)
}

/// The views of a vector of byte vectors.
pub open spec fn views(r: Seq<Vec<u8>>) -> Seq<Seq<u8>> {
    r.map_values(|t: Vec<u8>| t@)
}

fn split_tokens_from(v: &Vec<u8>, i: usize) -> (r: Vec<Vec<u8>>)
    requires
        i <= v@.len(),
    ensures
        views(r@) == split_from(v@, i as int),
    decreases v@.len() - i,
{
    if i >= v.len() {
        let r: Vec<Vec<u8>> = Vec::new();
        proof {
            assert(views(r@) =~~= split_from(v@, i as int));
        }
        r
    } else {
        let j = find_byte(v, SP, i);
        proof {
            lemma_first_byte_from(v@, SP, i as int);
        }
        let tok = subvec(v, i, j);
        let mut r: Vec<Vec<u8>> = Vec::new();
        r.push(tok);
        if j < v.len() {
            let mut rest = split_tokens_from(v, j + 1);
            r.append(&mut rest);
        }
        proof {
            reveal_with_fuel(split_from, 2);
            assert(views(r@) =~~= split_from(v@, i as int));
        }
        r
    }
}

/// The decimal numeral of `n`, most significant digit first, no leading
/// zeroes (a single `0` for zero).
pub open spec fn dec_digits(n: nat) -> Seq<u8>
    decreases n,
{
    if n < 10 {
        seq![(48 + n) as u8]
    } else {
        dec_digits(n / 10).push((48 + n % 10) as u8)
    }
}

/// Render `n` as its decimal numeral.
pub fn render_dec(n: usize) -> (r: Vec<u8>)
    ensures
        r@ == dec_digits(n as nat),
    decreases n,
{
    if n < 10 {
        let mut r: Vec<u8> = Vec::new();
        r.push(48 + n as u8);
        proof {
            assert(r@ =~= seq![(48 + n) as u8]);
        }
        r
    } else {
        proof {
            assert(n / 10 < n) by (nonlinear_arith)
                requires
                    n >= 10,
            ;
        }
        let mut r = render_dec(n / 10);
        r.push(48 + (n % 10) as u8);
        r
    }
}

/// Append a copy of `src` to `dst`.
pub fn append_bytes(dst: &mut Vec<u8>, src: &Vec<u8>)
    ensures
        final(dst)@ == old(dst)@ + src@,
{
    let mut k: usize = 0;
    while k < src.len()
        invariant
            k <= src@.len(),
            dst@ == old(dst)@ + src@.subrange(0, k as int),
        decreases src.len() - k,
    {
        dst.push(src[k]);
        proof {
            assert(dst@ =~= old(dst)@ + src@.subrange(0, k + 1 as int));
        }
        k += 1;
    }
    proof {
        assert(dst@ =~= old(dst)@ + src@);
    }
}

/// Split `v` into its space-separated tokens, as `tokens_of` gives them.
pub fn split_tokens(v: &Vec<u8>) -> (r: Vec<Vec<u8>>)
    ensures
        views(r@) == tokens_of(v@),
{
    split_tokens_from(v, 0)
}

} // verus!
