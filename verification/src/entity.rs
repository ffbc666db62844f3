//! Entity-reference scanning inside text runs: named references from a
//! fixed table and numeric (decimal or hexadecimal) references, recorded as
//! advisory metadata without altering the text bytes.

use vstd::prelude::*;
use crate::bytes::{is_digit, is_hex_digit};
use crate::tokens::{EntityRef, EntM};

verus! {

/// The fixed named-entity table: `amp`, `lt`, `gt`, `quot`, `apos`, `nbsp`,
/// each requiring a closing `;`. Result: resolved code point and length of
/// the reference including `&` and `;`.
pub open spec fn named_entity_at(s: Seq<u8>, lo: int, hi: int) -> Option<(int, int)> {
    if lo + 5 <= hi && s[lo + 1] == 97 && s[lo + 2] == 109 && s[lo + 3] == 112 && s[lo + 4]
        == 59 {
        Option::Some((38int, 5int))
    } else if lo + 4 <= hi && s[lo + 1] == 108 && s[lo + 2] == 116 && s[lo + 3] == 59 {
        Option::Some((60int, 4int))
    } else if lo + 4 <= hi && s[lo + 1] == 103 && s[lo + 2] == 116 && s[lo + 3] == 59 {
        Option::Some((62int, 4int))
    } else if lo + 6 <= hi && s[lo + 1] == 113 && s[lo + 2] == 117 && s[lo + 3] == 111 && s[lo
        + 4] == 116 && s[lo + 5] == 59 {
        Option::Some((34int, 6int))
    } else if lo + 6 <= hi && s[lo + 1] == 97 && s[lo + 2] == 112 && s[lo + 3] == 111 && s[lo
        + 4] == 115 && s[lo + 5] == 59 {
        Option::Some((39int, 6int))
    } else if lo + 6 <= hi && s[lo + 1] == 110 && s[lo + 2] == 98 && s[lo + 3] == 115 && s[lo
        + 4] == 112 && s[lo + 5] == 59 {
        Option::Some((160int, 6int))
    } else {
        Option::None
    }
}

/// First index in `[i, hi]` holding no decimal digit.
pub open spec fn digits_end(s: Seq<u8>, i: int, hi: int) -> int
    decreases hi - i when 0 <= i <= hi <= s.len()
{
    if i >= hi {
        i
    } else if !is_digit(s[i]) {
        i
    } else {
        digits_end(s, i + 1, hi)
    }
}

/// First index in `[i, hi]` holding no hexadecimal digit.
pub open spec fn hex_end(s: Seq<u8>, i: int, hi: int) -> int
    decreases hi - i when 0 <= i <= hi <= s.len()
{
    if i >= hi {
        i
    } else if !is_hex_digit(s[i]) {
        i
    } else {
        hex_end(s, i + 1, hi)
    }
}

/// First index in `[i, hi]` holding no `0`.
pub open spec fn skip_zeros(s: Seq<u8>, i: int, hi: int) -> int
    decreases hi - i when 0 <= i <= hi <= s.len()
{
    if i >= hi {
        i
    } else if s[i] != 48 {
        i
    } else {
        skip_zeros(s, i + 1, hi)
    }
}

pub open spec fn pow10(n: nat) -> int
    decreases n,
{
    if n == 0 {
        1
    } else {
        10 * pow10((n - 1) as nat)
    }
}

pub open spec fn pow16(n: nat) -> int
    decreases n,
{
    if n == 0 {
        1
    } else {
        16 * pow16((n - 1) as nat)
    }
}

/// Value of the decimal digit run `s[i..j]`.
pub open spec fn dec_val(s: Seq<u8>, i: int, j: int) -> int
    decreases j - i when i <= j
{
    if j <= i {
        0
    } else {
        dec_val(s, i, j - 1) * 10 + (s[j - 1] - 48)
    }
}

/// Value of one hexadecimal digit byte.
pub open spec fn hex_digit_val(b: u8) -> int {
    if is_digit(b) {
        b - 48
    } else if 97 <= b && b <= 102 {
        b - 87
    } else if 65 <= b && b <= 70 {
        b - 55
    } else {
        0
    }
}

/// Value of the hexadecimal digit run `s[i..j]`.
pub open spec fn hex_val(s: Seq<u8>, i: int, j: int) -> int
    decreases j - i when i <= j
{
    if j <= i {
        0
    } else {
        hex_val(s, i, j - 1) * 16 + hex_digit_val(s[j - 1])
    }
}

/// A numeric reference `&#` + decimal digits or `&#x`/`&#X` + hex digits,
/// terminated by `;` (consumed) or any other byte (not consumed), per
/// lenient parsing rules. References above the largest code point are not
/// recognized.
pub open spec fn numeric_entity_at(s: Seq<u8>, lo: int, hi: int) -> Option<(int, int)> {
    if !(lo + 3 <= hi && s[lo + 1] == 35) {
        Option::None
    } else if s[lo + 2] == 120 || s[lo + 2] == 88 {
        let d0 = lo + 3;
        let de = hex_end(s, d0, hi);
        if de <= d0 {
            Option::None
        } else {
            let z = skip_zeros(s, d0, de);
            if de - z > 6 {
                Option::None
            } else {
                let v = hex_val(s, z, de);
                if v > 0x10FFFF {
                    Option::None
                } else {
                    Option::Some(
                        (
                            v,
                            de - lo + if de < hi && s[de] == 59 {
                                1int
                            } else {
                                0int
                            },
                        ),
                    )
                }
            }
        }
    } else {
        let d0 = lo + 2;
        let de = digits_end(s, d0, hi);
        if de <= d0 {
            Option::None
        } else {
            let z = skip_zeros(s, d0, de);
            if de - z > 7 {
                Option::None
            } else {
                let v = dec_val(s, z, de);
                if v > 0x10FFFF {
                    Option::None
                } else {
                    Option::Some(
                        (
                            v,
                            de - lo + if de < hi && s[de] == 59 {
                                1int
                            } else {
                                0int
                            },
                        ),
                    )
                }
            }
        }
    }
}

/// The recognized entity reference starting at `lo` (which must hold `&`),
/// if any: code point and consumed length. A `&` forming no reference is
/// left as literal text with no diagnostic.
pub open spec fn entity_at(s: Seq<u8>, lo: int, hi: int) -> Option<(int, int)> {
    if !(0 <= lo && lo < hi && hi <= s.len() && s[lo] == 38) {
        Option::None
    } else if named_entity_at(s, lo, hi) is Some {
        named_entity_at(s, lo, hi)
    } else {
        numeric_entity_at(s, lo, hi)
    }
}

pub proof fn lemma_digits_end_range(s: Seq<u8>, i: int, hi: int)
    requires
        0 <= i <= hi <= s.len(),
    ensures
        i <= digits_end(s, i, hi) <= hi,
        forall|k: int| i <= k < digits_end(s, i, hi) ==> is_digit(#[trigger] s[k]),
        i <= hex_end(s, i, hi) <= hi,
        forall|k: int| i <= k < hex_end(s, i, hi) ==> is_hex_digit(#[trigger] s[k]),
        i <= skip_zeros(s, i, hi) <= hi,
    decreases hi - i,
{
    if i < hi {
        lemma_digits_end_range(s, i + 1, hi);
    }
}

proof fn lemma_pow_pos(n: nat)
    ensures
        pow10(n) >= 1,
        pow16(n) >= 1,
    decreases n,
{
    if n > 0 {
        lemma_pow_pos((n - 1) as nat);
    }
}

proof fn lemma_pow_mono(a: nat, b: nat)
    requires
        a <= b,
    ensures
        pow10(a) <= pow10(b),
        pow16(a) <= pow16(b),
    decreases b,
{
    lemma_pow_pos(a);
    lemma_pow_pos(b);
    if a < b {
        lemma_pow_mono(a, (b - 1) as nat);
        lemma_pow_pos((b - 1) as nat);
        assert(pow10(b) == 10 * pow10((b - 1) as nat));
        assert(pow16(b) == 16 * pow16((b - 1) as nat));
    }
}

proof fn lemma_pow_vals()
    ensures
        pow10(7) == 10000000,
        pow16(6) == 16777216,
{
    assert(pow10(0) == 1);
    assert(pow10(1) == 10);
    assert(pow10(2) == 100);
    assert(pow10(3) == 1000);
    assert(pow10(4) == 10000);
    assert(pow10(5) == 100000);
    assert(pow10(6) == 1000000);
    assert(pow10(7) == 10000000);
    assert(pow16(0) == 1);
    assert(pow16(1) == 16);
    assert(pow16(2) == 256);
    assert(pow16(3) == 4096);
    assert(pow16(4) == 65536);
    assert(pow16(5) == 1048576);
    assert(pow16(6) == 16777216);
}

proof fn lemma_pow10_bounds(n: nat)
    ensures
        pow10(n) >= 1,
        n <= 7 ==> pow10(n) <= 10000000,
        pow16(n) >= 1,
        n <= 6 ==> pow16(n) <= 16777216,
{
    lemma_pow_pos(n);
    lemma_pow_vals();
    if n <= 7 {
        lemma_pow_mono(n, 7);
    }
    if n <= 6 {
        lemma_pow_mono(n, 6);
    }
}

pub proof fn lemma_dec_val_bound(s: Seq<u8>, i: int, j: int)
    requires
        i <= j,
        forall|k: int| i <= k < j ==> is_digit(#[trigger] s[k]),
    ensures
        0 <= dec_val(s, i, j) < pow10((j - i) as nat),
    decreases j - i,
{
    lemma_pow10_bounds(((j - i)) as nat);
    if j > i {
        lemma_dec_val_bound(s, i, j - 1);
        lemma_pow10_bounds(((j - 1 - i)) as nat);
        assert(pow10((j - i) as nat) == 10 * pow10((j - 1 - i) as nat));
    }
}

pub proof fn lemma_hex_val_bound(s: Seq<u8>, i: int, j: int)
    requires
        i <= j,
    ensures
        0 <= hex_val(s, i, j) < pow16((j - i) as nat),
    decreases j - i,
{
    lemma_pow10_bounds(((j - i)) as nat);
    if j > i {
        lemma_hex_val_bound(s, i, j - 1);
        lemma_pow10_bounds(((j - 1 - i)) as nat);
        assert(pow16((j - i) as nat) == 16 * pow16((j - 1 - i) as nat));
        assert(0 <= hex_digit_val(s[j - 1]) <= 15);
    }
}

/// A recognized reference is at least two bytes long, lies inside the range
/// and resolves below the code-point ceiling.
pub proof fn lemma_entity_at_len(s: Seq<u8>, lo: int, hi: int)
    requires
        entity_at(s, lo, hi) is Some,
    ensures
        2 <= entity_at(s, lo, hi).unwrap().1,
        lo + entity_at(s, lo, hi).unwrap().1 <= hi,
        0 <= entity_at(s, lo, hi).unwrap().0 <= 0x10FFFF,
{
    if named_entity_at(s, lo, hi) is Some {
    } else {
        if lo + 3 <= hi && s[lo + 1] == 35 {
            if s[lo + 2] == 120 || s[lo + 2] == 88 {
                lemma_digits_end_range(s, lo + 3, hi);
                let de = hex_end(s, lo + 3, hi);
                let z = skip_zeros(s, lo + 3, de);
                lemma_digits_end_range(s, lo + 3, de);
                lemma_hex_val_bound(s, z, de);
            } else {
                lemma_digits_end_range(s, lo + 2, hi);
                let de = digits_end(s, lo + 2, hi);
                let z = skip_zeros(s, lo + 2, de);
                lemma_digits_end_range(s, lo + 2, de);
                assert forall|k: int| z <= k < de implies is_digit(#[trigger] s[k]) by {
                    assert(is_digit(s[k]));
                }
                lemma_dec_val_bound(s, z, de);
            }
        }
    }
}

fn digits_end_exec(buf: &Vec<u8>, i: usize, hi: usize) -> (r: usize)
    requires
        i <= hi,
        hi <= buf.len(),
    ensures
        r as int == digits_end(buf@, i as int, hi as int),
        i <= r <= hi,
{
    let mut j: usize = i;
    while j < hi && 48 <= buf[j] && buf[j] <= 57
        invariant
            i <= j <= hi,
            hi <= buf.len(),
            digits_end(buf@, i as int, hi as int) == digits_end(buf@, j as int, hi as int),
        decreases hi - j,
    {
        j = j + 1;
    }
    j
}

fn hex_end_exec(buf: &Vec<u8>, i: usize, hi: usize) -> (r: usize)
    requires
        i <= hi,
        hi <= buf.len(),
    ensures
        r as int == hex_end(buf@, i as int, hi as int),
        i <= r <= hi,
{
    let mut j: usize = i;
    while j < hi && crate::bytes::byte_is_hex_digit(buf[j])
        invariant
            i <= j <= hi,
            hi <= buf.len(),
            hex_end(buf@, i as int, hi as int) == hex_end(buf@, j as int, hi as int),
        decreases hi - j,
    {
        j = j + 1;
    }
    j
}

fn skip_zeros_exec(buf: &Vec<u8>, i: usize, hi: usize) -> (r: usize)
    requires
        i <= hi,
        hi <= buf.len(),
    ensures
        r as int == skip_zeros(buf@, i as int, hi as int),
        i <= r <= hi,
{
    let mut j: usize = i;
    while j < hi && buf[j] == 48
        invariant
            i <= j <= hi,
            hi <= buf.len(),
            skip_zeros(buf@, i as int, hi as int) == skip_zeros(buf@, j as int, hi as int),
        decreases hi - j,
    {
        j = j + 1;
    }
    j
}

fn dec_val_exec(buf: &Vec<u8>, z: usize, de: usize) -> (r: u32)
    requires
        z <= de,
        de <= buf.len(),
        de - z <= 7,
        forall|k: int| z <= k < de ==> is_digit(#[trigger] buf@[k]),
    ensures
        r as int == dec_val(buf@, z as int, de as int),
{
    let mut v: u32 = 0;
    let mut k: usize = z;
    while k < de
        invariant
            z <= k <= de,
            de <= buf.len(),
            de - z <= 7,
            forall|q: int| z <= q < de ==> is_digit(#[trigger] buf@[q]),
            v as int == dec_val(buf@, z as int, k as int),
        decreases de - k,
    {
        proof {
            lemma_dec_val_bound(buf@, z as int, k as int);
            lemma_pow10_bounds((k - z) as nat);
        }
        v = v * 10 + (buf[k] - 48) as u32;
        k = k + 1;
    }
    v
}

fn hex_val_exec(buf: &Vec<u8>, z: usize, de: usize) -> (r: u32)
    requires
        z <= de,
        de <= buf.len(),
        de - z <= 6,
    ensures
        r as int == hex_val(buf@, z as int, de as int),
{
    let mut v: u32 = 0;
    let mut k: usize = z;
    while k < de
        invariant
            z <= k <= de,
            de <= buf.len(),
            de - z <= 6,
            v as int == hex_val(buf@, z as int, k as int),
        decreases de - k,
    {
        proof {
            lemma_hex_val_bound(buf@, z as int, k as int);
            lemma_pow10_bounds((k - z) as nat);
        }
        let b = buf[k];
        let d: u32 = if 48 <= b && b <= 57 {
            (b - 48) as u32
        } else if 97 <= b && b <= 102 {
            (b - 87) as u32
        } else if 65 <= b && b <= 70 {
            (b - 55) as u32
        } else {
            0
        };
        v = v * 16 + d;
        k = k + 1;
    }
    v
}

/// The recognized entity reference starting at `lo`, if any: code point and
/// consumed length.
pub fn entity_at_exec(buf: &Vec<u8>, lo: usize, hi: usize) -> (r: Option<(u32, usize)>)
    requires
        lo < hi,
        hi <= buf.len(),
    ensures
        match r {
            Option::Some(p) => entity_at(buf@, lo as int, hi as int) == Option::Some(
                (p.0 as int, p.1 as int),
            ),
            Option::None => entity_at(buf@, lo as int, hi as int) is None,
        },
{
    if buf[lo] != 38 {
        return Option::None;
    }
    // named references
    if hi - lo >= 5 && buf[lo + 1] == 97 && buf[lo + 2] == 109 && buf[lo + 3] == 112 && buf[lo
        + 4] == 59 {
        return Option::Some((38, 5));
    }
    if hi - lo >= 4 && buf[lo + 1] == 108 && buf[lo + 2] == 116 && buf[lo + 3] == 59 {
        return Option::Some((60, 4));
    }
    if hi - lo >= 4 && buf[lo + 1] == 103 && buf[lo + 2] == 116 && buf[lo + 3] == 59 {
        return Option::Some((62, 4));
    }
    if hi - lo >= 6 && buf[lo + 1] == 113 && buf[lo + 2] == 117 && buf[lo + 3] == 111 && buf[lo
        + 4] == 116 && buf[lo + 5] == 59 {
        return Option::Some((34, 6));
    }
    if hi - lo >= 6 && buf[lo + 1] == 97 && buf[lo + 2] == 112 && buf[lo + 3] == 111 && buf[lo
        + 4] == 115 && buf[lo + 5] == 59 {
        return Option::Some((39, 6));
    }
    if hi - lo >= 6 && buf[lo + 1] == 110 && buf[lo + 2] == 98 && buf[lo + 3] == 115 && buf[lo
        + 4] == 112 && buf[lo + 5] == 59 {
        return Option::Some((160, 6));
    }
    proof {
        assert(named_entity_at(buf@, lo as int, hi as int) is None);
    }
    // numeric references
    if !(hi - lo >= 3 && buf[lo + 1] == 35) {
        return Option::None;
    }
    if buf[lo + 2] == 120 || buf[lo + 2] == 88 {
        let d0 = lo + 3;
        let de = hex_end_exec(buf, d0, hi);
        if de <= d0 {
            return Option::None;
        }
        let z = skip_zeros_exec(buf, d0, de);
        proof {
            lemma_digits_end_range(buf@, d0 as int, de as int);
        }
        if de - z > 6 {
            return Option::None;
        }
        let v = hex_val_exec(buf, z, de);
        if v > 0x10FFFF {
            return Option::None;
        }
        let l = if de < hi && buf[de] == 59 {
            de - lo + 1
        } else {
            de - lo
        };
        Option::Some((v, l))
    } else {
        let d0 = lo + 2;
        let de = digits_end_exec(buf, d0, hi);
        if de <= d0 {
            return Option::None;
        }
        let z = skip_zeros_exec(buf, d0, de);
        proof {
            lemma_digits_end_range(buf@, d0 as int, de as int);
            lemma_digits_end_range(buf@, d0 as int, hi as int);
        }
        if de - z > 7 {
            return Option::None;
        }
        let v = dec_val_exec(buf, z, de);
        if v > 0x10FFFF {
            return Option::None;
        }
        let l = if de < hi && buf[de] == 59 {
            de - lo + 1
        } else {
            de - lo
        };
        Option::Some((v, l))
    }
}

/// All recognized entity references in `s[i..hi]`, in source order, with
/// their global offsets.
pub open spec fn find_entities(s: Seq<u8>, i: int, hi: int) -> Seq<EntM>
    decreases hi - i when 0 <= i <= hi <= s.len()
{
    if i >= hi {
        Seq::<EntM>::empty()
    } else if s[i] == 38 {
        match entity_at(s, i, hi) {
            Option::Some(p) => {
                let nxt = if 1 <= p.1 && i + p.1 <= hi {
                    i + p.1
                } else {
                    i + 1
                };
                seq![EntM { offset: i, code: p.0 }] + find_entities(s, nxt, hi)
            },
            Option::None => find_entities(s, i + 1, hi),
        }
    } else {
        find_entities(s, i + 1, hi)
    }
}

proof fn lemma_runs_extend(s: Seq<u8>, ext: Seq<u8>, i: int, hi: int)
    requires
        0 <= i <= hi <= s.len(),
    ensures
        digits_end(s + ext, i, hi) == digits_end(s, i, hi),
        hex_end(s + ext, i, hi) == hex_end(s, i, hi),
        skip_zeros(s + ext, i, hi) == skip_zeros(s, i, hi),
    decreases hi - i,
{
    if i < hi {
        lemma_runs_extend(s, ext, i + 1, hi);
    }
}

proof fn lemma_vals_extend(s: Seq<u8>, ext: Seq<u8>, i: int, j: int)
    requires
        0 <= i <= j <= s.len(),
    ensures
        dec_val(s + ext, i, j) == dec_val(s, i, j),
        hex_val(s + ext, i, j) == hex_val(s, i, j),
    decreases j - i,
{
    if j > i {
        lemma_vals_extend(s, ext, i, j - 1);
    }
}

/// Entity recognition inside a fixed window is unchanged when the buffer
/// grows: it reads only `s[lo..hi]`.
pub proof fn lemma_entity_at_extend(s: Seq<u8>, ext: Seq<u8>, lo: int, hi: int)
    requires
        0 <= lo,
        hi <= s.len(),
    ensures
        entity_at(s + ext, lo, hi) == entity_at(s, lo, hi),
{
    if 0 <= lo && lo < hi && s[lo] == 38 {
        assert(named_entity_at(s + ext, lo, hi) == named_entity_at(s, lo, hi));
        if named_entity_at(s, lo, hi) is None {
            if lo + 3 <= hi && s[lo + 1] == 35 {
                if s[lo + 2] == 120 || s[lo + 2] == 88 {
                    lemma_runs_extend(s, ext, lo + 3, hi);
                    let de = hex_end(s, lo + 3, hi);
                    lemma_digits_end_range(s, lo + 3, hi);
                    lemma_runs_extend(s, ext, lo + 3, de);
                    let z = skip_zeros(s, lo + 3, de);
                    lemma_digits_end_range(s, lo + 3, de);
                    lemma_vals_extend(s, ext, z, de);
                } else {
                    lemma_runs_extend(s, ext, lo + 2, hi);
                    let de = digits_end(s, lo + 2, hi);
                    lemma_digits_end_range(s, lo + 2, hi);
                    lemma_runs_extend(s, ext, lo + 2, de);
                    let z = skip_zeros(s, lo + 2, de);
                    lemma_digits_end_range(s, lo + 2, de);
                    lemma_vals_extend(s, ext, z, de);
                }
            }
        }
    }
}

/// Entity scanning inside a fixed window is unchanged when the buffer grows.
pub proof fn lemma_find_entities_extend(s: Seq<u8>, ext: Seq<u8>, i: int, hi: int)
    requires
        0 <= i <= hi <= s.len(),
    ensures
        find_entities(s + ext, i, hi) == find_entities(s, i, hi),
    decreases hi - i,
{
    if i < hi {
        lemma_entity_at_extend(s, ext, i, hi);
        if s[i] == 38 {
            match entity_at(s, i, hi) {
                Option::Some(p) => {
                    let nxt = if 1 <= p.1 && i + p.1 <= hi {
                        i + p.1
                    } else {
                        i + 1
                    };
                    lemma_find_entities_extend(s, ext, nxt, hi);
                },
                Option::None => {
                    lemma_find_entities_extend(s, ext, i + 1, hi);
                },
            }
        } else {
            lemma_find_entities_extend(s, ext, i + 1, hi);
        }
    }
}

/// The model of an entity list.
pub open spec fn ents_view(es: Seq<EntityRef>) -> Seq<EntM> {
    es.map_values(|e: EntityRef| e@)
}

/// Collect all recognized entity references in `buf[lo..hi]`, in source
/// order, with their offsets into `buf`. Entity scanning is advisory: the
/// text bytes themselves are never changed.
pub fn scan_entities(buf: &Vec<u8>, lo: usize, hi: usize) -> (r: Vec<EntityRef>)
    requires
        lo <= hi,
        hi <= buf.len(),
    ensures
        ents_view(r@) == find_entities(buf@, lo as int, hi as int),
{
    let ghost total = find_entities(buf@, lo as int, hi as int);
    let mut r: Vec<EntityRef> = Vec::new();
    let mut i: usize = lo;
    proof {
        assert(ents_view(r@) =~= Seq::<EntM>::empty());
        assert(total == ents_view(r@) + find_entities(buf@, lo as int, hi as int));
    }
    while i < hi
        invariant
            lo <= i <= hi,
            hi <= buf.len(),
            total == find_entities(buf@, lo as int, hi as int),
            total == ents_view(r@) + find_entities(buf@, i as int, hi as int),
        decreases hi - i,
    {
        if buf[i] == 38 {
            match entity_at_exec(buf, i, hi) {
                Option::Some(p) => {
                    proof {
                        lemma_entity_at_len(buf@, i as int, hi as int);
                    }
                    let ghost m_old = ents_view(r@);
                    let ghost rest = find_entities(buf@, i + p.1 as int, hi as int);
                    let e = EntityRef { offset: i, code: p.0 };
                    r.push(e);
                    proof {
                        assert(find_entities(buf@, i as int, hi as int) == seq![
                            EntM { offset: i as int, code: p.0 as int },
                        ] + rest);
                        assert(ents_view(r@) =~= m_old.push(e@));
                        assert(m_old + (seq![e@] + rest) =~= m_old.push(e@) + rest);
                    }
                    i = i + p.1;
                },
                Option::None => {
                    i = i + 1;
                },
            }
        } else {
            i = i + 1;
        }
    }
    proof {
        assert(total =~= ents_view(r@));
    }
    r
}

} // verus!
