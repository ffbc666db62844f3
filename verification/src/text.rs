//! Text/data processing: classification of character-data runs and optional
//! whitespace normalization. Classification is always computed; collapsing
//! is applied only on request and never to whitespace-preserving runs, and
//! never mutates the token stream itself.

use vstd::prelude::*;
use crate::bytes::is_ws;
use crate::config::{Config, ConfigM, name_set_contains};
use crate::entity::{find_entities, scan_entities, ents_view};
use crate::tokens::TextClass;

verus! {

/// Whether every byte of `s[lo..hi]` is whitespace.
pub open spec fn all_ws(s: Seq<u8>, lo: int, hi: int) -> bool {
    forall|k: int| lo <= k < hi ==> is_ws(#[trigger] s[k])
}

/// Classification of the text run `s[lo..hi]` directly inside `enclosing`,
/// the lower-cased innermost open element, if any: preserving elements make
/// it raw-preserve; otherwise whitespace-only, entity-bearing and normal
/// runs are told apart.
pub open spec fn classify(
    s: Seq<u8>,
    lo: int,
    hi: int,
    enclosing: Option<Seq<u8>>,
    cfg: ConfigM,
) -> TextClass {
    if enclosing is Some && cfg.preserves_ws(enclosing.unwrap()) {
        TextClass::RawPreserve
    } else if all_ws(s, lo, hi) {
        TextClass::WhitespaceOnly
    } else if find_entities(s, lo, hi).len() > 0 {
        TextClass::ContainsEntity
    } else {
        TextClass::Normal
    }
}

/// Whether `buf[lo..hi]` is all whitespace.
pub fn range_all_ws(buf: &Vec<u8>, lo: usize, hi: usize) -> (r: bool)
    requires
        lo <= hi,
        hi <= buf.len(),
    ensures
        r == all_ws(buf@, lo as int, hi as int),
{
    let mut k: usize = lo;
    while k < hi
        invariant
            lo <= k <= hi,
            hi <= buf.len(),
            forall|q: int| lo <= q < k ==> is_ws(#[trigger] buf@[q]),
        decreases hi - k,
    {
        if !crate::bytes::byte_is_ws(buf[k]) {
            return false;
        }
        k = k + 1;
    }
    true
}

/// Classify the text run `buf[lo..hi]` given the lower-cased name of the
/// innermost enclosing element, if any.
pub fn classify_text(
    buf: &Vec<u8>,
    lo: usize,
    hi: usize,
    enclosing: Option<&Vec<u8>>,
    cfg: &Config,
) -> (r: TextClass)
    requires
        lo <= hi,
        hi <= buf.len(),
    ensures
        r == classify(
            buf@,
            lo as int,
            hi as int,
            match enclosing {
                Option::Some(e) => Option::Some(e@),
                Option::None => Option::None,
            },
            cfg@,
        ),
{
    match enclosing {
        Option::Some(e) => {
            if name_set_contains(&cfg.raw_text_elements, e) || name_set_contains(
                &cfg.preserve_whitespace_elements,
                e,
            ) {
                return TextClass::RawPreserve;
            }
        },
        Option::None => {},
    }
    if range_all_ws(buf, lo, hi) {
        return TextClass::WhitespaceOnly;
    }
    let es = scan_entities(buf, lo, hi);
    proof {
        assert(ents_view(es@).len() == es@.len());
    }
    if es.len() > 0 {
        TextClass::ContainsEntity
    } else {
        TextClass::Normal
    }
}

/// Whitespace collapse of `s[i..hi]`: `emitted` records whether a word byte
/// has been emitted, `sp` whether a single space is owed before the next
/// word byte. Interior whitespace runs become one space; leading and
/// trailing whitespace disappears.
pub open spec fn collapse_from(s: Seq<u8>, i: int, hi: int, emitted: bool, sp: bool) -> Seq<u8>
    decreases hi - i when 0 <= i <= hi <= s.len()
{
    if i >= hi {
        Seq::<u8>::empty()
    } else if is_ws(s[i]) {
        collapse_from(s, i + 1, hi, emitted, emitted)
    } else {
        (if sp {
            seq![32u8]
        } else {
            Seq::<u8>::empty()
        }) + seq![s[i]] + collapse_from(s, i + 1, hi, true, false)
    }
}

/// The collapsed form of `s[lo..hi]`.
pub open spec fn collapse_ws(s: Seq<u8>, lo: int, hi: int) -> Seq<u8> {
    collapse_from(s, lo, hi, false, false)
}

/// Collapse consecutive whitespace in `buf[lo..hi]` to single spaces and
/// trim the ends.
pub fn collapse_text(buf: &Vec<u8>, lo: usize, hi: usize) -> (r: Vec<u8>)
    requires
        lo <= hi,
        hi <= buf.len(),
    ensures
        r@ == collapse_ws(buf@, lo as int, hi as int),
{
    let ghost total = collapse_ws(buf@, lo as int, hi as int);
    let mut r: Vec<u8> = Vec::new();
    let mut i: usize = lo;
    let mut emitted: bool = false;
    let mut sp: bool = false;
    proof {
        assert(Seq::<u8>::empty() + collapse_from(buf@, lo as int, hi as int, false, false)
            =~= total);
    }
    while i < hi
        invariant
            lo <= i <= hi,
            hi <= buf.len(),
            total == collapse_ws(buf@, lo as int, hi as int),
            total == r@ + collapse_from(buf@, i as int, hi as int, emitted, sp),
        decreases hi - i,
    {
        let b = buf[i];
        if crate::bytes::byte_is_ws(b) {
            sp = emitted;
        } else {
            let ghost r_old = r@;
            let ghost rest = collapse_from(buf@, i + 1, hi as int, true, false);
            if sp {
                r.push(32);
            }
            r.push(b);
            proof {
                if sp {
                    assert(r@ =~= r_old.push(32u8).push(b));
                    assert(r_old + (seq![32u8] + seq![b] + rest) =~= r_old.push(32u8).push(b)
                        + rest);
                } else {
                    assert(r@ =~= r_old.push(b));
                    assert(r_old + (Seq::<u8>::empty() + seq![b] + rest) =~= r_old.push(b)
                        + rest);
                }
            }
            emitted = true;
            sp = false;
        }
        i = i + 1;
    }
    proof {
        assert(total =~= r@);
    }
    r
}

/// Apply whitespace normalization to a classified text run only when it is
/// requested and the run is not whitespace-preserving; a raw-preserve run is
/// returned untouched (`None`) even when collapse is requested globally.
pub fn normalize_text_run(
    buf: &Vec<u8>,
    lo: usize,
    hi: usize,
    class: TextClass,
    normalize: bool,
) -> (r: Option<Vec<u8>>)
    requires
        lo <= hi,
        hi <= buf.len(),
    ensures
        (normalize && class != TextClass::RawPreserve) ==> (r is Some && r.unwrap()@
            == collapse_ws(buf@, lo as int, hi as int)),
        !(normalize && class != TextClass::RawPreserve) ==> r is None,
{
    if normalize && !(class == TextClass::RawPreserve) {
        Option::Some(collapse_text(buf, lo, hi))
    } else {
        Option::None
    }
}

} // verus!
