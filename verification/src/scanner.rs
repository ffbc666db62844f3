//! The scan loop: a single-pass, resumable, lenient tokenizer over an input
//! buffer. Input may arrive as one buffer or as ordered chunks; a buffer
//! ending mid-token suspends the scan ("need more input") instead of
//! emitting a malformed token, and the token stream of a chunked scan is
//! exactly that of a one-shot scan of the concatenated input.

use vstd::prelude::*;
use crate::bytes::{is_alpha, lower, to_lower};
use crate::config::ConfigM;
use crate::entity::{find_entities, lemma_find_entities_extend};
use crate::text::{classify, all_ws};
use crate::tokens::{
    TextClass, TokenM, TextM, EndTagM, SpanM, DiagM, DiagKind, Token, TextRun, EndTag, Span,
    Diagnostic, EntityRef, tokens_view, diags_view,
};
use crate::config::Config;
use crate::starttag::{
    parse_tag_model, end_tag_name_model, name_end, lemma_parse_tag_extend, lemma_tagscan_ranges,
    lemma_tagscan_extend,
};

verus! {

/// First index `>= i` holding byte `b`, or `s.len()`.
pub open spec fn find_byte_from(s: Seq<u8>, i: int, b: u8) -> int
    decreases s.len() - i when 0 <= i <= s.len()
{
    if i >= s.len() {
        i
    } else if s[i] == b {
        i
    } else {
        find_byte_from(s, i + 1, b)
    }
}

/// First unquoted `>` at or after `i`, or `s.len()`; `q` is the open quote
/// byte (`0` for none). A `>` inside a quoted attribute value never ends a
/// tag.
pub open spec fn tag_end_from(s: Seq<u8>, i: int, q: u8) -> int
    decreases s.len() - i when 0 <= i <= s.len()
{
    if i >= s.len() {
        i
    } else if q == 0 {
        if s[i] == 62 {
            i
        } else if s[i] == 34 {
            tag_end_from(s, i + 1, 34)
        } else if s[i] == 39 {
            tag_end_from(s, i + 1, 39)
        } else {
            tag_end_from(s, i + 1, 0)
        }
    } else if s[i] == q {
        tag_end_from(s, i + 1, 0)
    } else {
        tag_end_from(s, i + 1, q)
    }
}

/// First index `>= i` where the three bytes `a b c` occur, or `s.len()`.
pub open spec fn find_seq3(s: Seq<u8>, i: int, a: u8, b: u8, c: u8) -> int
    decreases s.len() - i when 0 <= i <= s.len()
{
    if i + 3 > s.len() {
        s.len() as int
    } else if s[i] == a && s[i + 1] == b && s[i + 2] == c {
        i
    } else {
        find_seq3(s, i + 1, a, b, c)
    }
}

/// Whether the literal end tag `</name` (ASCII case-insensitive) starts at
/// `k`; `name` is lower-cased.
pub open spec fn end_tag_at(s: Seq<u8>, k: int, name: Seq<u8>) -> bool {
    &&& 0 <= k
    &&& k + 2 + name.len() <= s.len()
    &&& s[k] == 60
    &&& s[k + 1] == 47
    &&& lower(s.subrange(k + 2, k + 2 + name.len())) == name
}

/// First index `>= i` where the literal matching end tag starts, or
/// `s.len()`.
pub open spec fn find_end_tag(s: Seq<u8>, i: int, name: Seq<u8>) -> int
    decreases s.len() - i when 0 <= i <= s.len()
{
    if i >= s.len() {
        i
    } else if end_tag_at(s, i, name) {
        i
    } else {
        find_end_tag(s, i + 1, name)
    }
}

pub proof fn lemma_find_byte_props(s: Seq<u8>, i: int, b: u8)
    requires
        0 <= i <= s.len(),
    ensures
        i <= find_byte_from(s, i, b) <= s.len(),
        find_byte_from(s, i, b) < s.len() ==> s[find_byte_from(s, i, b)] == b,
        forall|k: int| i <= k < find_byte_from(s, i, b) ==> s[k] != b,
    decreases s.len() - i,
{
    if i < s.len() && s[i] != b {
        lemma_find_byte_props(s, i + 1, b);
    }
}

pub proof fn lemma_tag_end_props(s: Seq<u8>, i: int, q: u8)
    requires
        0 <= i <= s.len(),
    ensures
        i <= tag_end_from(s, i, q) <= s.len(),
        tag_end_from(s, i, q) < s.len() ==> s[tag_end_from(s, i, q)] == 62,
    decreases s.len() - i,
{
    if i < s.len() {
        lemma_tag_end_props(s, i + 1, 0);
        lemma_tag_end_props(s, i + 1, 34);
        lemma_tag_end_props(s, i + 1, 39);
        lemma_tag_end_props(s, i + 1, q);
    }
}

pub proof fn lemma_find_seq3_props(s: Seq<u8>, i: int, a: u8, b: u8, c: u8)
    requires
        0 <= i <= s.len(),
    ensures
        i <= find_seq3(s, i, a, b, c) <= s.len(),
        find_seq3(s, i, a, b, c) < s.len() ==> {
            let j = find_seq3(s, i, a, b, c);
            j + 3 <= s.len() && s[j] == a && s[j + 1] == b && s[j + 2] == c
        },
    decreases s.len() - i,
{
    if i + 3 <= s.len() && !(s[i] == a && s[i + 1] == b && s[i + 2] == c) {
        lemma_find_seq3_props(s, i + 1, a, b, c);
    }
}

/// The raw-text end finder returns the first matching end tag: nothing in
/// front of it, `<` or not, opens a tag.
pub proof fn lemma_find_end_tag_props(s: Seq<u8>, i: int, name: Seq<u8>)
    requires
        0 <= i <= s.len(),
    ensures
        i <= find_end_tag(s, i, name) <= s.len(),
        find_end_tag(s, i, name) < s.len() ==> end_tag_at(s, find_end_tag(s, i, name), name),
        forall|k: int| i <= k < find_end_tag(s, i, name) ==> !end_tag_at(s, k, name),
    decreases s.len() - i,
{
    if i < s.len() && !end_tag_at(s, i, name) {
        lemma_find_end_tag_props(s, i + 1, name);
    }
}

/// The suspended state of a scan: cursor, raw-text mode (the lower-cased
/// element name whose literal end tag is awaited) and the open-element
/// stack (lower-cased names, innermost last).
pub ghost struct ScanStM {
    pub pos: int,
    pub raw: Option<Seq<u8>>,
    pub stack: Seq<Seq<u8>>,
}

/// The state a scan starts in.
pub open spec fn init_st() -> ScanStM {
    ScanStM { pos: 0, raw: Option::None, stack: Seq::<Seq<u8>>::empty() }
}

/// One attempt to scan a token: either a complete token (or a bare raw-text
/// mode exit) with the successor state, or "need more input".
pub ghost enum StepM {
    Complete { toks: Seq<TokenM>, diags: Seq<DiagM>, st: ScanStM },
    Incomplete,
}

/// The innermost open element, if any.
pub open spec fn stack_top(stack: Seq<Seq<u8>>) -> Option<Seq<u8>> {
    if stack.len() > 0 {
        Option::Some(stack.last())
    } else {
        Option::None
    }
}

/// Pop the innermost open element when the end tag matches it; a stray end
/// tag leaves the stack alone.
pub open spec fn pop_matching(stack: Seq<Seq<u8>>, lname: Seq<u8>) -> Seq<Seq<u8>> {
    if stack.len() > 0 && stack.last() == lname {
        stack.drop_last()
    } else {
        stack
    }
}

/// The text token for `s[i..j]`: classified against the innermost open
/// element, with its recognized entity references; bytes are never altered.
pub open spec fn text_token(
    s: Seq<u8>,
    i: int,
    j: int,
    stack: Seq<Seq<u8>>,
    cfg: ConfigM,
) -> TokenM {
    TokenM::Text(
        TextM {
            span: SpanM { start: i, end: j },
            class: classify(s, i, j, stack_top(stack), cfg),
            entities: find_entities(s, i, j),
        },
    )
}

/// Whether the CDATA marker `[CDATA[` follows `<!` at `i`.
pub open spec fn is_cdata_marker(s: Seq<u8>, i: int) -> bool {
    &&& i + 9 <= s.len()
    &&& s[i + 2] == 91
    &&& s[i + 3] == 67
    &&& s[i + 4] == 68
    &&& s[i + 5] == 65
    &&& s[i + 6] == 84
    &&& s[i + 7] == 65
    &&& s[i + 8] == 91
}

/// Whether the bytes available so far are consistent with a CDATA marker
/// continuing beyond the end of the buffer.
pub open spec fn cdata_prefix(s: Seq<u8>, i: int) -> bool {
    &&& (i + 3 < s.len() ==> s[i + 3] == 67)
    &&& (i + 4 < s.len() ==> s[i + 4] == 68)
    &&& (i + 5 < s.len() ==> s[i + 5] == 65)
    &&& (i + 6 < s.len() ==> s[i + 6] == 84)
    &&& (i + 7 < s.len() ==> s[i + 7] == 65)
    &&& (i + 8 < s.len() ==> s[i + 8] == 91)
}

/// Whether the declaration token spanning `i..j` is a doctype: the seven
/// bytes after `<!` spell `doctype` case-insensitively.
pub open spec fn is_doctype(s: Seq<u8>, i: int, j: int) -> bool {
    &&& j >= i + 9
    &&& to_lower(s[i + 2]) == 100
    &&& to_lower(s[i + 3]) == 111
    &&& to_lower(s[i + 4]) == 99
    &&& to_lower(s[i + 5]) == 116
    &&& to_lower(s[i + 6]) == 121
    &&& to_lower(s[i + 7]) == 112
    &&& to_lower(s[i + 8]) == 101
}

/// One scan step assuming more input may follow: a token is completed only
/// when its terminator is present in the buffer; otherwise the scan
/// suspends rather than emit a malformed token.
pub open spec fn scan_step(s: Seq<u8>, cfg: ConfigM, st: ScanStM) -> StepM {
    let i = st.pos;
    if i >= s.len() {
        StepM::Incomplete
    } else if st.raw is Some {
        let name = st.raw.unwrap();
        let m = find_end_tag(s, i, name);
        if m < s.len() {
            StepM::Complete {
                toks: if m > i {
                    seq![
                        TokenM::Text(
                            TextM {
                                span: SpanM { start: i, end: m },
                                class: TextClass::RawPreserve,
                                entities: Seq::<crate::tokens::EntM>::empty(),
                            },
                        ),
                    ]
                } else {
                    Seq::<TokenM>::empty()
                },
                diags: Seq::<DiagM>::empty(),
                st: ScanStM { pos: m, raw: Option::None, stack: st.stack },
            }
        } else {
            StepM::Incomplete
        }
    } else if s[i] != 60 {
        let j = find_byte_from(s, i, 60);
        if j < s.len() {
            StepM::Complete {
                toks: seq![text_token(s, i, j, st.stack, cfg)],
                diags: Seq::<DiagM>::empty(),
                st: ScanStM { pos: j, raw: Option::None, stack: st.stack },
            }
        } else {
            StepM::Incomplete
        }
    } else if i + 1 >= s.len() {
        StepM::Incomplete
    } else {
        let b = s[i + 1];
        if is_alpha(b) {
            let j = tag_end_from(s, i + 1, 0);
            if j < s.len() {
                let tp = parse_tag_model(s, i + 1, j, cfg, i, j + 1);
                let lname = lower(s.subrange(i + 1, name_end(s, i + 1, j)));
                StepM::Complete {
                    toks: seq![TokenM::StartTag(tp.tag)],
                    diags: tp.diags,
                    st: ScanStM {
                        pos: j + 1,
                        raw: if tp.tag.raw_text && !tp.tag.self_closing {
                            Option::Some(lname)
                        } else {
                            Option::None
                        },
                        stack: if tp.tag.self_closing {
                            st.stack
                        } else {
                            st.stack.push(lname)
                        },
                    },
                }
            } else {
                StepM::Incomplete
            }
        } else if b == 47 {
            let j = find_byte_from(s, i + 2, 62);
            if j < s.len() {
                let lname = lower(s.subrange(i + 2, name_end(s, i + 2, j)));
                StepM::Complete {
                    toks: seq![
                        TokenM::EndTag(
                            EndTagM {
                                name: end_tag_name_model(s, i + 2, j, cfg),
                                span: SpanM { start: i, end: j + 1 },
                            },
                        ),
                    ],
                    diags: Seq::<DiagM>::empty(),
                    st: ScanStM {
                        pos: j + 1,
                        raw: Option::None,
                        stack: pop_matching(st.stack, lname),
                    },
                }
            } else {
                StepM::Incomplete
            }
        } else if b == 33 {
            if i + 2 >= s.len() {
                StepM::Incomplete
            } else if s[i + 2] == 45 {
                if i + 3 >= s.len() {
                    StepM::Incomplete
                } else if s[i + 3] == 45 {
                    let j = find_seq3(s, i + 4, 45, 45, 62);
                    if j < s.len() {
                        StepM::Complete {
                            toks: seq![TokenM::Comment(SpanM { start: i, end: j + 3 })],
                            diags: Seq::<DiagM>::empty(),
                            st: ScanStM { pos: j + 3, raw: Option::None, stack: st.stack },
                        }
                    } else {
                        StepM::Incomplete
                    }
                } else {
                    let j = find_byte_from(s, i + 2, 62);
                    if j < s.len() {
                        StepM::Complete {
                            toks: seq![TokenM::Declaration(SpanM { start: i, end: j + 1 })],
                            diags: Seq::<DiagM>::empty(),
                            st: ScanStM { pos: j + 1, raw: Option::None, stack: st.stack },
                        }
                    } else {
                        StepM::Incomplete
                    }
                }
            } else if s[i + 2] == 91 {
                if is_cdata_marker(s, i) {
                    let j = find_seq3(s, i + 9, 93, 93, 62);
                    if j < s.len() {
                        StepM::Complete {
                            toks: seq![TokenM::CData(SpanM { start: i, end: j + 3 })],
                            diags: Seq::<DiagM>::empty(),
                            st: ScanStM { pos: j + 3, raw: Option::None, stack: st.stack },
                        }
                    } else {
                        StepM::Incomplete
                    }
                } else if i + 9 > s.len() && cdata_prefix(s, i) {
                    StepM::Incomplete
                } else {
                    let j = find_byte_from(s, i + 2, 62);
                    if j < s.len() {
                        StepM::Complete {
                            toks: seq![TokenM::Declaration(SpanM { start: i, end: j + 1 })],
                            diags: Seq::<DiagM>::empty(),
                            st: ScanStM { pos: j + 1, raw: Option::None, stack: st.stack },
                        }
                    } else {
                        StepM::Incomplete
                    }
                }
            } else {
                let j = find_byte_from(s, i + 2, 62);
                if j < s.len() {
                    StepM::Complete {
                        toks: if is_doctype(s, i, j) {
                            seq![TokenM::Doctype(SpanM { start: i, end: j + 1 })]
                        } else {
                            seq![TokenM::Declaration(SpanM { start: i, end: j + 1 })]
                        },
                        diags: Seq::<DiagM>::empty(),
                        st: ScanStM { pos: j + 1, raw: Option::None, stack: st.stack },
                    }
                } else {
                    StepM::Incomplete
                }
            }
        } else if b == 63 {
            let j = find_byte_from(s, i + 2, 62);
            if j < s.len() {
                StepM::Complete {
                    toks: seq![TokenM::ProcessingInstruction(SpanM { start: i, end: j + 1 })],
                    diags: Seq::<DiagM>::empty(),
                    st: ScanStM { pos: j + 1, raw: Option::None, stack: st.stack },
                }
            } else {
                StepM::Incomplete
            }
        } else {
            // a bare `<` forming no construct: literal text, with a
            // diagnostic, never a failure
            let j = find_byte_from(s, i + 1, 60);
            if j < s.len() {
                StepM::Complete {
                    toks: seq![text_token(s, i, j, st.stack, cfg)],
                    diags: seq![DiagM { kind: DiagKind::MalformedTag, offset: i }],
                    st: ScanStM { pos: j, raw: Option::None, stack: st.stack },
                }
            } else {
                StepM::Incomplete
            }
        }
    }
}

/// A completed step advances: the cursor moves forward, or raw-text mode is
/// left with the cursor in place; the cursor stays within the buffer.
pub proof fn lemma_scan_step_progress(s: Seq<u8>, cfg: ConfigM, st: ScanStM)
    requires
        0 <= st.pos <= s.len(),
        scan_step(s, cfg, st) is Complete,
    ensures
        match scan_step(s, cfg, st) {
            StepM::Complete { toks, diags, st: st2 } => {
                &&& st.pos <= st2.pos <= s.len()
                &&& (st2.pos == st.pos ==> st.raw is Some && st2.raw is None)
            },
            StepM::Incomplete => false,
        },
{
    let i = st.pos;
    if st.raw is Some {
        lemma_find_end_tag_props(s, i, st.raw.unwrap());
    } else if s[i] != 60 {
        lemma_find_byte_props(s, i, 60);
    } else if i + 1 < s.len() {
        let b = s[i + 1];
        if is_alpha(b) {
            lemma_tag_end_props(s, i + 1, 0);
        } else if b == 47 {
            lemma_find_byte_props(s, i + 2, 62);
        } else if b == 33 {
            if i + 2 < s.len() {
                if s[i + 2] == 45 {
                    if i + 3 < s.len() && s[i + 3] == 45 {
                        lemma_find_seq3_props(s, i + 4, 45, 45, 62);
                    } else {
                        lemma_find_byte_props(s, i + 2, 62);
                    }
                } else if s[i + 2] == 91 {
                    if is_cdata_marker(s, i) {
                        lemma_find_seq3_props(s, i + 9, 93, 93, 62);
                    } else {
                        lemma_find_byte_props(s, i + 2, 62);
                    }
                } else {
                    lemma_find_byte_props(s, i + 2, 62);
                }
            }
        } else if b == 63 {
            lemma_find_byte_props(s, i + 2, 62);
        } else {
            lemma_find_byte_props(s, i + 1, 60);
        }
    }
}

/// Tokens, diagnostics and final state of repeatedly scanning until the
/// buffer ends or a partial token suspends the scan.
pub ghost struct ScanRes {
    pub toks: Seq<TokenM>,
    pub diags: Seq<DiagM>,
    pub st: ScanStM,
}

pub open spec fn scan_more(s: Seq<u8>, cfg: ConfigM, st: ScanStM) -> ScanRes
    decreases
            s.len() - st.pos,
            (if st.raw is Some {
                1int
            } else {
                0int
            }),
    when 0 <= st.pos <= s.len()
    via scan_more_decreases
{
    match scan_step(s, cfg, st) {
        StepM::Incomplete => ScanRes {
            toks: Seq::<TokenM>::empty(),
            diags: Seq::<DiagM>::empty(),
            st: st,
        },
        StepM::Complete { toks, diags, st: st2 } => {
            let rest = scan_more(s, cfg, st2);
            ScanRes { toks: toks + rest.toks, diags: diags + rest.diags, st: rest.st }
        },
    }
}

#[via_fn]
proof fn scan_more_decreases(s: Seq<u8>, cfg: ConfigM, st: ScanStM) {
    if scan_step(s, cfg, st) is Complete {
        lemma_scan_step_progress(s, cfg, st);
    }
}

/// A scan that stopped stopped on a suspension: nothing more can be taken
/// from the buffer without more input.
pub proof fn lemma_scan_more_drained(s: Seq<u8>, cfg: ConfigM, st: ScanStM)
    requires
        0 <= st.pos <= s.len(),
    ensures
        scan_step(s, cfg, scan_more(s, cfg, st).st) is Incomplete,
        0 <= scan_more(s, cfg, st).st.pos <= s.len(),
    decreases s.len() - st.pos, (if st.raw is Some { 1int } else { 0int }),
{
    match scan_step(s, cfg, st) {
        StepM::Incomplete => {},
        StepM::Complete { toks, diags, st: st2 } => {
            lemma_scan_step_progress(s, cfg, st);
            lemma_scan_more_drained(s, cfg, st2);
        },
    }
}

/// The best-effort tokens and diagnostics for a suspended partial token
/// when no more input will come: every unterminated construct yields a
/// token covering the rest of the buffer plus a diagnostic; a scan never
/// fails, whatever the input.
pub ghost struct FinishM {
    pub toks: Seq<TokenM>,
    pub diags: Seq<DiagM>,
}

pub open spec fn finish_step(s: Seq<u8>, cfg: ConfigM, st: ScanStM) -> FinishM
    recommends
        0 <= st.pos <= s.len(),
{
    let i = st.pos;
    let n = s.len() as int;
    if i >= n {
        FinishM { toks: Seq::<TokenM>::empty(), diags: Seq::<DiagM>::empty() }
    } else if st.raw is Some {
        FinishM {
            toks: seq![
                TokenM::Text(
                    TextM {
                        span: SpanM { start: i, end: n },
                        class: TextClass::RawPreserve,
                        entities: Seq::<crate::tokens::EntM>::empty(),
                    },
                ),
            ],
            diags: seq![DiagM { kind: DiagKind::UnterminatedRawText, offset: i }],
        }
    } else if s[i] != 60 {
        FinishM {
            toks: seq![text_token(s, i, n, st.stack, cfg)],
            diags: Seq::<DiagM>::empty(),
        }
    } else if i + 1 >= n {
        FinishM {
            toks: seq![text_token(s, i, n, st.stack, cfg)],
            diags: seq![DiagM { kind: DiagKind::MalformedTag, offset: i }],
        }
    } else {
        let b = s[i + 1];
        if is_alpha(b) {
            let tp = parse_tag_model(s, i + 1, n, cfg, i, n);
            FinishM {
                toks: seq![TokenM::StartTag(tp.tag)],
                diags: seq![DiagM { kind: DiagKind::MalformedTag, offset: i }] + tp.diags,
            }
        } else if b == 47 {
            FinishM {
                toks: seq![
                    TokenM::EndTag(
                        EndTagM {
                            name: end_tag_name_model(s, i + 2, n, cfg),
                            span: SpanM { start: i, end: n },
                        },
                    ),
                ],
                diags: seq![DiagM { kind: DiagKind::MalformedTag, offset: i }],
            }
        } else if b == 33 {
            if i + 3 < n && s[i + 2] == 45 && s[i + 3] == 45 {
                FinishM {
                    toks: seq![TokenM::Comment(SpanM { start: i, end: n })],
                    diags: seq![DiagM { kind: DiagKind::UnterminatedComment, offset: i }],
                }
            } else if is_cdata_marker(s, i) {
                FinishM {
                    toks: seq![TokenM::CData(SpanM { start: i, end: n })],
                    diags: seq![DiagM { kind: DiagKind::MalformedTag, offset: i }],
                }
            } else {
                FinishM {
                    toks: if is_doctype(s, i, n) {
                        seq![TokenM::Doctype(SpanM { start: i, end: n })]
                    } else {
                        seq![TokenM::Declaration(SpanM { start: i, end: n })]
                    },
                    diags: seq![DiagM { kind: DiagKind::MalformedTag, offset: i }],
                }
            }
        } else if b == 63 {
            FinishM {
                toks: seq![TokenM::ProcessingInstruction(SpanM { start: i, end: n })],
                diags: seq![DiagM { kind: DiagKind::MalformedTag, offset: i }],
            }
        } else {
            FinishM {
                toks: seq![text_token(s, i, n, st.stack, cfg)],
                diags: seq![DiagM { kind: DiagKind::MalformedTag, offset: i }],
            }
        }
    }
}

/// The full token stream and diagnostics of scanning `s` to its end: the
/// tokens of the suspended scan plus the best-effort completion. This is a
/// function of the input bytes and the configuration alone, so any split of
/// the input into chunks yields the same output.
pub ghost struct ScanOut {
    pub toks: Seq<TokenM>,
    pub diags: Seq<DiagM>,
}

pub open spec fn scan_model(s: Seq<u8>, cfg: ConfigM) -> ScanOut {
    let m = scan_more(s, cfg, init_st());
    let f = finish_step(s, cfg, m.st);
    ScanOut { toks: m.toks + f.toks, diags: m.diags + f.diags }
}

proof fn lemma_find_byte_extend(s: Seq<u8>, ext: Seq<u8>, i: int, b: u8)
    requires
        0 <= i <= s.len(),
        find_byte_from(s, i, b) < s.len(),
    ensures
        find_byte_from(s + ext, i, b) == find_byte_from(s, i, b),
    decreases s.len() - i,
{
    if s[i] != b {
        lemma_find_byte_extend(s, ext, i + 1, b);
    }
}

proof fn lemma_tag_end_extend(s: Seq<u8>, ext: Seq<u8>, i: int, q: u8)
    requires
        0 <= i <= s.len(),
        tag_end_from(s, i, q) < s.len(),
    ensures
        tag_end_from(s + ext, i, q) == tag_end_from(s, i, q),
    decreases s.len() - i,
{
    if i < s.len() {
        if q == 0 {
            if s[i] == 62 {
            } else if s[i] == 34 {
                lemma_tag_end_extend(s, ext, i + 1, 34);
            } else if s[i] == 39 {
                lemma_tag_end_extend(s, ext, i + 1, 39);
            } else {
                lemma_tag_end_extend(s, ext, i + 1, 0);
            }
        } else if s[i] == q {
            lemma_tag_end_extend(s, ext, i + 1, 0);
        } else {
            lemma_tag_end_extend(s, ext, i + 1, q);
        }
    }
}

proof fn lemma_find_seq3_extend(s: Seq<u8>, ext: Seq<u8>, i: int, a: u8, b: u8, c: u8)
    requires
        0 <= i <= s.len(),
        find_seq3(s, i, a, b, c) < s.len(),
    ensures
        find_seq3(s + ext, i, a, b, c) == find_seq3(s, i, a, b, c),
    decreases s.len() - i,
{
    lemma_find_seq3_props(s, i, a, b, c);
    if i + 3 <= s.len() && !(s[i] == a && s[i + 1] == b && s[i + 2] == c) {
        lemma_find_seq3_extend(s, ext, i + 1, a, b, c);
    }
}

proof fn lemma_find_end_tag_extend(s: Seq<u8>, ext: Seq<u8>, i: int, name: Seq<u8>)
    requires
        0 <= i <= s.len(),
        find_end_tag(s, i, name) < s.len(),
    ensures
        find_end_tag(s + ext, i, name) == find_end_tag(s, i, name),
    decreases s.len() - i,
{
    lemma_find_end_tag_props(s, i, name);
    let t = s + ext;
    if end_tag_at(s, i, name) {
        assert(t.subrange(i + 2, i + 2 + name.len() as int) =~= s.subrange(
            i + 2,
            i + 2 + name.len() as int,
        ));
        assert(end_tag_at(t, i, name));
    } else {
        let r = find_end_tag(s, i, name);
        assert(end_tag_at(s, r, name));
        assert(i + 2 + name.len() <= s.len());
        assert(t.subrange(i + 2, i + 2 + name.len() as int) =~= s.subrange(
            i + 2,
            i + 2 + name.len() as int,
        ));
        assert(!end_tag_at(t, i, name));
        lemma_find_end_tag_extend(s, ext, i + 1, name);
    }
}

proof fn lemma_text_token_extend(
    s: Seq<u8>,
    ext: Seq<u8>,
    i: int,
    j: int,
    stack: Seq<Seq<u8>>,
    cfg: ConfigM,
)
    requires
        0 <= i <= j <= s.len(),
    ensures
        text_token(s + ext, i, j, stack, cfg) == text_token(s, i, j, stack, cfg),
{
    lemma_find_entities_extend(s, ext, i, j);
    let t = s + ext;
    assert(all_ws(t, i, j) == all_ws(s, i, j)) by {
        if all_ws(s, i, j) {
            assert forall|k: int| i <= k < j implies crate::bytes::is_ws(#[trigger] t[k]) by {
                assert(crate::bytes::is_ws(s[k]));
            }
        }
        if all_ws(t, i, j) {
            assert forall|k: int| i <= k < j implies crate::bytes::is_ws(#[trigger] s[k]) by {
                assert(crate::bytes::is_ws(t[k]));
            }
        }
    }
}

/// A token completed within a buffer is unchanged by further input: the
/// step's decision and emitted token depend only on the consumed bytes and
/// the found terminator.
#[verifier::rlimit(80)]
pub proof fn lemma_scan_step_extend(s: Seq<u8>, ext: Seq<u8>, cfg: ConfigM, st: ScanStM)
    requires
        0 <= st.pos <= s.len(),
        scan_step(s, cfg, st) is Complete,
    ensures
        scan_step(s + ext, cfg, st) == scan_step(s, cfg, st),
{
    let i = st.pos;
    let t = s + ext;
    if st.raw is Some {
        lemma_find_end_tag_props(s, i, st.raw.unwrap());
        lemma_find_end_tag_extend(s, ext, i, st.raw.unwrap());
    } else if s[i] != 60 {
        lemma_find_byte_props(s, i, 60);
        lemma_find_byte_extend(s, ext, i, 60);
        let j = find_byte_from(s, i, 60);
        lemma_text_token_extend(s, ext, i, j, st.stack, cfg);
    } else {
        let b = s[i + 1];
        if is_alpha(b) {
            lemma_tag_end_props(s, i + 1, 0);
            lemma_tag_end_extend(s, ext, i + 1, 0);
            let j = tag_end_from(s, i + 1, 0);
            lemma_parse_tag_extend(s, ext, i + 1, j, cfg, i, j + 1);
            lemma_tagscan_extend(s, ext, i + 1, j, 34);
            lemma_tagscan_ranges(s, i + 1, j, 34);
            let ne = name_end(s, i + 1, j);
            assert(t.subrange(i + 1, ne) =~= s.subrange(i + 1, ne));
        } else if b == 47 {
            lemma_find_byte_props(s, i + 2, 62);
            lemma_find_byte_extend(s, ext, i + 2, 62);
            let j = find_byte_from(s, i + 2, 62);
            lemma_parse_tag_extend(s, ext, i + 2, j, cfg, i, j + 1);
            lemma_tagscan_extend(s, ext, i + 2, j, 34);
            lemma_tagscan_ranges(s, i + 2, j, 34);
            let ne = name_end(s, i + 2, j);
            assert(t.subrange(i + 2, ne) =~= s.subrange(i + 2, ne));
        } else if b == 33 {
            if s[i + 2] == 45 {
                if i + 3 < s.len() && s[i + 3] == 45 {
                    lemma_find_seq3_props(s, i + 4, 45, 45, 62);
                    lemma_find_seq3_extend(s, ext, i + 4, 45, 45, 62);
                } else {
                    lemma_find_byte_props(s, i + 2, 62);
                    lemma_find_byte_extend(s, ext, i + 2, 62);
                }
            } else if s[i + 2] == 91 {
                if is_cdata_marker(s, i) {
                    assert(is_cdata_marker(t, i));
                    lemma_find_seq3_props(s, i + 9, 93, 93, 62);
                    lemma_find_seq3_extend(s, ext, i + 9, 93, 93, 62);
                } else {
                    assert(!(i + 9 > s.len() && cdata_prefix(s, i)));
                    assert(!is_cdata_marker(t, i) && !(i + 9 > t.len() && cdata_prefix(t, i)))
                        by {
                        if i + 9 <= s.len() {
                            assert(!is_cdata_marker(t, i));
                        } else {
                            assert(!cdata_prefix(s, i));
                            assert(!cdata_prefix(t, i));
                            assert(!is_cdata_marker(t, i));
                        }
                    }
                    lemma_find_byte_props(s, i + 2, 62);
                    lemma_find_byte_extend(s, ext, i + 2, 62);
                }
            } else {
                lemma_find_byte_props(s, i + 2, 62);
                lemma_find_byte_extend(s, ext, i + 2, 62);
                let j = find_byte_from(s, i + 2, 62);
                assert(is_doctype(t, i, j) == is_doctype(s, i, j));
            }
        } else if b == 63 {
            lemma_find_byte_props(s, i + 2, 62);
            lemma_find_byte_extend(s, ext, i + 2, 62);
        } else {
            lemma_find_byte_props(s, i + 1, 60);
            lemma_find_byte_extend(s, ext, i + 1, 60);
            let j = find_byte_from(s, i + 1, 60);
            lemma_text_token_extend(s, ext, i, j, st.stack, cfg);
        }
    }
}

/// Chunk-boundary equivalence: scanning the extended buffer first yields
/// everything the shorter buffer yielded, then continues from the suspended
/// state. Together with `scan_model` being a function of the whole input,
/// this makes a chunked scan emit exactly the token stream of a one-shot
/// scan of the concatenated input, wherever the input is split.
pub proof fn lemma_scan_more_extend(s: Seq<u8>, ext: Seq<u8>, cfg: ConfigM, st: ScanStM)
    requires
        0 <= st.pos <= s.len(),
    ensures
        scan_more(s + ext, cfg, st) == ({
            let m1 = scan_more(s, cfg, st);
            let m2 = scan_more(s + ext, cfg, m1.st);
            ScanRes { toks: m1.toks + m2.toks, diags: m1.diags + m2.diags, st: m2.st }
        }),
    decreases s.len() - st.pos, (if st.raw is Some { 1int } else { 0int }),
{
    match scan_step(s, cfg, st) {
        StepM::Incomplete => {
            let m2 = scan_more(s + ext, cfg, st);
            assert(Seq::<TokenM>::empty() + m2.toks =~= m2.toks);
            assert(Seq::<DiagM>::empty() + m2.diags =~= m2.diags);
        },
        StepM::Complete { toks, diags, st: st2 } => {
            lemma_scan_step_progress(s, cfg, st);
            lemma_scan_step_extend(s, ext, cfg, st);
            lemma_scan_more_extend(s, ext, cfg, st2);
            let r1 = scan_more(s, cfg, st2);
            let r2 = scan_more(s + ext, cfg, r1.st);
            assert(toks + (r1.toks + r2.toks) =~= (toks + r1.toks) + r2.toks);
            assert(diags + (r1.diags + r2.diags) =~= (diags + r1.diags) + r2.diags);
        },
    }
}

/// Tokenizing a buffer in one call and tokenizing it split at any boundary
/// produce identical token streams: a fresh scan of the concatenation first
/// emits exactly what the first chunk alone emits, then continues from the
/// suspended state the first chunk left behind. As the completed output
/// `scan_model(a + b, cfg)` is a function of the concatenation alone, every
/// further split of either chunk yields the same streams again.
pub proof fn lemma_chunk_boundary_equivalence(a: Seq<u8>, b: Seq<u8>, cfg: ConfigM)
    ensures
        scan_more(a + b, cfg, init_st()).toks == scan_more(a, cfg, init_st()).toks + scan_more(
            a + b,
            cfg,
            scan_more(a, cfg, init_st()).st,
        ).toks,
        scan_more(a + b, cfg, init_st()).diags == scan_more(a, cfg, init_st()).diags + scan_more(
            a + b,
            cfg,
            scan_more(a, cfg, init_st()).st,
        ).diags,
        scan_more(a + b, cfg, init_st()).st == scan_more(
            a + b,
            cfg,
            scan_more(a, cfg, init_st()).st,
        ).st,
{
    lemma_scan_more_extend(a, b, cfg, init_st());
}

/// Raw-text opacity: while awaiting the literal matching end tag, a step
/// emits at most one opaque raw-preserve text token, nothing in front of
/// the first matching end tag is treated as a tag opener (embedded `<`
/// included), and scanning resumes exactly at the end tag.
pub proof fn lemma_raw_text_opaque(s: Seq<u8>, cfg: ConfigM, st: ScanStM)
    requires
        0 <= st.pos <= s.len(),
        (st.raw is Some),
    ensures
        (match scan_step(s, cfg, st) {
            StepM::Complete { toks, diags, st: st2 } => {
                let m = find_end_tag(s, st.pos, st.raw.unwrap());
                &&& forall|k: int| st.pos <= k < m ==> !end_tag_at(s, k, st.raw.unwrap())
                &&& end_tag_at(s, m, st.raw.unwrap())
                &&& st2.pos == m
                &&& st2.raw is None
                &&& diags == Seq::<DiagM>::empty()
                &&& toks == if m > st.pos {
                    seq![
                        TokenM::Text(
                            TextM {
                                span: SpanM { start: st.pos, end: m },
                                class: TextClass::RawPreserve,
                                entities: Seq::<crate::tokens::EntM>::empty(),
                            },
                        ),
                    ]
                } else {
                    Seq::<TokenM>::empty()
                }
            },
            StepM::Incomplete => st.pos >= s.len() || find_end_tag(s, st.pos, st.raw.unwrap())
                >= s.len(),
        }),
{
    if st.pos < s.len() {
        lemma_find_end_tag_props(s, st.pos, st.raw.unwrap());
    }
}

/// Lenient failure: a tag still open at the end of the input suspends the
/// scan ("need more input"), and if no more input comes, finishing yields a
/// best-effort start-tag token together with a malformed-tag diagnostic —
/// never a failure.
pub proof fn lemma_unterminated_tag_best_effort(s: Seq<u8>, cfg: ConfigM, st: ScanStM)
    requires
        0 <= st.pos,
        st.pos + 1 < s.len(),
        (st.raw is None),
        s[st.pos] == 60,
        is_alpha(s[st.pos + 1]),
        tag_end_from(s, st.pos + 1, 0) >= s.len(),
    ensures
        (scan_step(s, cfg, st) is Incomplete),
        finish_step(s, cfg, st).toks == seq![
            TokenM::StartTag(
                parse_tag_model(s, st.pos + 1, s.len() as int, cfg, st.pos, s.len() as int).tag,
            ),
        ],
        finish_step(s, cfg, st).diags.len() >= 1,
        finish_step(s, cfg, st).diags[0] == (DiagM { kind: DiagKind::MalformedTag, offset: st.pos }),
{
}

fn find_byte_exec(buf: &Vec<u8>, i: usize, b: u8) -> (r: usize)
    requires
        i <= buf.len(),
    ensures
        r as int == find_byte_from(buf@, i as int, b),
        i <= r <= buf.len(),
{
    let mut j: usize = i;
    while j < buf.len() && buf[j] != b
        invariant
            i <= j <= buf.len(),
            find_byte_from(buf@, i as int, b) == find_byte_from(buf@, j as int, b),
        decreases buf.len() - j,
    {
        j = j + 1;
    }
    j
}

fn tag_end_exec(buf: &Vec<u8>, i: usize) -> (r: usize)
    requires
        i <= buf.len(),
    ensures
        r as int == tag_end_from(buf@, i as int, 0),
        i <= r <= buf.len(),
{
    let mut j: usize = i;
    let mut q: u8 = 0;
    loop
        invariant
            i <= j <= buf.len(),
            q == 0 || q == 34 || q == 39,
            tag_end_from(buf@, i as int, 0) == tag_end_from(buf@, j as int, q),
        ensures
            j as int == tag_end_from(buf@, i as int, 0),
            i <= j <= buf.len(),
        decreases buf.len() - j,
    {
        if j >= buf.len() {
            break;
        }
        let c = buf[j];
        if q == 0 {
            if c == 62 {
                break;
            } else if c == 34 {
                q = 34;
            } else if c == 39 {
                q = 39;
            }
        } else if c == q {
            q = 0;
        }
        j = j + 1;
    }
    j
}

fn find_seq3_exec(buf: &Vec<u8>, i: usize, a: u8, b: u8, c: u8) -> (r: usize)
    requires
        i <= buf.len(),
    ensures
        r as int == find_seq3(buf@, i as int, a, b, c),
        i <= r <= buf.len(),
{
    let mut j: usize = i;
    while j < buf.len() && buf.len() - j >= 3 && !(buf[j] == a && buf[j + 1] == b && buf[j + 2]
        == c)
        invariant
            i <= j <= buf.len(),
            find_seq3(buf@, i as int, a, b, c) == find_seq3(buf@, j as int, a, b, c),
        decreases buf.len() - j,
    {
        j = j + 1;
    }
    if j < buf.len() && buf.len() - j >= 3 {
        j
    } else {
        buf.len()
    }
}

fn end_tag_at_exec(buf: &Vec<u8>, k: usize, name: &Vec<u8>) -> (r: bool)
    requires
        k <= buf.len(),
    ensures
        r == end_tag_at(buf@, k as int, name@),
{
    if buf.len() - k < 2 {
        return false;
    }
    if name.len() > buf.len() - k - 2 {
        return false;
    }
    if buf[k] != 60 || buf[k + 1] != 47 {
        return false;
    }
    let mut t: usize = 0;
    while t < name.len()
        invariant
            t <= name.len(),
            k + 2 + name.len() <= buf.len(),
            forall|q: int|
                0 <= q < t ==> crate::bytes::to_lower(buf@[k + 2 + q]) == name@[q],
        decreases name.len() - t,
    {
        if crate::bytes::byte_to_lower(buf[k + 2 + t]) != name[t] {
            proof {
                let sub = lower(buf@.subrange(k + 2, k + 2 + name@.len() as int));
                assert(sub[t as int] == crate::bytes::to_lower(buf@[k + 2 + t]));
            }
            return false;
        }
        t = t + 1;
    }
    proof {
        assert(lower(buf@.subrange(k + 2, k + 2 + name@.len() as int)) =~= name@);
    }
    true
}

fn find_end_tag_exec(buf: &Vec<u8>, i: usize, name: &Vec<u8>) -> (r: usize)
    requires
        i <= buf.len(),
    ensures
        r as int == find_end_tag(buf@, i as int, name@),
        i <= r <= buf.len(),
{
    let mut j: usize = i;
    loop
        invariant
            i <= j <= buf.len(),
            find_end_tag(buf@, i as int, name@) == find_end_tag(buf@, j as int, name@),
        ensures
            j as int == find_end_tag(buf@, i as int, name@),
            i <= j <= buf.len(),
        decreases buf.len() - j,
    {
        if j >= buf.len() {
            break;
        }
        if end_tag_at_exec(buf, j, name) {
            break;
        }
        j = j + 1;
    }
    j
}

/// Emitting one completed step keeps the running scan consistent with a
/// one-shot scan of the whole buffer.
proof fn lemma_inv_step(
    s: Seq<u8>,
    cfg: ConfigM,
    st0: ScanStM,
    tv0: Seq<TokenM>,
    dv0: Seq<DiagM>,
    t: Seq<TokenM>,
    d: Seq<DiagM>,
    st1: ScanStM,
)
    requires
        0 <= st0.pos <= s.len(),
        scan_step(s, cfg, st0) == (StepM::Complete { toks: t, diags: d, st: st1 }),
        scan_more(s, cfg, init_st()) == (ScanRes {
            toks: tv0 + scan_more(s, cfg, st0).toks,
            diags: dv0 + scan_more(s, cfg, st0).diags,
            st: scan_more(s, cfg, st0).st,
        }),
    ensures
        0 <= st1.pos <= s.len(),
        scan_more(s, cfg, init_st()) == (ScanRes {
            toks: (tv0 + t) + scan_more(s, cfg, st1).toks,
            diags: (dv0 + d) + scan_more(s, cfg, st1).diags,
            st: scan_more(s, cfg, st1).st,
        }),
{
    lemma_scan_step_progress(s, cfg, st0);
    let rest = scan_more(s, cfg, st1);
    assert(scan_more(s, cfg, st0) == ScanRes {
        toks: t + rest.toks,
        diags: d + rest.diags,
        st: rest.st,
    });
    assert(tv0 + (t + rest.toks) =~= (tv0 + t) + rest.toks);
    assert(dv0 + (d + rest.diags) =~= (dv0 + d) + rest.diags);
}

/// A resumable scan. Chunks are fed in source order; completed tokens are
/// appended to the token stream at once, while a token whose terminator has
/// not arrived stays suspended until more input (or `finish`) comes. All
/// fed bytes are retained, so token spans are offsets into the whole input.
pub struct ScanState {
    pub cfg: Config,
    pub buf: Vec<u8>,
    pub pos: usize,
    pub raw: Option<Vec<u8>>,
    pub stack: Vec<Vec<u8>>,
    pub tokens: Vec<Token>,
    pub diags: Vec<Diagnostic>,
}

impl ScanState {
    /// The suspended-state model of this scan.
    pub open spec fn st_m(self) -> ScanStM {
        ScanStM {
            pos: self.pos as int,
            raw: match self.raw {
                Option::Some(v) => Option::Some(v@),
                Option::None => Option::None,
            },
            stack: self.stack@.map_values(|v: Vec<u8>| v@),
        }
    }

    /// Internal consistency: what was already emitted plus what the
    /// suspended state will still emit equals one scan of all fed bytes.
    pub open spec fn inv(self) -> bool {
        &&& self.pos <= self.buf.len()
        &&& scan_more(self.buf@, self.cfg@, init_st()) == (ScanRes {
            toks: tokens_view(self.tokens@) + scan_more(self.buf@, self.cfg@, self.st_m()).toks,
            diags: diags_view(self.diags@) + scan_more(self.buf@, self.cfg@, self.st_m()).diags,
            st: scan_more(self.buf@, self.cfg@, self.st_m()).st,
        })
    }

    /// A well-formed suspended scan: consistent, with every completable
    /// token already emitted.
    pub open spec fn wf(self) -> bool {
        &&& self.inv()
        &&& (scan_step(self.buf@, self.cfg@, self.st_m()) is Incomplete)
    }

    /// Start a scan with the given configuration.
    pub fn new(cfg: Config) -> (r: ScanState)
        ensures
            r.wf(),
            r.buf@ == Seq::<u8>::empty(),
            r.cfg == cfg,
            tokens_view(r.tokens@) == Seq::<TokenM>::empty(),
            diags_view(r.diags@) == Seq::<DiagM>::empty(),
    {
        let r = ScanState {
            cfg,
            buf: Vec::new(),
            pos: 0,
            raw: Option::None,
            stack: Vec::new(),
            tokens: Vec::new(),
            diags: Vec::new(),
        };
        proof {
            assert(r.buf@ =~= Seq::<u8>::empty());
            assert(r.stack@.map_values(|v: Vec<u8>| v@) =~= Seq::<Seq<u8>>::empty());
            assert(r.st_m() == init_st());
            assert(tokens_view(r.tokens@) =~= Seq::<TokenM>::empty());
            assert(diags_view(r.diags@) =~= Seq::<DiagM>::empty());
            let m = scan_more(r.buf@, r.cfg@, init_st());
            assert(tokens_view(r.tokens@) + m.toks =~= m.toks);
            assert(diags_view(r.diags@) + m.diags =~= m.diags);
        }
        r
    }

    /// Try to complete one token; `false` means the scan is suspended and
    /// needs more input. Nothing changes when no token can be completed.
    #[verifier::rlimit(80)]
    fn step(&mut self) -> (progressed: bool)
        requires
            old(self).inv(),
        ensures
            final(self).inv(),
            final(self).buf@ == old(self).buf@,
            final(self).cfg == old(self).cfg,
            progressed == (scan_step(old(self).buf@, old(self).cfg@, old(self).st_m())
                is Complete),
            !progressed ==> final(self).st_m() == old(self).st_m() && final(self).tokens@ == old(
                self,
            ).tokens@ && final(self).diags@ == old(self).diags@,
            progressed ==> (final(self).pos > old(self).pos || (final(self).pos == old(self).pos
                && old(self).raw is Some && final(self).raw is None)),
    {
        let ghost s = self.buf@;
        let ghost c = self.cfg@;
        let ghost st0 = self.st_m();
        let ghost tv0 = tokens_view(self.tokens@);
        let ghost dv0 = diags_view(self.diags@);
        let i = self.pos;
        if i >= self.buf.len() {
            return false;
        }
        if self.raw.is_some() {
            let m = match &self.raw {
                Option::Some(nm) => find_end_tag_exec(&self.buf, i, nm),
                Option::None => 0,
            };
            if m < self.buf.len() {
                let ghost t: Seq<TokenM> = if m > i {
                    seq![
                        TokenM::Text(
                            TextM {
                                span: SpanM { start: i as int, end: m as int },
                                class: TextClass::RawPreserve,
                                entities: Seq::<crate::tokens::EntM>::empty(),
                            },
                        ),
                    ]
                } else {
                    Seq::<TokenM>::empty()
                };
                if m > i {
                    let entities: Vec<EntityRef> = Vec::new();
                    proof {
                        assert(entities@.map_values(|e: EntityRef| e@)
                            =~= Seq::<crate::tokens::EntM>::empty());
                    }
                    let tok = Token::Text(
                        TextRun {
                            span: Span { start: i, end: m },
                            class: TextClass::RawPreserve,
                            entities,
                        },
                    );
                    proof {
                        assert(tok@ == t[0]);
                    }
                    self.tokens.push(tok);
                    proof {
                        assert(tokens_view(self.tokens@) =~= tv0 + t);
                    }
                } else {
                    proof {
                        assert(tokens_view(self.tokens@) =~= tv0 + t);
                    }
                }
                self.raw = Option::None;
                self.pos = m;
                proof {
                    let st1 = self.st_m();
                    assert(scan_step(s, c, st0) == (StepM::Complete {
                        toks: t,
                        diags: Seq::<DiagM>::empty(),
                        st: st1,
                    }));
                    lemma_inv_step(s, c, st0, tv0, dv0, t, Seq::<DiagM>::empty(), st1);
                    assert(diags_view(self.diags@) =~= dv0 + Seq::<DiagM>::empty());
                }
                return true;
            }
            return false;
        }
        if self.buf[i] != 60 {
            let j = find_byte_exec(&self.buf, i, 60);
            if j < self.buf.len() {
                let encl: Option<&Vec<u8>> = if self.stack.len() > 0 {
                    Option::Some(&self.stack[self.stack.len() - 1])
                } else {
                    Option::None
                };
                let class = crate::text::classify_text(&self.buf, i, j, encl, &self.cfg);
                let entities = crate::entity::scan_entities(&self.buf, i, j);
                let tok = Token::Text(TextRun { span: Span { start: i, end: j }, class, entities });
                proof {
                    assert(stack_top(st0.stack) == (match encl {
                        Option::Some(e) => Option::Some(e@),
                        Option::None => Option::None,
                    }));
                    assert(tok@ == text_token(s, i as int, j as int, st0.stack, c));
                }
                self.tokens.push(tok);
                self.pos = j;
                proof {
                    let st1 = self.st_m();
                    let t = seq![text_token(s, i as int, j as int, st0.stack, c)];
                    assert(tokens_view(self.tokens@) =~= tv0 + t);
                    assert(scan_step(s, c, st0) == (StepM::Complete {
                        toks: t,
                        diags: Seq::<DiagM>::empty(),
                        st: st1,
                    }));
                    lemma_inv_step(s, c, st0, tv0, dv0, t, Seq::<DiagM>::empty(), st1);
                    assert(diags_view(self.diags@) =~= dv0 + Seq::<DiagM>::empty());
                }
                return true;
            }
            return false;
        }
        if i + 1 >= self.buf.len() {
            return false;
        }
        let b = self.buf[i + 1];
        if crate::bytes::byte_is_alpha(b) {
            let j = tag_end_exec(&self.buf, i + 1);
            if j < self.buf.len() {
                let (tag, mut tdiags) = crate::starttag::parse_tag_exec(
                    &self.buf,
                    i + 1,
                    j,
                    &self.cfg,
                    i,
                    j + 1,
                );
                let ghost d = diags_view(tdiags@);
                let sc = tag.self_closing;
                let rt = tag.raw_text;
                let ne = crate::starttag::name_end_exec(&self.buf, i + 1, j);
                let lname = crate::bytes::lower_bytes(
                    &crate::starttag::copy_range(&self.buf, i + 1, ne),
                );
                let ghost lname_m = lower(s.subrange(i + 1, ne as int));
                let ghost t = seq![
                    TokenM::StartTag(parse_tag_model(s, i + 1, j as int, c, i as int, j + 1).tag),
                ];
                self.tokens.push(Token::StartTag(tag));
                self.diags.append(&mut tdiags);
                if rt && !sc {
                    let lname2 = crate::bytes::clone_bytes(&lname);
                    self.raw = Option::Some(lname2);
                } else {
                    self.raw = Option::None;
                }
                if !sc {
                    self.stack.push(lname);
                }
                self.pos = j + 1;
                proof {
                    let st1 = self.st_m();
                    assert(tokens_view(self.tokens@) =~= tv0 + t);
                    assert(diags_view(self.diags@) =~= dv0 + d);
                    if !sc {
                        assert(self.stack@.map_values(|v: Vec<u8>| v@) =~= st0.stack.push(
                            lname_m,
                        ));
                    }
                    assert(scan_step(s, c, st0) == (StepM::Complete { toks: t, diags: d, st: st1 }));
                    lemma_inv_step(s, c, st0, tv0, dv0, t, d, st1);
                }
                return true;
            }
            return false;
        }
        if b == 47 {
            let j = find_byte_exec(&self.buf, i + 2, 62);
            if j < self.buf.len() {
                let name = crate::starttag::end_tag_name_exec(&self.buf, i + 2, j, &self.cfg);
                let ne = crate::starttag::name_end_exec(&self.buf, i + 2, j);
                let lname = crate::bytes::lower_bytes(
                    &crate::starttag::copy_range(&self.buf, i + 2, ne),
                );
                let ghost lname_m = lower(s.subrange(i + 2, ne as int));
                let ghost t = seq![
                    TokenM::EndTag(
                        EndTagM {
                            name: end_tag_name_model(s, i + 2, j as int, c),
                            span: SpanM { start: i as int, end: j + 1 },
                        },
                    ),
                ];
                self.tokens.push(
                    Token::EndTag(EndTag { name, span: Span { start: i, end: j + 1 } }),
                );
                let do_pop = if self.stack.len() > 0 {
                    crate::config::bytes_eq(&self.stack[self.stack.len() - 1], &lname)
                } else {
                    false
                };
                proof {
                    if self.stack@.len() > 0 {
                        assert(st0.stack.last() == self.stack@[self.stack@.len() - 1]@);
                    }
                }
                if do_pop {
                    self.stack.pop();
                    proof {
                        assert(self.stack@.map_values(|v: Vec<u8>| v@) =~= st0.stack.drop_last());
                    }
                }
                self.pos = j + 1;
                proof {
                    let st1 = self.st_m();
                    assert(tokens_view(self.tokens@) =~= tv0 + t);
                    assert(diags_view(self.diags@) =~= dv0 + Seq::<DiagM>::empty());
                    assert(st1.stack == pop_matching(st0.stack, lname_m));
                    assert(scan_step(s, c, st0) == (StepM::Complete {
                        toks: t,
                        diags: Seq::<DiagM>::empty(),
                        st: st1,
                    }));
                    lemma_inv_step(s, c, st0, tv0, dv0, t, Seq::<DiagM>::empty(), st1);
                }
                return true;
            }
            return false;
        }
        if b == 33 {
            if i + 2 >= self.buf.len() {
                return false;
            }
            if self.buf[i + 2] == 45 {
                if i + 3 >= self.buf.len() {
                    return false;
                }
                if self.buf[i + 3] == 45 {
                    let j = find_seq3_exec(&self.buf, i + 4, 45, 45, 62);
                    if j < self.buf.len() {
                        proof {
                            lemma_find_seq3_props(s, i + 4, 45, 45, 62);
                        }
                        let ghost t = seq![
                            TokenM::Comment(SpanM { start: i as int, end: j + 3 }),
                        ];
                        self.tokens.push(Token::Comment(Span { start: i, end: j + 3 }));
                        self.pos = j + 3;
                        proof {
                            let st1 = self.st_m();
                            assert(tokens_view(self.tokens@) =~= tv0 + t);
                            assert(diags_view(self.diags@) =~= dv0 + Seq::<DiagM>::empty());
                            assert(scan_step(s, c, st0) == (StepM::Complete {
                                toks: t,
                                diags: Seq::<DiagM>::empty(),
                                st: st1,
                            }));
                            lemma_inv_step(s, c, st0, tv0, dv0, t, Seq::<DiagM>::empty(), st1);
                        }
                        return true;
                    }
                    return false;
                }
                let j = find_byte_exec(&self.buf, i + 2, 62);
                if j < self.buf.len() {
                    let ghost t = seq![TokenM::Declaration(SpanM { start: i as int, end: j + 1 })];
                    self.tokens.push(Token::Declaration(Span { start: i, end: j + 1 }));
                    self.pos = j + 1;
                    proof {
                        let st1 = self.st_m();
                        assert(tokens_view(self.tokens@) =~= tv0 + t);
                        assert(diags_view(self.diags@) =~= dv0 + Seq::<DiagM>::empty());
                        assert(scan_step(s, c, st0) == (StepM::Complete {
                            toks: t,
                            diags: Seq::<DiagM>::empty(),
                            st: st1,
                        }));
                        lemma_inv_step(s, c, st0, tv0, dv0, t, Seq::<DiagM>::empty(), st1);
                    }
                    return true;
                }
                return false;
            }
            if self.buf[i + 2] == 91 {
                let marker = self.buf.len() - i >= 9 && self.buf[i + 3] == 67 && self.buf[i + 4]
                    == 68 && self.buf[i + 5] == 65 && self.buf[i + 6] == 84 && self.buf[i + 7]
                    == 65 && self.buf[i + 8] == 91;
                proof {
                    assert(marker == is_cdata_marker(s, i as int));
                }
                if marker {
                    let j = find_seq3_exec(&self.buf, i + 9, 93, 93, 62);
                    if j < self.buf.len() {
                        proof {
                            lemma_find_seq3_props(s, i + 9, 93, 93, 62);
                        }
                        let ghost t = seq![TokenM::CData(SpanM { start: i as int, end: j + 3 })];
                        self.tokens.push(Token::CData(Span { start: i, end: j + 3 }));
                        self.pos = j + 3;
                        proof {
                            let st1 = self.st_m();
                            assert(tokens_view(self.tokens@) =~= tv0 + t);
                            assert(diags_view(self.diags@) =~= dv0 + Seq::<DiagM>::empty());
                            assert(scan_step(s, c, st0) == (StepM::Complete {
                                toks: t,
                                diags: Seq::<DiagM>::empty(),
                                st: st1,
                            }));
                            lemma_inv_step(s, c, st0, tv0, dv0, t, Seq::<DiagM>::empty(), st1);
                        }
                        return true;
                    }
                    return false;
                }
                let n = self.buf.len();
                let prefix_ok = (n - i <= 3 || self.buf[i + 3] == 67) && (n - i <= 4
                    || self.buf[i + 4] == 68) && (n - i <= 5 || self.buf[i + 5] == 65) && (n - i
                    <= 6 || self.buf[i + 6] == 84) && (n - i <= 7 || self.buf[i + 7] == 65) && (n
                    - i <= 8 || self.buf[i + 8] == 91);
                proof {
                    assert(prefix_ok == cdata_prefix(s, i as int));
                }
                if self.buf.len() - i < 9 && prefix_ok {
                    return false;
                }
                let j = find_byte_exec(&self.buf, i + 2, 62);
                if j < self.buf.len() {
                    let ghost t = seq![TokenM::Declaration(SpanM { start: i as int, end: j + 1 })];
                    self.tokens.push(Token::Declaration(Span { start: i, end: j + 1 }));
                    self.pos = j + 1;
                    proof {
                        let st1 = self.st_m();
                        assert(tokens_view(self.tokens@) =~= tv0 + t);
                        assert(diags_view(self.diags@) =~= dv0 + Seq::<DiagM>::empty());
                        assert(scan_step(s, c, st0) == (StepM::Complete {
                            toks: t,
                            diags: Seq::<DiagM>::empty(),
                            st: st1,
                        }));
                        lemma_inv_step(s, c, st0, tv0, dv0, t, Seq::<DiagM>::empty(), st1);
                    }
                    return true;
                }
                return false;
            }
            let j = find_byte_exec(&self.buf, i + 2, 62);
            if j < self.buf.len() {
                let doctype = j - i >= 9 && crate::bytes::byte_to_lower(self.buf[i + 2]) == 100
                    && crate::bytes::byte_to_lower(self.buf[i + 3]) == 111
                    && crate::bytes::byte_to_lower(self.buf[i + 4]) == 99
                    && crate::bytes::byte_to_lower(self.buf[i + 5]) == 116
                    && crate::bytes::byte_to_lower(self.buf[i + 6]) == 121
                    && crate::bytes::byte_to_lower(self.buf[i + 7]) == 112
                    && crate::bytes::byte_to_lower(self.buf[i + 8]) == 101;
                proof {
                    assert(doctype == is_doctype(s, i as int, j as int));
                }
                let ghost t: Seq<TokenM> = if doctype {
                    seq![TokenM::Doctype(SpanM { start: i as int, end: j + 1 })]
                } else {
                    seq![TokenM::Declaration(SpanM { start: i as int, end: j + 1 })]
                };
                if doctype {
                    self.tokens.push(Token::Doctype(Span { start: i, end: j + 1 }));
                } else {
                    self.tokens.push(Token::Declaration(Span { start: i, end: j + 1 }));
                }
                self.pos = j + 1;
                proof {
                    let st1 = self.st_m();
                    assert(tokens_view(self.tokens@) =~= tv0 + t);
                    assert(diags_view(self.diags@) =~= dv0 + Seq::<DiagM>::empty());
                    assert(scan_step(s, c, st0) == (StepM::Complete {
                        toks: t,
                        diags: Seq::<DiagM>::empty(),
                        st: st1,
                    }));
                    lemma_inv_step(s, c, st0, tv0, dv0, t, Seq::<DiagM>::empty(), st1);
                }
                return true;
            }
            return false;
        }
        if b == 63 {
            let j = find_byte_exec(&self.buf, i + 2, 62);
            if j < self.buf.len() {
                let ghost t = seq![
                    TokenM::ProcessingInstruction(SpanM { start: i as int, end: j + 1 }),
                ];
                self.tokens.push(Token::ProcessingInstruction(Span { start: i, end: j + 1 }));
                self.pos = j + 1;
                proof {
                    let st1 = self.st_m();
                    assert(tokens_view(self.tokens@) =~= tv0 + t);
                    assert(diags_view(self.diags@) =~= dv0 + Seq::<DiagM>::empty());
                    assert(scan_step(s, c, st0) == (StepM::Complete {
                        toks: t,
                        diags: Seq::<DiagM>::empty(),
                        st: st1,
                    }));
                    lemma_inv_step(s, c, st0, tv0, dv0, t, Seq::<DiagM>::empty(), st1);
                }
                return true;
            }
            return false;
        }
        // a bare `<` forming no construct: literal text plus a diagnostic
        let j = find_byte_exec(&self.buf, i + 1, 60);
        if j < self.buf.len() {
            let encl: Option<&Vec<u8>> = if self.stack.len() > 0 {
                Option::Some(&self.stack[self.stack.len() - 1])
            } else {
                Option::None
            };
            let class = crate::text::classify_text(&self.buf, i, j, encl, &self.cfg);
            let entities = crate::entity::scan_entities(&self.buf, i, j);
            let tok = Token::Text(TextRun { span: Span { start: i, end: j }, class, entities });
            proof {
                assert(stack_top(st0.stack) == (match encl {
                    Option::Some(e) => Option::Some(e@),
                    Option::None => Option::None,
                }));
                assert(tok@ == text_token(s, i as int, j as int, st0.stack, c));
            }
            self.tokens.push(tok);
            self.diags.push(Diagnostic { kind: DiagKind::MalformedTag, offset: i });
            self.pos = j;
            proof {
                let st1 = self.st_m();
                let t = seq![text_token(s, i as int, j as int, st0.stack, c)];
                let d = seq![DiagM { kind: DiagKind::MalformedTag, offset: i as int }];
                assert(tokens_view(self.tokens@) =~= tv0 + t);
                assert(diags_view(self.diags@) =~= dv0 + d);
                assert(scan_step(s, c, st0) == (StepM::Complete { toks: t, diags: d, st: st1 }));
                lemma_inv_step(s, c, st0, tv0, dv0, t, d, st1);
            }
            return true;
        }
        false
    }

    /// Feed the next chunk of input in source order. Tokens completed by
    /// the new bytes are emitted at once; a token still missing its
    /// terminator stays suspended ("need more input") instead of being
    /// emitted malformed. The state after any sequence of feeds depends
    /// only on the concatenation of the fed chunks.
    pub fn feed(&mut self, chunk: &Vec<u8>)
        requires
            old(self).wf(),
        ensures
            final(self).wf(),
            final(self).buf@ == old(self).buf@ + chunk@,
            final(self).cfg == old(self).cfg,
    {
        let ghost s_old = self.buf@;
        let ghost c = self.cfg@;
        let ghost st0 = self.st_m();
        let ghost tv0 = tokens_view(self.tokens@);
        let ghost dv0 = diags_view(self.diags@);
        let mut k: usize = 0;
        proof {
            assert(self.buf@ =~= s_old + chunk@.take(0));
        }
        while k < chunk.len()
            invariant
                k <= chunk.len(),
                self.buf@ == s_old + chunk@.take(k as int),
                self.st_m() == st0,
                self.tokens@ == old(self).tokens@,
                self.diags@ == old(self).diags@,
                self.cfg == old(self).cfg,
            decreases chunk.len() - k,
        {
            self.buf.push(chunk[k]);
            proof {
                assert(self.buf@ =~= s_old + chunk@.take(k + 1));
            }
            k = k + 1;
        }
        proof {
            assert(chunk@.take(chunk@.len() as int) =~= chunk@);
        }
        let ghost t_full = s_old + chunk@;
        proof {
            // the old state was drained, so the old scan result was exactly
            // what had been emitted, suspended at the old state
            assert(scan_more(s_old, c, st0) == ScanRes {
                toks: Seq::<TokenM>::empty(),
                diags: Seq::<DiagM>::empty(),
                st: st0,
            });
            lemma_scan_more_extend(s_old, chunk@, c, init_st());
            let m2 = scan_more(t_full, c, st0);
            assert((tv0 + Seq::<TokenM>::empty()) + m2.toks =~= tv0 + m2.toks);
            assert((dv0 + Seq::<DiagM>::empty()) + m2.diags =~= dv0 + m2.diags);
            assert(self.inv());
        }
        loop
            invariant
                self.inv(),
                self.buf@ == t_full,
                self.cfg == old(self).cfg,
            ensures
                self.wf(),
                self.buf@ == t_full,
                self.cfg == old(self).cfg,
            decreases
                    self.buf.len() - self.pos,
                    (if self.raw is Some {
                        1int
                    } else {
                        0int
                    }),
        {
            let p = self.step();
            if !p {
                break;
            }
        }
    }

    /// End of input: complete any suspended partial token best-effort,
    /// with its diagnostic, and return the full token stream and the
    /// diagnostics of the whole input. Both are a function of the
    /// concatenation of the fed chunks alone, so feeding a buffer whole or
    /// split at any boundaries yields identical streams.
    pub fn finish(self) -> (r: (Vec<Token>, Vec<Diagnostic>))
        requires
            self.wf(),
        ensures
            tokens_view(r.0@) == scan_model(self.buf@, self.cfg@).toks,
            diags_view(r.1@) == scan_model(self.buf@, self.cfg@).diags,
    {
        let ghost s = self.buf@;
        let ghost c = self.cfg@;
        let ghost st0 = self.st_m();
        let ghost tv0 = tokens_view(self.tokens@);
        let ghost dv0 = diags_view(self.diags@);
        proof {
            assert(scan_more(s, c, st0) == ScanRes {
                toks: Seq::<TokenM>::empty(),
                diags: Seq::<DiagM>::empty(),
                st: st0,
            });
            assert(scan_model(s, c).toks == (tv0 + Seq::<TokenM>::empty()) + finish_step(
                s,
                c,
                st0,
            ).toks);
            assert(tv0 + Seq::<TokenM>::empty() =~= tv0);
            assert(dv0 + Seq::<DiagM>::empty() =~= dv0);
        }
        let ScanState { cfg, buf, pos, raw, stack, mut tokens, mut diags } = self;
        let i = pos;
        let n = buf.len();
        if i >= n {
            proof {
                assert(tokens_view(tokens@) =~= tv0 + finish_step(s, c, st0).toks);
                assert(diags_view(diags@) =~= dv0 + finish_step(s, c, st0).diags);
            }
            return (tokens, diags);
        }
        if raw.is_some() {
            let entities: Vec<EntityRef> = Vec::new();
            proof {
                assert(entities@.map_values(|e: EntityRef| e@)
                    =~= Seq::<crate::tokens::EntM>::empty());
            }
            let tok = Token::Text(
                TextRun {
                    span: Span { start: i, end: n },
                    class: TextClass::RawPreserve,
                    entities,
                },
            );
            proof {
                assert(tok@ == finish_step(s, c, st0).toks[0]);
            }
            tokens.push(tok);
            diags.push(Diagnostic { kind: DiagKind::UnterminatedRawText, offset: i });
            proof {
                assert(tokens_view(tokens@) =~= tv0 + finish_step(s, c, st0).toks);
                assert(diags_view(diags@) =~= dv0 + finish_step(s, c, st0).diags);
            }
            return (tokens, diags);
        }
        let encl: Option<&Vec<u8>> = if stack.len() > 0 {
            Option::Some(&stack[stack.len() - 1])
        } else {
            Option::None
        };
        proof {
            assert(stack_top(st0.stack) == (match encl {
                Option::Some(e) => Option::Some(e@),
                Option::None => Option::None,
            }));
        }
        if buf[i] != 60 {
            let class = crate::text::classify_text(&buf, i, n, encl, &cfg);
            let entities = crate::entity::scan_entities(&buf, i, n);
            let tok = Token::Text(TextRun { span: Span { start: i, end: n }, class, entities });
            proof {
                assert(tok@ == text_token(s, i as int, n as int, st0.stack, c));
            }
            tokens.push(tok);
            proof {
                assert(tokens_view(tokens@) =~= tv0 + finish_step(s, c, st0).toks);
                assert(diags_view(diags@) =~= dv0 + finish_step(s, c, st0).diags);
            }
            return (tokens, diags);
        }
        if i + 1 >= n {
            let class = crate::text::classify_text(&buf, i, n, encl, &cfg);
            let entities = crate::entity::scan_entities(&buf, i, n);
            let tok = Token::Text(TextRun { span: Span { start: i, end: n }, class, entities });
            proof {
                assert(tok@ == text_token(s, i as int, n as int, st0.stack, c));
            }
            tokens.push(tok);
            diags.push(Diagnostic { kind: DiagKind::MalformedTag, offset: i });
            proof {
                assert(tokens_view(tokens@) =~= tv0 + finish_step(s, c, st0).toks);
                assert(diags_view(diags@) =~= dv0 + finish_step(s, c, st0).diags);
            }
            return (tokens, diags);
        }
        let b = buf[i + 1];
        if crate::bytes::byte_is_alpha(b) {
            let (tag, mut tdiags) = crate::starttag::parse_tag_exec(&buf, i + 1, n, &cfg, i, n);
            let ghost d = diags_view(tdiags@);
            tokens.push(Token::StartTag(tag));
            diags.push(Diagnostic { kind: DiagKind::MalformedTag, offset: i });
            diags.append(&mut tdiags);
            proof {
                assert(tokens_view(tokens@) =~= tv0 + finish_step(s, c, st0).toks);
                assert(diags_view(diags@) =~= dv0 + (seq![
                    DiagM { kind: DiagKind::MalformedTag, offset: i as int },
                ] + d));
            }
            return (tokens, diags);
        }
        if b == 47 {
            let name = crate::starttag::end_tag_name_exec(&buf, i + 2, n, &cfg);
            tokens.push(Token::EndTag(EndTag { name, span: Span { start: i, end: n } }));
            diags.push(Diagnostic { kind: DiagKind::MalformedTag, offset: i });
            proof {
                assert(tokens_view(tokens@) =~= tv0 + finish_step(s, c, st0).toks);
                assert(diags_view(diags@) =~= dv0 + finish_step(s, c, st0).diags);
            }
            return (tokens, diags);
        }
        if b == 33 {
            if n - i > 3 && buf[i + 2] == 45 && buf[i + 3] == 45 {
                tokens.push(Token::Comment(Span { start: i, end: n }));
                diags.push(Diagnostic { kind: DiagKind::UnterminatedComment, offset: i });
                proof {
                    assert(tokens_view(tokens@) =~= tv0 + finish_step(s, c, st0).toks);
                    assert(diags_view(diags@) =~= dv0 + finish_step(s, c, st0).diags);
                }
                return (tokens, diags);
            }
            let marker = n - i >= 9 && buf[i + 2] == 91 && buf[i + 3] == 67 && buf[i + 4] == 68
                && buf[i + 5] == 65 && buf[i + 6] == 84 && buf[i + 7] == 65 && buf[i + 8] == 91;
            proof {
                assert(marker == is_cdata_marker(s, i as int));
            }
            if marker {
                tokens.push(Token::CData(Span { start: i, end: n }));
            } else {
                let doctype = n - i >= 9 && crate::bytes::byte_to_lower(buf[i + 2]) == 100
                    && crate::bytes::byte_to_lower(buf[i + 3]) == 111
                    && crate::bytes::byte_to_lower(buf[i + 4]) == 99
                    && crate::bytes::byte_to_lower(buf[i + 5]) == 116
                    && crate::bytes::byte_to_lower(buf[i + 6]) == 121
                    && crate::bytes::byte_to_lower(buf[i + 7]) == 112
                    && crate::bytes::byte_to_lower(buf[i + 8]) == 101;
                proof {
                    assert(doctype == is_doctype(s, i as int, n as int));
                }
                if doctype {
                    tokens.push(Token::Doctype(Span { start: i, end: n }));
                } else {
                    tokens.push(Token::Declaration(Span { start: i, end: n }));
                }
            }
            diags.push(Diagnostic { kind: DiagKind::MalformedTag, offset: i });
            proof {
                assert(tokens_view(tokens@) =~= tv0 + finish_step(s, c, st0).toks);
                assert(diags_view(diags@) =~= dv0 + finish_step(s, c, st0).diags);
            }
            return (tokens, diags);
        }
        if b == 63 {
            tokens.push(Token::ProcessingInstruction(Span { start: i, end: n }));
            diags.push(Diagnostic { kind: DiagKind::MalformedTag, offset: i });
            proof {
                assert(tokens_view(tokens@) =~= tv0 + finish_step(s, c, st0).toks);
                assert(diags_view(diags@) =~= dv0 + finish_step(s, c, st0).diags);
            }
            return (tokens, diags);
        }
        let class = crate::text::classify_text(&buf, i, n, encl, &cfg);
        let entities = crate::entity::scan_entities(&buf, i, n);
        let tok = Token::Text(TextRun { span: Span { start: i, end: n }, class, entities });
        proof {
            assert(tok@ == text_token(s, i as int, n as int, st0.stack, c));
        }
        tokens.push(tok);
        diags.push(Diagnostic { kind: DiagKind::MalformedTag, offset: i });
        proof {
            assert(tokens_view(tokens@) =~= tv0 + finish_step(s, c, st0).toks);
            assert(diags_view(diags@) =~= dv0 + finish_step(s, c, st0).diags);
        }
        (tokens, diags)
    }
}

/// Tokenize one whole buffer: the token stream and diagnostics of scanning
/// `buf` to its end under `cfg`, identical to feeding the same bytes in any
/// number of chunks.
pub fn tokenize(buf: &Vec<u8>, cfg: Config) -> (r: (Vec<Token>, Vec<Diagnostic>))
    ensures
        tokens_view(r.0@) == scan_model(buf@, cfg@).toks,
        diags_view(r.1@) == scan_model(buf@, cfg@).diags,
{
    let mut st = ScanState::new(cfg);
    st.feed(buf);
    proof {
        assert(st.buf@ =~= buf@);
    }
    st.finish()
}

} // verus!
