//! Start-tag parsing: the slice between `<` and the matching unescaped `>`
//! becomes a tag name and an ordered list of raw attributes. Parsing is
//! lenient: malformed constructs yield diagnostics and a best-effort tag,
//! never a failure.

use vstd::prelude::*;
use crate::bytes::{is_ws, lower};
use crate::config::{Config, ConfigM, TagNameCase};
use crate::tokens::{
    Attribute, AttrM, Diagnostic, DiagM, DiagKind, Quote, Span, SpanM, Tag, TagM, attrs_view,
    diags_view,
};

verus! {

/// First index in `[i, hi]` holding a byte outside a tag name (whitespace
/// or `/`).
pub open spec fn name_end(s: Seq<u8>, i: int, hi: int) -> int
    decreases hi - i when 0 <= i <= hi <= s.len()
{
    if i >= hi {
        i
    } else if is_ws(s[i]) || s[i] == 47 {
        i
    } else {
        name_end(s, i + 1, hi)
    }
}

/// First index in `[i, hi]` holding a byte outside an attribute name
/// (whitespace, `=` or `/`).
pub open spec fn attr_name_end(s: Seq<u8>, i: int, hi: int) -> int
    decreases hi - i when 0 <= i <= hi <= s.len()
{
    if i >= hi {
        i
    } else if is_ws(s[i]) || s[i] == 61 || s[i] == 47 {
        i
    } else {
        attr_name_end(s, i + 1, hi)
    }
}

/// First non-whitespace index in `[i, hi]`.
pub open spec fn skip_ws(s: Seq<u8>, i: int, hi: int) -> int
    decreases hi - i when 0 <= i <= hi <= s.len()
{
    if i >= hi {
        i
    } else if is_ws(s[i]) {
        skip_ws(s, i + 1, hi)
    } else {
        i
    }
}

/// End of an unquoted attribute value: the first whitespace at or after
/// `i`, or `hi`.
pub open spec fn uq_end(s: Seq<u8>, i: int, hi: int) -> int
    decreases hi - i when 0 <= i <= hi <= s.len()
{
    if i >= hi {
        i
    } else if is_ws(s[i]) {
        i
    } else {
        uq_end(s, i + 1, hi)
    }
}

/// First index in `[i, hi]` holding the quote byte `qb`, or `hi`.
pub open spec fn quote_end(s: Seq<u8>, i: int, hi: int, qb: u8) -> int
    decreases hi - i when 0 <= i <= hi <= s.len()
{
    if i >= hi {
        i
    } else if s[i] == qb {
        i
    } else {
        quote_end(s, i + 1, hi, qb)
    }
}

pub proof fn lemma_tagscan_ranges(s: Seq<u8>, i: int, hi: int, qb: u8)
    requires
        0 <= i <= hi <= s.len(),
    ensures
        i <= name_end(s, i, hi) <= hi,
        i <= attr_name_end(s, i, hi) <= hi,
        i <= skip_ws(s, i, hi) <= hi,
        i <= uq_end(s, i, hi) <= hi,
        i <= quote_end(s, i, hi, qb) <= hi,
    decreases hi - i,
{
    if i < hi {
        lemma_tagscan_ranges(s, i + 1, hi, qb);
    }
}

/// `skip_ws` stops on a non-whitespace byte.
pub proof fn lemma_skip_ws_stop(s: Seq<u8>, i: int, hi: int)
    requires
        0 <= i <= hi <= s.len(),
    ensures
        skip_ws(s, i, hi) < hi ==> !is_ws(s[skip_ws(s, i, hi)]),
    decreases hi - i,
{
    if i < hi && is_ws(s[i]) {
        lemma_skip_ws_stop(s, i + 1, hi);
    }
}

/// Skip over an orphan attribute value (after an `=` with no name): leading
/// whitespace, then a quoted or unquoted value.
pub open spec fn skip_value(s: Seq<u8>, i: int, hi: int) -> int
    recommends
        0 <= i <= hi <= s.len(),
{
    let v = skip_ws(s, i, hi);
    if v >= hi {
        hi
    } else if s[v] == 34 || s[v] == 39 {
        let qe = quote_end(s, v + 1, hi, s[v]);
        if qe < hi {
            qe + 1
        } else {
            hi
        }
    } else {
        uq_end(s, v, hi)
    }
}

/// Result of parsing the attribute portion of a start tag.
pub ghost struct AttrsParse {
    pub attrs: Seq<AttrM>,
    pub diags: Seq<DiagM>,
    pub self_closing: bool,
}

/// Parse attributes from `s[i..hi]` (the content of a start tag after the
/// name). Lenient: a `/` that is not the trailing self-closing marker is
/// skipped; an `=` with no preceding name yields a diagnostic and its value
/// is skipped; a quoted value missing its closing quote runs to the end.
pub open spec fn parse_attrs(s: Seq<u8>, i: int, hi: int) -> AttrsParse
    decreases hi - i when 0 <= i <= hi <= s.len()
{
    let k = skip_ws(s, i, hi);
    if k >= hi {
        AttrsParse { attrs: Seq::<AttrM>::empty(), diags: Seq::<DiagM>::empty(), self_closing: false }
    } else if s[k] == 47 {
        if k + 1 >= hi {
            AttrsParse {
                attrs: Seq::<AttrM>::empty(),
                diags: Seq::<DiagM>::empty(),
                self_closing: true,
            }
        } else {
            let nxt = if k + 1 > i {
                k + 1
            } else {
                i + 1
            };
            parse_attrs(s, nxt, hi)
        }
    } else if s[k] == 61 {
        let sv = skip_value(s, k + 1, hi);
        let nxt = if i < sv <= hi {
            sv
        } else {
            hi
        };
        let rest = parse_attrs(s, nxt, hi);
        AttrsParse {
            attrs: rest.attrs,
            diags: seq![DiagM { kind: DiagKind::MalformedTag, offset: k }] + rest.diags,
            self_closing: rest.self_closing,
        }
    } else {
        let ne = attr_name_end(s, k, hi);
        let name = s.subrange(k, ne);
        let e = skip_ws(s, ne, hi);
        if e < hi && s[e] == 61 {
            let v = skip_ws(s, e + 1, hi);
            if v >= hi {
                AttrsParse {
                    attrs: seq![
                        AttrM {
                            name: name,
                            value: Option::Some(Seq::<u8>::empty()),
                            quote: Quote::Unquoted,
                            name_offset: k,
                            value_offset: hi,
                        },
                    ],
                    diags: Seq::<DiagM>::empty(),
                    self_closing: false,
                }
            } else if s[v] == 34 || s[v] == 39 {
                let q = if s[v] == 34 {
                    Quote::Double
                } else {
                    Quote::Single
                };
                let qe = quote_end(s, v + 1, hi, s[v]);
                let nxt0 = if qe < hi {
                    qe + 1
                } else {
                    hi
                };
                let nxt = if i < nxt0 <= hi {
                    nxt0
                } else {
                    hi
                };
                let rest = parse_attrs(s, nxt, hi);
                AttrsParse {
                    attrs: seq![
                        AttrM {
                            name: name,
                            value: Option::Some(s.subrange(v + 1, qe)),
                            quote: q,
                            name_offset: k,
                            value_offset: v + 1,
                        },
                    ] + rest.attrs,
                    diags: rest.diags,
                    self_closing: rest.self_closing,
                }
            } else {
                let ve = uq_end(s, v, hi);
                let nxt = if i < ve <= hi {
                    ve
                } else {
                    hi
                };
                let rest = parse_attrs(s, nxt, hi);
                AttrsParse {
                    attrs: seq![
                        AttrM {
                            name: name,
                            value: Option::Some(s.subrange(v, ve)),
                            quote: Quote::Unquoted,
                            name_offset: k,
                            value_offset: v,
                        },
                    ] + rest.attrs,
                    diags: rest.diags,
                    self_closing: rest.self_closing,
                }
            }
        } else {
            let nxt = if i < e <= hi {
                e
            } else {
                hi
            };
            let rest = parse_attrs(s, nxt, hi);
            AttrsParse {
                attrs: seq![
                    AttrM {
                        name: name,
                        value: Option::None,
                        quote: Quote::Unquoted,
                        name_offset: k,
                        value_offset: 0,
                    },
                ] + rest.attrs,
                diags: rest.diags,
                self_closing: rest.self_closing,
            }
        }
    }
}

/// Whether an earlier attribute has the same case-insensitive name as the
/// one at index `i`.
pub open spec fn has_dup_before(attrs: Seq<AttrM>, i: int) -> bool {
    exists|j: int| 0 <= j < i && lower(#[trigger] attrs[j].name) == lower(attrs[i].name)
}

/// Diagnostics for duplicate attribute names among the first `n`
/// attributes: the second and later occurrences are flagged, in order;
/// duplicates are never dropped.
pub open spec fn dup_diags(attrs: Seq<AttrM>, n: int) -> Seq<DiagM>
    decreases n when 0 <= n <= attrs.len()
{
    if n <= 0 {
        Seq::<DiagM>::empty()
    } else {
        dup_diags(attrs, n - 1) + if has_dup_before(attrs, n - 1) {
            seq![DiagM { kind: DiagKind::DuplicateAttribute, offset: attrs[n - 1].name_offset }]
        } else {
            Seq::<DiagM>::empty()
        }
    }
}

/// Result of parsing one whole start tag.
pub ghost struct TagParse {
    pub tag: TagM,
    pub diags: Seq<DiagM>,
}

/// Parse the start-tag content `s[lo..hi]` (between `<` and `>`): tag name
/// (case-normalized per the configuration), attributes, self-closing flag
/// and the raw-text flag from the configured element set. `start..end` is
/// the whole token's span.
pub open spec fn parse_tag_model(
    s: Seq<u8>,
    lo: int,
    hi: int,
    cfg: ConfigM,
    start: int,
    end: int,
) -> TagParse
    recommends
        0 <= lo <= hi <= s.len(),
{
    let ne = name_end(s, lo, hi);
    let raw = s.subrange(lo, ne);
    let name = if cfg.lower_names {
        lower(raw)
    } else {
        raw
    };
    let pa = parse_attrs(s, ne, hi);
    TagParse {
        tag: TagM {
            name: name,
            attrs: pa.attrs,
            self_closing: pa.self_closing,
            raw_text: cfg.is_raw_text(lower(raw)),
            span: SpanM { start: start, end: end },
        },
        diags: pa.diags + dup_diags(pa.attrs, pa.attrs.len() as int),
    }
}

/// The case-normalized name of an end tag whose content is `s[lo..hi]`.
pub open spec fn end_tag_name_model(s: Seq<u8>, lo: int, hi: int, cfg: ConfigM) -> Seq<u8>
    recommends
        0 <= lo <= hi <= s.len(),
{
    let raw = s.subrange(lo, name_end(s, lo, hi));
    if cfg.lower_names {
        lower(raw)
    } else {
        raw
    }
}

pub proof fn lemma_tagscan_extend(s: Seq<u8>, ext: Seq<u8>, i: int, hi: int, qb: u8)
    requires
        0 <= i <= hi <= s.len(),
    ensures
        name_end(s + ext, i, hi) == name_end(s, i, hi),
        attr_name_end(s + ext, i, hi) == attr_name_end(s, i, hi),
        skip_ws(s + ext, i, hi) == skip_ws(s, i, hi),
        uq_end(s + ext, i, hi) == uq_end(s, i, hi),
        quote_end(s + ext, i, hi, qb) == quote_end(s, i, hi, qb),
    decreases hi - i,
{
    if i < hi {
        lemma_tagscan_extend(s, ext, i + 1, hi, qb);
    }
}

/// Attribute parsing inside a fixed window is unchanged when the buffer
/// grows: it reads only `s[i..hi]`.
pub proof fn lemma_parse_attrs_extend(s: Seq<u8>, ext: Seq<u8>, i: int, hi: int)
    requires
        0 <= i <= hi <= s.len(),
    ensures
        parse_attrs(s + ext, i, hi) == parse_attrs(s, i, hi),
    decreases hi - i,
{
    lemma_tagscan_extend(s, ext, i, hi, 34);
    let k = skip_ws(s, i, hi);
    lemma_tagscan_ranges(s, i, hi, 34);
    if k >= hi {
    } else {
        lemma_tagscan_extend(s, ext, k, hi, 34);
        lemma_tagscan_ranges(s, k, hi, 34);
        if s[k] == 47 {
            if k + 1 < hi {
                let nxt = if k + 1 > i {
                    k + 1
                } else {
                    i + 1
                };
                lemma_parse_attrs_extend(s, ext, nxt, hi);
            }
        } else if s[k] == 61 {
            lemma_tagscan_extend(s, ext, k + 1, hi, 34);
            lemma_tagscan_ranges(s, k + 1, hi, 34);
            let v = skip_ws(s, k + 1, hi);
            if v < hi && (s[v] == 34 || s[v] == 39) {
                lemma_tagscan_extend(s, ext, v + 1, hi, s[v]);
                lemma_tagscan_ranges(s, v + 1, hi, s[v]);
            } else if v < hi {
                lemma_tagscan_extend(s, ext, v, hi, 34);
                lemma_tagscan_ranges(s, v, hi, 34);
            }
            assert(skip_value(s + ext, k + 1, hi) == skip_value(s, k + 1, hi));
            let sv = skip_value(s, k + 1, hi);
            let nxt = if i < sv <= hi {
                sv
            } else {
                hi
            };
            lemma_parse_attrs_extend(s, ext, nxt, hi);
        } else {
            let ne = attr_name_end(s, k, hi);
            lemma_tagscan_ranges(s, k, hi, 34);
            assert((s + ext).subrange(k, ne) =~= s.subrange(k, ne));
            lemma_tagscan_extend(s, ext, ne, hi, 34);
            lemma_tagscan_ranges(s, ne, hi, 34);
            let e = skip_ws(s, ne, hi);
            if e < hi && s[e] == 61 {
                lemma_tagscan_extend(s, ext, e + 1, hi, 34);
                lemma_tagscan_ranges(s, e + 1, hi, 34);
                let v = skip_ws(s, e + 1, hi);
                if v >= hi {
                } else if s[v] == 34 || s[v] == 39 {
                    lemma_tagscan_extend(s, ext, v + 1, hi, s[v]);
                    lemma_tagscan_ranges(s, v + 1, hi, s[v]);
                    let qe = quote_end(s, v + 1, hi, s[v]);
                    assert((s + ext).subrange(v + 1, qe) =~= s.subrange(v + 1, qe));
                    let nxt0 = if qe < hi {
                        qe + 1
                    } else {
                        hi
                    };
                    let nxt = if i < nxt0 <= hi {
                        nxt0
                    } else {
                        hi
                    };
                    lemma_parse_attrs_extend(s, ext, nxt, hi);
                } else {
                    lemma_tagscan_extend(s, ext, v, hi, 34);
                    lemma_tagscan_ranges(s, v, hi, 34);
                    let ve = uq_end(s, v, hi);
                    assert((s + ext).subrange(v, ve) =~= s.subrange(v, ve));
                    let nxt = if i < ve <= hi {
                        ve
                    } else {
                        hi
                    };
                    lemma_parse_attrs_extend(s, ext, nxt, hi);
                }
            } else {
                let nxt = if i < e <= hi {
                    e
                } else {
                    hi
                };
                lemma_parse_attrs_extend(s, ext, nxt, hi);
            }
        }
    }
}

/// Start-tag parsing inside a fixed window is unchanged when the buffer
/// grows.
pub proof fn lemma_parse_tag_extend(
    s: Seq<u8>,
    ext: Seq<u8>,
    lo: int,
    hi: int,
    cfg: ConfigM,
    start: int,
    end: int,
)
    requires
        0 <= lo <= hi <= s.len(),
    ensures
        parse_tag_model(s + ext, lo, hi, cfg, start, end) == parse_tag_model(
            s,
            lo,
            hi,
            cfg,
            start,
            end,
        ),
        end_tag_name_model(s + ext, lo, hi, cfg) == end_tag_name_model(s, lo, hi, cfg),
{
    lemma_tagscan_extend(s, ext, lo, hi, 34);
    lemma_tagscan_ranges(s, lo, hi, 34);
    let ne = name_end(s, lo, hi);
    assert((s + ext).subrange(lo, ne) =~= s.subrange(lo, ne));
    lemma_parse_attrs_extend(s, ext, ne, hi);
}

fn skip_ws_exec(buf: &Vec<u8>, i: usize, hi: usize) -> (r: usize)
    requires
        i <= hi,
        hi <= buf.len(),
    ensures
        r as int == skip_ws(buf@, i as int, hi as int),
        i <= r <= hi,
{
    let mut j: usize = i;
    while j < hi && crate::bytes::byte_is_ws(buf[j])
        invariant
            i <= j <= hi,
            hi <= buf.len(),
            skip_ws(buf@, i as int, hi as int) == skip_ws(buf@, j as int, hi as int),
        decreases hi - j,
    {
        j = j + 1;
    }
    j
}

pub(crate) fn name_end_exec(buf: &Vec<u8>, i: usize, hi: usize) -> (r: usize)
    requires
        i <= hi,
        hi <= buf.len(),
    ensures
        r as int == name_end(buf@, i as int, hi as int),
        i <= r <= hi,
{
    let mut j: usize = i;
    while j < hi && !crate::bytes::byte_is_ws(buf[j]) && buf[j] != 47
        invariant
            i <= j <= hi,
            hi <= buf.len(),
            name_end(buf@, i as int, hi as int) == name_end(buf@, j as int, hi as int),
        decreases hi - j,
    {
        j = j + 1;
    }
    j
}

fn attr_name_end_exec(buf: &Vec<u8>, i: usize, hi: usize) -> (r: usize)
    requires
        i <= hi,
        hi <= buf.len(),
    ensures
        r as int == attr_name_end(buf@, i as int, hi as int),
        i <= r <= hi,
{
    let mut j: usize = i;
    while j < hi && !crate::bytes::byte_is_ws(buf[j]) && buf[j] != 61 && buf[j] != 47
        invariant
            i <= j <= hi,
            hi <= buf.len(),
            attr_name_end(buf@, i as int, hi as int) == attr_name_end(buf@, j as int, hi as int),
        decreases hi - j,
    {
        j = j + 1;
    }
    j
}

fn uq_end_exec(buf: &Vec<u8>, i: usize, hi: usize) -> (r: usize)
    requires
        i <= hi,
        hi <= buf.len(),
    ensures
        r as int == uq_end(buf@, i as int, hi as int),
        i <= r <= hi,
{
    let mut j: usize = i;
    while j < hi && !crate::bytes::byte_is_ws(buf[j])
        invariant
            i <= j <= hi,
            hi <= buf.len(),
            uq_end(buf@, i as int, hi as int) == uq_end(buf@, j as int, hi as int),
        decreases hi - j,
    {
        j = j + 1;
    }
    j
}

fn quote_end_exec(buf: &Vec<u8>, i: usize, hi: usize, qb: u8) -> (r: usize)
    requires
        i <= hi,
        hi <= buf.len(),
    ensures
        r as int == quote_end(buf@, i as int, hi as int, qb),
        i <= r <= hi,
{
    let mut j: usize = i;
    while j < hi && buf[j] != qb
        invariant
            i <= j <= hi,
            hi <= buf.len(),
            quote_end(buf@, i as int, hi as int, qb) == quote_end(buf@, j as int, hi as int, qb),
        decreases hi - j,
    {
        j = j + 1;
    }
    j
}

/// Copy `buf[a..b]` into a fresh vector.
pub fn copy_range(buf: &Vec<u8>, a: usize, b: usize) -> (r: Vec<u8>)
    requires
        a <= b,
        b <= buf.len(),
    ensures
        r@ == buf@.subrange(a as int, b as int),
{
    let mut r: Vec<u8> = Vec::new();
    let mut k: usize = a;
    while k < b
        invariant
            a <= k <= b,
            b <= buf.len(),
            r@ == buf@.subrange(a as int, k as int),
        decreases b - k,
    {
        r.push(buf[k]);
        proof {
            assert(buf@.subrange(a as int, k + 1) =~= buf@.subrange(a as int, k as int).push(
                buf@[k as int],
            ));
        }
        k = k + 1;
    }
    r
}

fn parse_attrs_exec(buf: &Vec<u8>, i: usize, hi: usize) -> (r: (Vec<Attribute>, Vec<
    Diagnostic,
>, bool))
    requires
        i <= hi,
        hi <= buf.len(),
    ensures
        attrs_view(r.0@) == parse_attrs(buf@, i as int, hi as int).attrs,
        diags_view(r.1@) == parse_attrs(buf@, i as int, hi as int).diags,
        r.2 == parse_attrs(buf@, i as int, hi as int).self_closing,
    decreases hi - i,
{
    let ghost target = parse_attrs(buf@, i as int, hi as int);
    let k = skip_ws_exec(buf, i, hi);
    if k >= hi {
        let r: (Vec<Attribute>, Vec<Diagnostic>, bool) = (Vec::new(), Vec::new(), false);
        proof {
            assert(attrs_view(r.0@) =~= target.attrs);
            assert(diags_view(r.1@) =~= target.diags);
        }
        return r;
    }
    if buf[k] == 47 {
        if k + 1 >= hi {
            let r: (Vec<Attribute>, Vec<Diagnostic>, bool) = (Vec::new(), Vec::new(), true);
            proof {
                assert(attrs_view(r.0@) =~= target.attrs);
                assert(diags_view(r.1@) =~= target.diags);
            }
            return r;
        }
        return parse_attrs_exec(buf, k + 1, hi);
    }
    if buf[k] == 61 {
        let sv_raw = skip_value_exec(buf, k + 1, hi);
        let (av, mut dv, sc) = parse_attrs_exec(buf, sv_raw, hi);
        let ghost dvm = diags_view(dv@);
        let mut diags: Vec<Diagnostic> = Vec::new();
        diags.push(Diagnostic { kind: DiagKind::MalformedTag, offset: k });
        diags.append(&mut dv);
        proof {
            assert(diags_view(diags@) =~= seq![
                DiagM { kind: DiagKind::MalformedTag, offset: k as int },
            ] + dvm);
        }
        return (av, diags, sc);
    }
    let ne = attr_name_end_exec(buf, k, hi);
    proof {
        lemma_skip_ws_stop(buf@, i as int, hi as int);
        lemma_tagscan_ranges(buf@, k as int + 1, hi as int, 34);
        assert(attr_name_end(buf@, k as int, hi as int) == attr_name_end(
            buf@,
            k as int + 1,
            hi as int,
        ));
    }
    let name = copy_range(buf, k, ne);
    let e = skip_ws_exec(buf, ne, hi);
    if e < hi && buf[e] == 61 {
        let v = skip_ws_exec(buf, e + 1, hi);
        if v >= hi {
            let attr = Attribute {
                name,
                value: Option::Some(Vec::new()),
                quote: Quote::Unquoted,
                name_offset: k,
                value_offset: hi,
            };
            let mut av: Vec<Attribute> = Vec::new();
            av.push(attr);
            let r: (Vec<Attribute>, Vec<Diagnostic>, bool) = (av, Vec::new(), false);
            proof {
                assert(attrs_view(r.0@) =~= target.attrs);
                assert(diags_view(r.1@) =~= target.diags);
            }
            return r;
        }
        if buf[v] == 34 || buf[v] == 39 {
            let q = if buf[v] == 34 {
                Quote::Double
            } else {
                Quote::Single
            };
            let qe = quote_end_exec(buf, v + 1, hi, buf[v]);
            let nxt = if qe < hi {
                qe + 1
            } else {
                hi
            };
            let attr = Attribute {
                name,
                value: Option::Some(copy_range(buf, v + 1, qe)),
                quote: q,
                name_offset: k,
                value_offset: v + 1,
            };
            let ghost am = attr@;
            let (mut av0, dv, sc) = parse_attrs_exec(buf, nxt, hi);
            let mut av: Vec<Attribute> = Vec::new();
            av.push(attr);
            av.append(&mut av0);
            proof {
                assert(attrs_view(av@) =~= seq![am] + parse_attrs(
                    buf@,
                    nxt as int,
                    hi as int,
                ).attrs);
            }
            return (av, dv, sc);
        }
        let ve = uq_end_exec(buf, v, hi);
        let attr = Attribute {
            name,
            value: Option::Some(copy_range(buf, v, ve)),
            quote: Quote::Unquoted,
            name_offset: k,
            value_offset: v,
        };
        let ghost am = attr@;
        let (mut av0, dv, sc) = parse_attrs_exec(buf, ve, hi);
        let mut av: Vec<Attribute> = Vec::new();
        av.push(attr);
        av.append(&mut av0);
        proof {
            assert(attrs_view(av@) =~= seq![am] + parse_attrs(buf@, ve as int, hi as int).attrs);
        }
        return (av, dv, sc);
    }
    let attr = Attribute {
        name,
        value: Option::None,
        quote: Quote::Unquoted,
        name_offset: k,
        value_offset: 0,
    };
    let ghost am = attr@;
    let (mut av0, dv, sc) = parse_attrs_exec(buf, e, hi);
    let mut av: Vec<Attribute> = Vec::new();
    av.push(attr);
    av.append(&mut av0);
    proof {
        assert(attrs_view(av@) =~= seq![am] + parse_attrs(buf@, e as int, hi as int).attrs);
    }
    (av, dv, sc)
}

fn skip_value_exec(buf: &Vec<u8>, i: usize, hi: usize) -> (r: usize)
    requires
        i <= hi,
        hi <= buf.len(),
    ensures
        r as int == skip_value(buf@, i as int, hi as int),
        i <= r <= hi,
{
    let v = skip_ws_exec(buf, i, hi);
    if v >= hi {
        return hi;
    }
    if buf[v] == 34 || buf[v] == 39 {
        let qe = quote_end_exec(buf, v + 1, hi, buf[v]);
        if qe < hi {
            qe + 1
        } else {
            hi
        }
    } else {
        uq_end_exec(buf, v, hi)
    }
}

/// Flag the second and later occurrence of each case-insensitive attribute
/// name; the attributes themselves are retained.
fn compute_dup_diags(attrs: &Vec<Attribute>) -> (r: Vec<Diagnostic>)
    ensures
        diags_view(r@) == dup_diags(attrs_view(attrs@), attrs_view(attrs@).len() as int),
{
    let ghost am = attrs_view(attrs@);
    let mut r: Vec<Diagnostic> = Vec::new();
    let mut n: usize = 0;
    proof {
        assert(diags_view(r@) =~= dup_diags(am, 0));
    }
    while n < attrs.len()
        invariant
            n <= attrs.len(),
            am == attrs_view(attrs@),
            am.len() == attrs.len(),
            diags_view(r@) == dup_diags(am, n as int),
        decreases attrs.len() - n,
    {
        let ln = crate::bytes::lower_bytes(&attrs[n].name);
        let mut found: bool = false;
        let mut j: usize = 0;
        while j < n
            invariant
                j <= n,
                n < attrs.len(),
                am == attrs_view(attrs@),
                am.len() == attrs.len(),
                ln@ == lower(am[n as int].name),
                found == exists|q: int|
                    0 <= q < j && lower(#[trigger] am[q].name) == lower(am[n as int].name),
            decreases n - j,
        {
            let lj = crate::bytes::lower_bytes(&attrs[j].name);
            if crate::config::bytes_eq(&lj, &ln) {
                proof {
                    assert(lower(am[j as int].name) == lower(am[n as int].name));
                }
                found = true;
            }
            j = j + 1;
        }
        let ghost r_old = diags_view(r@);
        if found {
            r.push(Diagnostic { kind: DiagKind::DuplicateAttribute, offset: attrs[n].name_offset });
            proof {
                assert(has_dup_before(am, n as int));
                assert(diags_view(r@) =~= r_old + seq![
                    DiagM { kind: DiagKind::DuplicateAttribute, offset: am[n as int].name_offset },
                ]);
            }
        } else {
            proof {
                assert(!has_dup_before(am, n as int));
                assert(diags_view(r@) =~= r_old + Seq::<DiagM>::empty());
            }
        }
        n = n + 1;
    }
    r
}

/// Parse one start tag: the content `buf[lo..hi]` between `<` and `>`,
/// with `start..end` as the whole token's span. Returns a best-effort tag
/// and the diagnostics found (malformed pieces, duplicate attributes);
/// parsing never fails.
pub fn parse_tag_exec(
    buf: &Vec<u8>,
    lo: usize,
    hi: usize,
    cfg: &Config,
    start: usize,
    end: usize,
) -> (r: (Tag, Vec<Diagnostic>))
    requires
        lo <= hi,
        hi <= buf.len(),
    ensures
        r.0@ == parse_tag_model(buf@, lo as int, hi as int, cfg@, start as int, end as int).tag,
        diags_view(r.1@) == parse_tag_model(
            buf@,
            lo as int,
            hi as int,
            cfg@,
            start as int,
            end as int,
        ).diags,
{
    let ne = name_end_exec(buf, lo, hi);
    let raw = copy_range(buf, lo, ne);
    let low_raw = crate::bytes::lower_bytes(&raw);
    let raw_text = crate::config::name_set_contains(&cfg.raw_text_elements, &low_raw);
    let name = if matches!(cfg.tag_name_case, TagNameCase::Lower) {
        low_raw
    } else {
        raw
    };
    let (attrs, mut adiags, sc) = parse_attrs_exec(buf, ne, hi);
    let mut dd = compute_dup_diags(&attrs);
    let ghost a_part = diags_view(adiags@);
    let ghost d_part = diags_view(dd@);
    adiags.append(&mut dd);
    proof {
        assert(diags_view(adiags@) =~= a_part + d_part);
    }
    let tag = Tag {
        name,
        attrs,
        self_closing: sc,
        raw_text,
        span: Span { start, end },
    };
    (tag, adiags)
}

/// The case-normalized name of an end tag whose content is `buf[lo..hi]`.
pub fn end_tag_name_exec(buf: &Vec<u8>, lo: usize, hi: usize, cfg: &Config) -> (r: Vec<u8>)
    requires
        lo <= hi,
        hi <= buf.len(),
    ensures
        r@ == end_tag_name_model(buf@, lo as int, hi as int, cfg@),
{
    let ne = name_end_exec(buf, lo, hi);
    let raw = copy_range(buf, lo, ne);
    if matches!(cfg.tag_name_case, TagNameCase::Lower) {
        crate::bytes::lower_bytes(&raw)
    } else {
        raw
    }
}

} // verus!
