use vstd::prelude::*;
use crate::doc::{Doc, DocModel, doc_views};

verus! {

// ASCII bytes the format is built from.
pub const B_LBRACKET: u8 = 91;

pub const B_RBRACKET: u8 = 93;

pub const B_LBRACE: u8 = 123;

pub const B_RBRACE: u8 = 125;

pub const B_COMMA: u8 = 44;

pub const B_QUOTE: u8 = 34;

pub const B_BACKSLASH: u8 = 92;

/// The lowercase hex digit of a value below sixteen.
pub open spec fn hex_digit(n: u8) -> u8
    recommends
        n < 16,
{
    if n < 10 {
        (48 + n) as u8
    } else {
        (87 + n) as u8
    }
}

/// How one byte of an identifier appears inside a JSON string literal:
/// quote and backslash are escaped, control bytes become a `\u00XX`
/// escape, everything else stands for itself.
pub open spec fn esc_byte(b: u8) -> Seq<u8> {
    if b == B_QUOTE {
        seq![B_BACKSLASH, B_QUOTE]
    } else if b == B_BACKSLASH {
        seq![B_BACKSLASH, B_BACKSLASH]
    } else if b < 32 {
        seq![B_BACKSLASH, 117u8, 48u8, 48u8, hex_digit(b / 16), hex_digit(b % 16)]
    } else {
        seq![b]
    }
}

/// A whole identifier inside a JSON string literal.
pub open spec fn escape(s: Seq<u8>) -> Seq<u8>
    decreases s.len(),
{
    if s.len() == 0 {
        Seq::empty()
    } else {
        esc_byte(s[0]) + escape(s.drop_first())
    }
}

/// Escaping distributes over concatenation.
pub proof fn lemma_escape_append(a: Seq<u8>, b: Seq<u8>)
    ensures
        escape(a + b) == escape(a) + escape(b),
    decreases a.len(),
{
    if a.len() == 0 {
        assert(a + b =~= b);
        assert(escape(a) + escape(b) =~= escape(b));
    } else {
        assert((a + b).drop_first() =~= a.drop_first() + b);
        lemma_escape_append(a.drop_first(), b);
        assert(escape(a + b) =~= escape(a) + escape(b));
    }
}

/// Escaping one more byte appends its escape.
pub proof fn lemma_escape_snoc(s: Seq<u8>, b: u8)
    ensures
        escape(s.push(b)) == escape(s) + esc_byte(b),
{
    assert(s.push(b) =~= s + seq![b]);
    lemma_escape_append(s, seq![b]);
    assert(seq![b].drop_first() =~= Seq::<u8>::empty());
    assert(seq![b][0] == b);
    assert(escape(seq![b]) == esc_byte(b) + escape(Seq::<u8>::empty()));
    assert(escape(seq![b]) =~= esc_byte(b));
    assert(escape(s + seq![b]) == escape(s) + escape(seq![b]));
}

/// State of the balance scanner that walks serialized JSON text: nesting
/// depth of braces and brackets, whether the walk stands inside a string
/// literal, and whether the previous byte opened an escape there.
pub struct ScanState {
    pub depth: int,
    pub in_str: bool,
    pub esc: bool,
}

pub open spec fn scan_init() -> ScanState {
    ScanState { depth: 0, in_str: false, esc: false }
}

/// One byte of serialized JSON moves the scanner: string literals swallow
/// everything but an unescaped closing quote; outside them, braces and
/// brackets change the depth.
pub open spec fn scan_step(st: ScanState, b: u8) -> ScanState {
    if st.in_str {
        if st.esc {
            ScanState { esc: false, ..st }
        } else if b == B_BACKSLASH {
            ScanState { esc: true, ..st }
        } else if b == B_QUOTE {
            ScanState { in_str: false, ..st }
        } else {
            st
        }
    } else {
        if b == B_QUOTE {
            ScanState { in_str: true, ..st }
        } else if b == B_LBRACE || b == B_LBRACKET {
            ScanState { depth: st.depth + 1, ..st }
        } else if b == B_RBRACE || b == B_RBRACKET {
            ScanState { depth: st.depth - 1, ..st }
        } else {
            st
        }
    }
}

pub open spec fn scan(st: ScanState, s: Seq<u8>) -> ScanState
    decreases s.len(),
{
    if s.len() == 0 {
        st
    } else {
        scan(scan_step(st, s[0]), s.drop_first())
    }
}

/// Scanning a concatenation scans the parts in turn.
pub proof fn lemma_scan_append(st: ScanState, a: Seq<u8>, b: Seq<u8>)
    ensures
        scan(st, a + b) == scan(scan(st, a), b),
    decreases a.len(),
{
    if a.len() == 0 {
        assert(a + b =~= b);
    } else {
        assert((a + b).drop_first() =~= a.drop_first() + b);
        lemma_scan_append(scan_step(st, a[0]), a.drop_first(), b);
    }
}

/// Scanning one more byte steps the scanner once.
pub proof fn lemma_scan_snoc(st: ScanState, s: Seq<u8>, b: u8)
    ensures
        scan(st, s.push(b)) == scan_step(scan(st, s), b),
{
    assert(s.push(b) =~= s + seq![b]);
    lemma_scan_append(st, s, seq![b]);
    assert(seq![b].drop_first() =~= Seq::<u8>::empty());
    assert(seq![b][0] == b);
    assert(scan(scan(st, s), seq![b]) == scan(scan_step(scan(st, s), b), seq![b].drop_first()));
    assert(scan(scan(st, s), seq![b]) == scan_step(scan(st, s), b));
}

/// A well-formed serialized source object: it opens with a brace, the
/// scanner returns to depth zero exactly at its last byte and at no
/// earlier point, and it ends outside any string literal.
pub open spec fn valid_source(s: Seq<u8>) -> bool {
    &&& s.len() >= 2
    &&& s[0] == B_LBRACE
    &&& scan(scan_init(), s) == scan_init()
    &&& forall|i: int| 0 < i < s.len() ==> (#[trigger] scan(scan_init(), s.take(i))).depth > 0
}

/// A reduced document the codec can frame: any identifier, a well-formed
/// source text.
pub open spec fn doc_wf(d: DocModel) -> bool {
    valid_source(d.source)
}

pub open spec fn docs_wf(ds: Seq<DocModel>) -> bool {
    forall|i: int| 0 <= i < ds.len() ==> doc_wf(#[trigger] ds[i])
}

/// The bytes that open a framed document, up to its identifier.
pub open spec fn id_prefix() -> Seq<u8> {
    seq![123u8, 34u8, 95u8, 105u8, 100u8, 34u8, 58u8, 34u8]
}

/// The bytes between a framed identifier and its source text.
pub open spec fn src_mid() -> Seq<u8> {
    seq![34u8, 44u8, 34u8, 95u8, 115u8, 111u8, 117u8, 114u8, 99u8, 101u8, 34u8, 58u8]
}

/// One reduced document as the export file holds it: a two-field JSON
/// object of identifier and source.
pub open spec fn render_doc(d: DocModel) -> Seq<u8> {
    id_prefix() + escape(d.id) + src_mid() + d.source + seq![B_RBRACE]
}

/// The comma-separated run of framed documents between the array brackets.
pub open spec fn render_docs_inner(ds: Seq<DocModel>) -> Seq<u8>
    decreases ds.len(),
{
    if ds.len() == 0 {
        Seq::empty()
    } else if ds.len() == 1 {
        render_doc(ds[0])
    } else {
        render_docs_inner(ds.drop_last()) + seq![B_COMMA] + render_doc(ds.last())
    }
}

/// A whole export file: a JSON array of framed documents.
pub open spec fn render_array(ds: Seq<DocModel>) -> Seq<u8> {
    seq![B_LBRACKET] + render_docs_inner(ds) + seq![B_RBRACKET]
}

/// Append the escaped form of one byte.
fn push_esc_byte(out: &mut Vec<u8>, b: u8)
    ensures
        final(out)@ == old(out)@ + esc_byte(b),
{
    if b == B_QUOTE {
        out.push(B_BACKSLASH);
        out.push(B_QUOTE);
    } else if b == B_BACKSLASH {
        out.push(B_BACKSLASH);
        out.push(B_BACKSLASH);
    } else if b < 32 {
        out.push(B_BACKSLASH);
        out.push(117);
        out.push(48);
        out.push(48);
        proof {
            assert(b / 16 < 16 && b % 16 < 16) by (nonlinear_arith);
        }
        let hi = b / 16;
        let lo = b % 16;
        out.push(if hi < 10 { 48 + hi } else { 87 + hi });
        out.push(if lo < 10 { 48 + lo } else { 87 + lo });
    } else {
        out.push(b);
    }
    assert(out@ =~= old(out)@ + esc_byte(b));
}

/// Append a whole identifier in its escaped form.
fn push_escaped(out: &mut Vec<u8>, s: &Vec<u8>)
    ensures
        final(out)@ == old(out)@ + escape(s@),
{
    let mut i: usize = 0;
    while i < s.len()
        invariant
            i <= s@.len(),
            out@ == old(out)@ + escape(s@.take(i as int)),
        decreases s@.len() - i,
    {
        proof {
            lemma_escape_snoc(s@.take(i as int), s@[i as int]);
            assert(s@.take(i as int).push(s@[i as int]) =~= s@.take(i + 1));
        }
        push_esc_byte(out, s[i]);
        i = i + 1;
    }
    proof {
        assert(s@.take(s@.len() as int) =~= s@);
    }
}

/// Append the opening frame of a document.
fn push_id_prefix(out: &mut Vec<u8>)
    ensures
        final(out)@ == old(out)@ + id_prefix(),
{
    out.push(123);
    out.push(34);
    out.push(95);
    out.push(105);
    out.push(100);
    out.push(34);
    out.push(58);
    out.push(34);
    assert(out@ =~= old(out)@ + id_prefix());
}

/// Append the frame between identifier and source.
fn push_src_mid(out: &mut Vec<u8>)
    ensures
        final(out)@ == old(out)@ + src_mid(),
{
    out.push(34);
    out.push(44);
    out.push(34);
    out.push(95);
    out.push(115);
    out.push(111);
    out.push(117);
    out.push(114);
    out.push(99);
    out.push(101);
    out.push(34);
    out.push(58);
    assert(out@ =~= old(out)@ + src_mid());
}

/// Append all bytes of `src`.
pub(crate) fn push_all(out: &mut Vec<u8>, src: &Vec<u8>)
    ensures
        final(out)@ == old(out)@ + src@,
{
    let mut i: usize = 0;
    while i < src.len()
        invariant
            i <= src@.len(),
            out@ == old(out)@ + src@.take(i as int),
        decreases src@.len() - i,
    {
        out.push(src[i]);
        proof {
            assert(old(out)@ + src@.take(i as int) + seq![src@[i as int]] =~= old(out)@
                + src@.take(i + 1));
        }
        i = i + 1;
    }
    proof {
        assert(src@.take(src@.len() as int) =~= src@);
    }
}

/// Append one framed document to the export file bytes.
pub fn render_doc_into(out: &mut Vec<u8>, d: &Doc)
    ensures
        final(out)@ == old(out)@ + render_doc(d@),
{
    push_id_prefix(out);
    push_escaped(out, &d.id);
    push_src_mid(out);
    push_all(out, &d.source);
    out.push(B_RBRACE);
    assert(out@ =~= old(out)@ + render_doc(d@));
}

/// Decide whether `s` is a well-formed serialized source object, walking
/// it once with the balance scanner.
pub fn check_source(s: &Vec<u8>) -> (r: bool)
    ensures
        r == valid_source(s@),
{
    if s.len() < 2 {
        return false;
    }
    if s[0] != B_LBRACE {
        return false;
    }
    let mut depth: usize = 0;
    let mut in_str: bool = false;
    let mut esc: bool = false;
    let mut i: usize = 0;
    while i < s.len()
        invariant
            i <= s@.len(),
            s@.len() >= 2,
            s@[0] == B_LBRACE,
            scan(scan_init(), s@.take(i as int)) == (ScanState {
                depth: depth as int,
                in_str: in_str,
                esc: esc,
            }),
            forall|j: int|
                0 < j <= i && j < s@.len() ==> (#[trigger] scan(
                    scan_init(),
                    s@.take(j),
                )).depth > 0,
            i > 0 && i < s@.len() ==> depth > 0,
            depth <= i,
        decreases s@.len() - i,
    {
        let b = s[i];
        proof {
            lemma_scan_snoc(scan_init(), s@.take(i as int), s@[i as int]);
            assert(s@.take(i as int).push(s@[i as int]) =~= s@.take(i + 1));
        }
        if in_str {
            if esc {
                esc = false;
            } else if b == B_BACKSLASH {
                esc = true;
            } else if b == B_QUOTE {
                in_str = false;
            }
        } else {
            if b == B_QUOTE {
                in_str = true;
            } else if b == B_LBRACE || b == B_LBRACKET {
                depth = depth + 1;
            } else if b == B_RBRACE || b == B_RBRACKET {
                if depth == 0 {
                    // The scanner left balance below zero: not a
                    // serialized value.
                    return false;
                }
                depth = depth - 1;
            }
        }
        i = i + 1;
        if depth == 0 && i < s.len() {
            // Balance closed before the end: a shorter prefix already
            // forms the whole value.
            return false;
        }
    }
    proof {
        assert(s@.take(s@.len() as int) =~= s@);
    }
    depth == 0 && !in_str && !esc
}

/// Construct a reduced document after checking that its source text is
/// well formed; a document the codec could not frame is refused.
pub fn doc_new(id: Vec<u8>, source: Vec<u8>) -> (r: Option<Doc>)
    ensures
        match r {
            Some(d) => d@.id == id@ && d@.source == source@ && doc_wf(d@),
            None => !valid_source(source@),
        },
{
    if check_source(&source) {
        Some(Doc { id, source })
    } else {
        None
    }
}

/// The value of a lowercase hex digit byte, if it is one.
fn hex_val(b: u8) -> (r: Option<u8>)
    ensures
        r matches Some(v) ==> v < 16 && hex_digit(v) == b,
        r is None ==> forall|v: u8| v < 16 ==> hex_digit(v) != b,
{
    if 48 <= b && b <= 57 {
        Some(b - 48)
    } else if 97 <= b && b <= 102 {
        Some(b - 87)
    } else {
        None
    }
}

/// Whether the opening frame of a document stands at `pos`.
fn match_id_prefix(s: &Vec<u8>, pos: usize) -> (r: bool)
    requires
        pos <= s@.len(),
    ensures
        r ==> pos + 8 <= s@.len() && s@.subrange(pos as int, pos + 8) == id_prefix(),
        pos + 8 <= s@.len() && s@.subrange(pos as int, pos + 8) == id_prefix() ==> r,
{
    if s.len() - pos < 8 {
        return false;
    }
    proof {
        if s@.subrange(pos as int, pos + 8) == id_prefix() {
            assert forall|t: int| 0 <= t < 8 implies s@[pos + t] == id_prefix()[t] by {
                assert(s@.subrange(pos as int, pos + 8)[t] == s@[pos + t]);
            }
        }
    }
    let r = s[pos] == 123 && s[pos + 1] == 34 && s[pos + 2] == 95 && s[pos + 3] == 105 && s[pos
        + 4] == 100 && s[pos + 5] == 34 && s[pos + 6] == 58 && s[pos + 7] == 34;
    proof {
        if r {
            assert(s@.subrange(pos as int, pos + 8) =~= id_prefix());
        }
    }
    r
}

/// Whether the frame between identifier and source stands at `pos`.
fn match_src_mid(s: &Vec<u8>, pos: usize) -> (r: bool)
    requires
        pos <= s@.len(),
    ensures
        r ==> pos + 12 <= s@.len() && s@.subrange(pos as int, pos + 12) == src_mid(),
        pos + 12 <= s@.len() && s@.subrange(pos as int, pos + 12) == src_mid() ==> r,
{
    if s.len() - pos < 12 {
        return false;
    }
    proof {
        if s@.subrange(pos as int, pos + 12) == src_mid() {
            assert forall|t: int| 0 <= t < 12 implies s@[pos + t] == src_mid()[t] by {
                assert(s@.subrange(pos as int, pos + 12)[t] == s@[pos + t]);
            }
        }
    }
    let r = s[pos] == 34 && s[pos + 1] == 44 && s[pos + 2] == 34 && s[pos + 3] == 95 && s[pos + 4]
        == 115 && s[pos + 5] == 111 && s[pos + 6] == 117 && s[pos + 7] == 114 && s[pos + 8] == 99
        && s[pos + 9] == 101 && s[pos + 10] == 34 && s[pos + 11] == 58;
    proof {
        if r {
            assert(s@.subrange(pos as int, pos + 12) =~= src_mid());
        }
    }
    r
}

/// The stream at `from` holds an escaped identifier `idv`, its closing
/// quote, and then `rest`.
pub open spec fn holds_escaped_id(s: Seq<u8>, from: int, idv: Seq<u8>, rest: Seq<u8>) -> bool {
    s.skip(from) == escape(idv) + seq![B_QUOTE] + rest
}

/// Escaping, decomposed at a position: the remaining identifier escapes
/// to the escape of its next byte followed by the rest.
proof fn lemma_escape_skip(id: Seq<u8>, j: int)
    requires
        0 <= j < id.len(),
    ensures
        escape(id.skip(j)) == esc_byte(id[j]) + escape(id.skip(j + 1)),
{
    assert(id.skip(j)[0] == id[j]);
    assert(id.skip(j).drop_first() =~= id.skip(j + 1));
    assert(id.skip(j).len() > 0);
}

/// Where a reader stands inside a stream that holds an escaped
/// identifier: the bytes at the cursor are the escape of the next
/// identifier byte, or the closing quote once the identifier is spent.
proof fn lemma_expected_at(s: Seq<u8>, from: int, p: int, out: Seq<u8>, idv: Seq<u8>, rest: Seq<u8>)
    requires
        0 <= from <= p <= s.len(),
        s.subrange(from, p) == escape(out),
        holds_escaped_id(s, from, idv, rest),
        out.len() <= idv.len(),
        out == idv.take(out.len() as int),
    ensures
        out.len() == idv.len() ==> p < s.len() && s[p] == B_QUOTE,
        out.len() < idv.len() ==> p + esc_byte(idv[out.len() as int]).len() < s.len()
            && s.subrange(p, p + esc_byte(idv[out.len() as int]).len()) == esc_byte(
            idv[out.len() as int],
        ),
{
    let j = out.len() as int;
    assert(idv.take(j) + idv.skip(j) =~= idv);
    lemma_escape_append(idv.take(j), idv.skip(j));
    let tail = escape(idv.skip(j)) + seq![B_QUOTE] + rest;
    assert(escape(idv) + seq![B_QUOTE] + rest =~= escape(out) + tail);
    assert(s.skip(from).len() == s.len() - from);
    assert(escape(out).len() == p - from);
    assert forall|t: int| 0 <= t < tail.len() implies s[p + t] == tail[t] by {
        assert(s.skip(from)[(p - from) + t] == s[p + t]);
        assert((escape(out) + tail)[escape(out).len() + t] == tail[t]);
    }
    assert(s.len() - p == tail.len());
    if j == idv.len() {
        assert(idv.skip(j) =~= Seq::<u8>::empty());
        assert(escape(idv.skip(j)) =~= Seq::<u8>::empty());
        assert(tail[0] == B_QUOTE);
        assert(s[p] == B_QUOTE);
    } else {
        lemma_escape_skip(idv, j);
        let e = esc_byte(idv[j]);
        assert(tail =~= e + (escape(idv.skip(j + 1)) + seq![B_QUOTE] + rest));
        assert(tail.len() >= e.len() + 1);
        assert forall|t: int| 0 <= t < e.len() implies s.subrange(p, p + e.len())[t] == e[t] by {
            assert(s.subrange(p, p + e.len())[t] == s[p + t]);
            assert(tail[t] == e[t]);
        }
        assert(s.subrange(p, p + e.len()) =~= e);
    }
}

/// Read an escaped identifier from `from` up to (not including) its
/// closing quote; only the codec's own canonical escapes are accepted, so
/// the consumed bytes are exactly the escape of the result, and every
/// stream that holds an escaped identifier is accepted.
fn parse_id(s: &Vec<u8>, from: usize) -> (r: Option<(Vec<u8>, usize)>)
    requires
        from <= s@.len(),
    ensures
        r matches Some((id, end)) ==> {
            &&& from <= end < s@.len()
            &&& s@.subrange(from as int, end as int) == escape(id@)
            &&& s@[end as int] == B_QUOTE
        },
        forall|idv: Seq<u8>, rest: Seq<u8>|
            #[trigger] holds_escaped_id(s@, from as int, idv, rest) ==> r is Some,
{
    let mut out: Vec<u8> = Vec::new();
    let mut p = from;
    proof {
        assert(s@.subrange(from as int, from as int) =~= escape(out@));
    }
    loop
        invariant
            from <= p <= s@.len(),
            s@.subrange(from as int, p as int) == escape(out@),
            forall|idv: Seq<u8>, rest: Seq<u8>|
                #[trigger] holds_escaped_id(s@, from as int, idv, rest) ==> out@.len() <= idv.len()
                    && out@ == idv.take(out@.len() as int),
        decreases s@.len() - p,
    {
        let ghost prev_out = out@;
        let ghost pp = p as int;
        if p >= s.len() {
            proof {
                assert forall|idv: Seq<u8>, rest: Seq<u8>|
                    !holds_escaped_id(s@, from as int, idv, rest) by {
                    if holds_escaped_id(s@, from as int, idv, rest) {
                        lemma_expected_at(s@, from as int, pp, prev_out, idv, rest);
                    }
                }
            }
            return None;
        }
        let b = s[p];
        if b == B_QUOTE {
            return Some((out, p));
        } else if b == B_BACKSLASH {
            // Under any hypothesis the next identifier byte is escaped.
            proof {
                assert forall|idv: Seq<u8>, rest: Seq<u8>|
                    #[trigger] holds_escaped_id(s@, from as int, idv, rest) implies prev_out.len()
                    < idv.len() && (idv[prev_out.len() as int] == B_QUOTE
                    || idv[prev_out.len() as int] == B_BACKSLASH || idv[prev_out.len() as int]
                    < 32) && pp + esc_byte(idv[prev_out.len() as int]).len() < s@.len() by {
                    lemma_expected_at(s@, from as int, pp, prev_out, idv, rest);
                    if prev_out.len() < idv.len() {
                        let c0 = idv[prev_out.len() as int];
                        let e = esc_byte(c0);
                        assert(s@.subrange(pp, pp + e.len())[0] == s@[pp]);
                        assert(e[0] == B_BACKSLASH);
                    }
                }
            }
            if s.len() - p < 2 {
                proof {
                    assert forall|idv: Seq<u8>, rest: Seq<u8>|
                        !holds_escaped_id(s@, from as int, idv, rest) by {
                        if holds_escaped_id(s@, from as int, idv, rest) {
                            assert(esc_byte(idv[prev_out.len() as int]).len() >= 2);
                        }
                    }
                }
                return None;
            }
            let c = s[p + 1];
            proof {
                assert forall|idv: Seq<u8>, rest: Seq<u8>|
                    #[trigger] holds_escaped_id(s@, from as int, idv, rest) implies esc_byte(
                    idv[prev_out.len() as int],
                )[1] == c by {
                    lemma_expected_at(s@, from as int, pp, prev_out, idv, rest);
                    let e = esc_byte(idv[prev_out.len() as int]);
                    assert(e.len() >= 2);
                    assert(s@.subrange(pp, pp + e.len())[1] == s@[pp + 1]);
                }
            }
            if c == B_QUOTE || c == B_BACKSLASH {
                proof {
                    lemma_escape_snoc(prev_out, c);
                    assert(s@.subrange(pp, pp + 2) =~= esc_byte(c));
                    assert(s@.subrange(from as int, pp + 2) =~= s@.subrange(from as int, pp)
                        + s@.subrange(pp, pp + 2));
                    assert forall|idv: Seq<u8>, rest: Seq<u8>|
                        #[trigger] holds_escaped_id(s@, from as int, idv, rest) implies prev_out.push(
                        c,
                    ).len() <= idv.len() && prev_out.push(c) == idv.take(
                        prev_out.push(c).len() as int,
                    ) by {
                        let c0 = idv[prev_out.len() as int];
                        assert(esc_byte(c0)[1] == c);
                        assert(c0 == c);
                        assert(idv.take(prev_out.len() as int + 1) =~= idv.take(
                            prev_out.len() as int,
                        ).push(c0));
                    }
                }
                out.push(c);
                p = p + 2;
            } else if c == 117 {
                if s.len() - p < 6 {
                    proof {
                        assert forall|idv: Seq<u8>, rest: Seq<u8>|
                            !holds_escaped_id(s@, from as int, idv, rest) by {
                            if holds_escaped_id(s@, from as int, idv, rest) {
                                let c0 = idv[prev_out.len() as int];
                                assert(esc_byte(c0)[1] == 117);
                                assert(c0 < 32);
                                assert(esc_byte(c0).len() == 6);
                            }
                        }
                    }
                    return None;
                }
                proof {
                    assert forall|idv: Seq<u8>, rest: Seq<u8>|
                        #[trigger] holds_escaped_id(s@, from as int, idv, rest) implies {
                        let c0 = idv[prev_out.len() as int];
                        &&& c0 < 32
                        &&& s@[pp + 2] == 48
                        &&& s@[pp + 3] == 48
                        &&& s@[pp + 4] == hex_digit(c0 / 16)
                        &&& s@[pp + 5] == hex_digit(c0 % 16)
                    } by {
                        lemma_expected_at(s@, from as int, pp, prev_out, idv, rest);
                        let c0 = idv[prev_out.len() as int];
                        let e = esc_byte(c0);
                        assert(e[1] == 117);
                        assert(c0 < 32);
                        assert(s@.subrange(pp, pp + 6)[2] == s@[pp + 2]);
                        assert(s@.subrange(pp, pp + 6)[3] == s@[pp + 3]);
                        assert(s@.subrange(pp, pp + 6)[4] == s@[pp + 4]);
                        assert(s@.subrange(pp, pp + 6)[5] == s@[pp + 5]);
                    }
                }
                if s[p + 2] != 48 || s[p + 3] != 48 {
                    return None;
                }
                let h1 = match hex_val(s[p + 4]) {
                    Some(v) => v,
                    None => {
                        proof {
                            assert forall|idv: Seq<u8>, rest: Seq<u8>|
                                !holds_escaped_id(s@, from as int, idv, rest) by {
                                if holds_escaped_id(s@, from as int, idv, rest) {
                                    let c0 = idv[prev_out.len() as int];
                                    assert(c0 / 16 < 16) by (nonlinear_arith);
                                    assert(hex_digit(c0 / 16) != s@[pp + 4]);
                                }
                            }
                        }
                        return None;
                    },
                };
                let h2 = match hex_val(s[p + 5]) {
                    Some(v) => v,
                    None => {
                        proof {
                            assert forall|idv: Seq<u8>, rest: Seq<u8>|
                                !holds_escaped_id(s@, from as int, idv, rest) by {
                                if holds_escaped_id(s@, from as int, idv, rest) {
                                    let c0 = idv[prev_out.len() as int];
                                    assert(c0 % 16 < 16) by (nonlinear_arith);
                                    assert(hex_digit(c0 % 16) != s@[pp + 5]);
                                }
                            }
                        }
                        return None;
                    },
                };
                let v = h1 * 16 + h2;
                proof {
                    assert forall|idv: Seq<u8>, rest: Seq<u8>|
                        #[trigger] holds_escaped_id(s@, from as int, idv, rest) implies idv[prev_out.len() as int]
                        == v by {
                        let c0 = idv[prev_out.len() as int];
                        assert(c0 / 16 < 16 && c0 % 16 < 16) by (nonlinear_arith);
                        assert(hex_digit(c0 / 16) == hex_digit(h1));
                        assert(c0 / 16 == h1);
                        assert(hex_digit(c0 % 16) == hex_digit(h2));
                        assert(c0 % 16 == h2);
                        assert(c0 == 16 * (c0 / 16) + c0 % 16) by (nonlinear_arith);
                    }
                }
                if v >= 32 {
                    proof {
                        assert forall|idv: Seq<u8>, rest: Seq<u8>|
                            !holds_escaped_id(s@, from as int, idv, rest) by {
                            if holds_escaped_id(s@, from as int, idv, rest) {
                                assert(idv[prev_out.len() as int] < 32);
                            }
                        }
                    }
                    return None;
                }
                proof {
                    vstd::arithmetic::div_mod::lemma_fundamental_div_mod_converse(
                        v as int,
                        16,
                        h1 as int,
                        h2 as int,
                    );
                    lemma_escape_snoc(prev_out, v);
                    assert(esc_byte(v) == seq![
                        B_BACKSLASH,
                        117u8,
                        48u8,
                        48u8,
                        hex_digit(v / 16),
                        hex_digit(v % 16),
                    ]);
                    assert(s@.subrange(pp, pp + 6) =~= esc_byte(v));
                    assert(s@.subrange(from as int, pp + 6) =~= s@.subrange(from as int, pp)
                        + s@.subrange(pp, pp + 6));
                    assert forall|idv: Seq<u8>, rest: Seq<u8>|
                        #[trigger] holds_escaped_id(s@, from as int, idv, rest) implies prev_out.push(
                        v,
                    ).len() <= idv.len() && prev_out.push(v) == idv.take(
                        prev_out.push(v).len() as int,
                    ) by {
                        assert(idv[prev_out.len() as int] == v);
                        assert(idv.take(prev_out.len() as int + 1) =~= idv.take(
                            prev_out.len() as int,
                        ).push(v));
                    }
                }
                out.push(v);
                p = p + 6;
            } else {
                proof {
                    assert forall|idv: Seq<u8>, rest: Seq<u8>|
                        !holds_escaped_id(s@, from as int, idv, rest) by {
                        if holds_escaped_id(s@, from as int, idv, rest) {
                            let c0 = idv[prev_out.len() as int];
                            assert(esc_byte(c0)[1] == c);
                        }
                    }
                }
                return None;
            }
        } else if b < 32 {
            proof {
                assert forall|idv: Seq<u8>, rest: Seq<u8>|
                    !holds_escaped_id(s@, from as int, idv, rest) by {
                    if holds_escaped_id(s@, from as int, idv, rest) {
                        lemma_expected_at(s@, from as int, pp, prev_out, idv, rest);
                        if prev_out.len() < idv.len() {
                            let e = esc_byte(idv[prev_out.len() as int]);
                            assert(s@.subrange(pp, pp + e.len())[0] == s@[pp]);
                        }
                    }
                }
            }
            return None;
        } else {
            proof {
                lemma_escape_snoc(prev_out, b);
                assert(s@.subrange(pp, pp + 1) =~= esc_byte(b));
                assert(s@.subrange(from as int, pp + 1) =~= s@.subrange(from as int, pp)
                    + s@.subrange(pp, pp + 1));
                assert forall|idv: Seq<u8>, rest: Seq<u8>|
                    #[trigger] holds_escaped_id(s@, from as int, idv, rest) implies prev_out.push(
                    b,
                ).len() <= idv.len() && prev_out.push(b) == idv.take(
                    prev_out.push(b).len() as int,
                ) by {
                    lemma_expected_at(s@, from as int, pp, prev_out, idv, rest);
                    let c0 = idv[prev_out.len() as int];
                    let e = esc_byte(c0);
                    assert(s@.subrange(pp, pp + e.len())[0] == s@[pp]);
                    assert(e[0] == b);
                    assert(c0 == b);
                    assert(idv.take(prev_out.len() as int + 1) =~= idv.take(prev_out.len() as int).push(
                        c0,
                    ));
                }
            }
            out.push(b);
            p = p + 1;
        }
    }
}

/// The stream at `from` holds a well-formed serialized source object
/// `srcv` followed by `rest`.
pub open spec fn holds_source(s: Seq<u8>, from: int, srcv: Seq<u8>, rest: Seq<u8>) -> bool {
    valid_source(srcv) && s.skip(from) == srcv + rest
}

/// Read one serialized source object from `from`: the scanner walks until
/// the balance first returns to zero, which by construction yields a
/// well-formed source text equal to the consumed bytes; every stream that
/// holds a well-formed source object is accepted.
fn scan_source(s: &Vec<u8>, from: usize) -> (r: Option<(Vec<u8>, usize)>)
    requires
        from <= s@.len(),
    ensures
        r matches Some((src, end)) ==> {
            &&& from < end <= s@.len()
            &&& src@ == s@.subrange(from as int, end as int)
            &&& valid_source(src@)
        },
        forall|srcv: Seq<u8>, rest: Seq<u8>|
            #[trigger] holds_source(s@, from as int, srcv, rest) ==> r is Some,
{
    if from >= s.len() {
        proof {
            assert forall|srcv: Seq<u8>, rest: Seq<u8>|
                !holds_source(s@, from as int, srcv, rest) by {
                if holds_source(s@, from as int, srcv, rest) {
                    assert(s@.skip(from as int).len() == s@.len() - from);
                    assert(srcv.len() >= 2);
                }
            }
        }
        return None;
    }
    if s[from] != B_LBRACE {
        proof {
            assert forall|srcv: Seq<u8>, rest: Seq<u8>|
                !holds_source(s@, from as int, srcv, rest) by {
                if holds_source(s@, from as int, srcv, rest) {
                    assert(s@.skip(from as int)[0] == s@[from as int]);
                    assert((srcv + rest)[0] == srcv[0]);
                }
            }
        }
        return None;
    }
    let mut src: Vec<u8> = Vec::new();
    let mut depth: usize = 0;
    let mut in_str: bool = false;
    let mut esc: bool = false;
    let mut p = from;
    proof {
        assert(src@ =~= s@.subrange(from as int, from as int));
        assert(scan(scan_init(), src@) == scan_init());
    }
    loop
        invariant
            from <= p <= s@.len(),
            s@.len() >= 1,
            from < s@.len(),
            s@[from as int] == B_LBRACE,
            src@ == s@.subrange(from as int, p as int),
            scan(scan_init(), src@) == (ScanState {
                depth: depth as int,
                in_str: in_str,
                esc: esc,
            }),
            esc ==> in_str,
            p > from ==> depth >= 1,
            forall|t: int|
                0 < t < src@.len() ==> (#[trigger] scan(scan_init(), src@.take(t))).depth > 0,
            depth <= p - from,
            forall|srcv: Seq<u8>, rest: Seq<u8>|
                #[trigger] holds_source(s@, from as int, srcv, rest) ==> p - from <= srcv.len()
                    && src@ == srcv.take(p - from),
        decreases s@.len() - p,
    {
        let ghost pp = p as int;
        let ghost prev_collected = src@;
        proof {
            // Under any hypothesis the whole source is not yet consumed:
            // its last byte closes the balance, and the loop would have
            // stopped there.
            assert forall|srcv: Seq<u8>, rest: Seq<u8>|
                #[trigger] holds_source(s@, from as int, srcv, rest) implies pp - from
                < srcv.len() && pp < s@.len() && s@[pp] == srcv[pp - from] by {
                assert(srcv.take(srcv.len() as int) =~= srcv);
                if pp - from == srcv.len() {
                    assert(scan(scan_init(), prev_collected) == scan_init());
                    assert(pp > from);
                }
                assert(s@.skip(from as int).len() == s@.len() - from);
                assert(s@.skip(from as int)[pp - from] == s@[pp]);
                assert((srcv + rest)[pp - from] == srcv[pp - from]);
            }
        }
        if p >= s.len() {
            proof {
                assert forall|srcv: Seq<u8>, rest: Seq<u8>|
                    !holds_source(s@, from as int, srcv, rest) by {
                    if holds_source(s@, from as int, srcv, rest) {
                        assert(pp < s@.len());
                    }
                }
            }
            return None;
        }
        let b = s[p];
        let ghost prev_src = src@;
        proof {
            lemma_scan_snoc(scan_init(), src@, b);
            assert(src@.push(b) =~= s@.subrange(from as int, p + 1));
        }
        src.push(b);
        if in_str {
            if esc {
                esc = false;
            } else if b == B_BACKSLASH {
                esc = true;
            } else if b == B_QUOTE {
                in_str = false;
            }
        } else {
            if b == B_QUOTE {
                in_str = true;
            } else if b == B_LBRACE || b == B_LBRACKET {
                depth = depth + 1;
            } else if b == B_RBRACE || b == B_RBRACKET {
                // Balance below one never happens: the loop stops the
                // moment the balance reaches zero.
                depth = depth - 1;
            }
        }
        p = p + 1;
        proof {
            assert forall|t: int|
                0 < t < src@.len() implies (#[trigger] scan(scan_init(), src@.take(t))).depth
                > 0 by {
                if t < prev_src.len() {
                    assert(src@.take(t) =~= prev_src.take(t));
                } else {
                    assert(src@.take(t) =~= prev_src);
                }
            }
            assert forall|srcv: Seq<u8>, rest: Seq<u8>|
                #[trigger] holds_source(s@, from as int, srcv, rest) implies p - from
                <= srcv.len() && src@ == srcv.take(p - from) by {
                assert(b == srcv[pp - from]);
                assert(srcv.take(pp - from + 1) =~= srcv.take(pp - from).push(srcv[pp - from]));
                assert(src@ =~= prev_collected.push(b));
            }
        }
        if depth == 0 {
            proof {
                assert(valid_source(src@));
            }
            return Some((src, p));
        }
    }
}

/// The stream at `start` holds one framed well-formed document `d`
/// followed by `rest`.
pub open spec fn holds_doc(s: Seq<u8>, start: int, d: DocModel, rest: Seq<u8>) -> bool {
    doc_wf(d) && s.skip(start) == render_doc(d) + rest
}

/// The comma-separated run of a concatenation: the two runs joined by a
/// comma, when both sides are non-empty.
proof fn lemma_inner_concat(a: Seq<DocModel>, b: Seq<DocModel>)
    requires
        a.len() > 0,
        b.len() > 0,
    ensures
        render_docs_inner(a + b) == render_docs_inner(a) + seq![B_COMMA] + render_docs_inner(b),
    decreases b.len(),
{
    if b.len() == 1 {
        assert((a + b).drop_last() =~= a);
        assert((a + b).last() == b[0]);
        assert((a + b).len() > 1);
        assert(render_docs_inner(b) == render_doc(b[0]));
    } else {
        assert((a + b).drop_last() =~= a + b.drop_last());
        assert((a + b).last() == b.last());
        lemma_inner_concat(a, b.drop_last());
        assert(render_docs_inner(a + b) == render_docs_inner(a + b.drop_last()) + seq![B_COMMA]
            + render_doc(b.last()));
        assert(render_docs_inner(b) == render_docs_inner(b.drop_last()) + seq![B_COMMA]
            + render_doc(b.last()));
        assert(render_docs_inner(a + b) =~= render_docs_inner(a) + seq![B_COMMA]
            + render_docs_inner(b));
    }
}

/// Read one framed document beginning at `start`. On success the consumed
/// bytes are exactly the render of the returned document, so the parser
/// accepts nothing the exporter would not have written; every stream that
/// holds a framed document is accepted.
fn parse_doc(s: &Vec<u8>, start: usize) -> (r: Option<(Doc, usize)>)
    requires
        start <= s@.len(),
    ensures
        r matches Some((d, end)) ==> {
            &&& start < end <= s@.len()
            &&& s@.subrange(start as int, end as int) == render_doc(d@)
            &&& doc_wf(d@)
        },
        forall|d: DocModel, rest: Seq<u8>|
            #[trigger] holds_doc(s@, start as int, d, rest) ==> r is Some,
{
    let n = s.len();
    proof {
        // Under any hypothesis, split the framed document around the
        // cursor positions the readers below will reach.
        assert forall|d: DocModel, rest: Seq<u8>|
            #[trigger] holds_doc(s@, start as int, d, rest) implies {
            &&& start + 8 <= s@.len()
            &&& s@.subrange(start as int, start + 8) == id_prefix()
            &&& holds_escaped_id(
                s@,
                start + 8,
                d.id,
                src_mid().skip(1) + d.source + seq![B_RBRACE] + rest,
            )
        } by {
            let body = render_doc(d) + rest;
            assert(s@.skip(start as int).len() == s@.len() - start);
            assert forall|t: int| 0 <= t < body.len() implies s@[start + t] == body[t] by {
                assert(s@.skip(start as int)[t] == s@[start + t]);
            }
            assert(body.len() >= 8);
            assert forall|t: int|
                0 <= t < 8 implies s@.subrange(start as int, start + 8)[t] == id_prefix()[t] by {
                assert(body[t] == id_prefix()[t]);
                assert(s@.subrange(start as int, start + 8)[t] == s@[start + t]);
            }
            assert(s@.subrange(start as int, start + 8) =~= id_prefix());
            let after_id = src_mid().skip(1) + d.source + seq![B_RBRACE] + rest;
            let want = escape(d.id) + seq![B_QUOTE] + after_id;
            assert(src_mid() =~= seq![B_QUOTE] + src_mid().skip(1));
            assert(body =~= id_prefix() + want);
            assert(s@.skip(start + 8).len() == s@.len() - start - 8);
            assert forall|t: int| 0 <= t < want.len() implies s@.skip(start + 8)[t] == want[t] by {
                assert(s@.skip(start + 8)[t] == s@[start + 8 + t]);
                assert(body[8 + t] == (id_prefix() + want)[8 + t]);
            }
            assert(s@.skip(start + 8) =~= want);
        }
    }
    if !match_id_prefix(s, start) {
        return None;
    }
    proof {
        assert(start + 8 <= n);
    }
    let id_start = start + 8;
    let (id, id_end) = match parse_id(s, id_start) {
        Some(x) => x,
        None => {
            return None;
        },
    };
    proof {
        // Under any hypothesis the identifier just read is the framed
        // one, so the source frame and the source itself follow.
        assert forall|d: DocModel, rest: Seq<u8>|
            #[trigger] holds_doc(s@, start as int, d, rest) implies {
            &&& id_end + 12 <= s@.len()
            &&& s@.subrange(id_end as int, id_end + 12) == src_mid()
            &&& holds_source(s@, id_end + 12, d.source, seq![B_RBRACE] + rest)
        } by {
            let after_id = src_mid().skip(1) + d.source + seq![B_RBRACE] + rest;
            assert(holds_escaped_id(s@, id_start as int, d.id, after_id));
            assert forall|t: int|
                0 <= t < s@.len() - id_start implies s@.skip(id_start as int)[t] == s@[id_start
                + t] by {}
            assert(s@.skip(id_start as int) =~= escape(id@) + seq![B_QUOTE] + s@.skip(
                id_end + 1,
            ));
            lemma_escape_quote_injective(id@, d.id, s@.skip(id_end + 1), after_id);
            assert(s@.skip(id_end + 1) == after_id);
            assert(s@.skip(id_end + 1).len() == s@.len() - id_end - 1);
            assert(after_id.len() >= 11 + d.source.len() + 1);
            assert(d.source.len() >= 2);
            assert(id_end + 12 <= s@.len());
            assert forall|t: int|
                0 <= t < 12 implies s@.subrange(id_end as int, id_end + 12)[t] == src_mid()[t] by {
                assert(s@.subrange(id_end as int, id_end + 12)[t] == s@[id_end + t]);
                if t == 0 {
                    assert(s@[id_end as int] == B_QUOTE);
                    assert(src_mid()[0] == B_QUOTE);
                } else {
                    assert(s@.skip(id_end + 1)[t - 1] == s@[id_end + t]);
                    assert(after_id[t - 1] == src_mid().skip(1)[t - 1]);
                    assert(src_mid().skip(1)[t - 1] == src_mid()[t]);
                }
            }
            assert(s@.subrange(id_end as int, id_end + 12) =~= src_mid());
            let tail = d.source + (seq![B_RBRACE] + rest);
            assert(after_id =~= src_mid().skip(1) + tail);
            assert(s@.skip(id_end + 12).len() == s@.len() - id_end - 12);
            assert forall|t: int|
                0 <= t < tail.len() implies s@.skip(id_end + 12)[t] == tail[t] by {
                assert(s@.skip(id_end + 12)[t] == s@[id_end + 12 + t]);
                assert(s@.skip(id_end + 1)[11 + t] == s@[id_end + 12 + t]);
                assert((src_mid().skip(1) + tail)[11 + t] == tail[t]);
            }
            assert(s@.skip(id_end + 12) =~= tail);
        }
    }
    if !match_src_mid(s, id_end) {
        return None;
    }
    proof {
        assert(id_end + 12 <= n);
    }
    let src_start = id_end + 12;
    let (src, src_end) = match scan_source(s, src_start) {
        Some(x) => x,
        None => {
            return None;
        },
    };
    proof {
        // The source just read is the framed one; the closing brace and
        // the rest follow it.
        assert forall|d: DocModel, rest: Seq<u8>|
            #[trigger] holds_doc(s@, start as int, d, rest) implies src_end < s@.len()
            && s@[src_end as int] == B_RBRACE by {
            assert(holds_source(s@, src_start as int, d.source, seq![B_RBRACE] + rest));
            assert(s@.skip(src_start as int).len() == s@.len() - src_start);
            assert forall|t: int|
                0 <= t < s@.len() - src_start implies s@.skip(src_start as int)[t] == s@[src_start
                + t] by {}
            assert(s@.skip(src_start as int) =~= src@ + s@.skip(src_end as int));
            lemma_source_prefix_injective(
                src@,
                d.source,
                s@.skip(src_end as int),
                seq![B_RBRACE] + rest,
            );
            assert(s@.skip(src_end as int) == seq![B_RBRACE] + rest);
            assert(s@.skip(src_end as int).len() >= 1);
            assert(s@.skip(src_end as int)[0] == s@[src_end as int]);
        }
    }
    if src_end >= s.len() {
        return None;
    }
    if s[src_end] != B_RBRACE {
        return None;
    }
    let end = src_end + 1;
    proof {
        assert(s@.subrange(src_end as int, end as int) =~= seq![B_RBRACE]);
        assert(s@.subrange(start as int, end as int) =~= s@.subrange(start as int, start + 8)
            + s@.subrange(id_start as int, id_end as int) + s@.subrange(id_end as int, id_end + 12)
            + s@.subrange(src_start as int, src_end as int) + s@.subrange(
            src_end as int,
            end as int,
        ));
    }
    let d = Doc { id, source: src };
    Some((d, end))
}

/// What the rest of an export file looks like once a reader stands
/// before the document at position `k`: that document's render, then a
/// comma and the remaining run or nothing, then the closing bracket.
pub open spec fn array_tail(ds: Seq<DocModel>, k: int) -> Seq<u8> {
    (if k + 1 < ds.len() {
        seq![B_COMMA] + render_docs_inner(ds.skip(k + 1))
    } else {
        Seq::empty()
    }) + seq![B_RBRACKET]
}

/// In an export file of documents `ds`, a reader that consumed the
/// opening bracket and the first `views.len()` documents (each followed
/// by its comma) stands exactly before the render of the next document.
proof fn lemma_array_cursor(s: Seq<u8>, pos: int, views: Seq<DocModel>, ds: Seq<DocModel>)
    requires
        docs_wf(ds),
        s == render_array(ds),
        views.len() < ds.len(),
        views == ds.take(views.len() as int),
        views.len() > 0 ==> 0 <= pos <= s.len() && s.subrange(0, pos) == seq![B_LBRACKET]
            + render_docs_inner(views) + seq![B_COMMA],
        views.len() == 0 ==> pos == 1,
    ensures
        holds_doc(s, pos, ds[views.len() as int], array_tail(ds, views.len() as int)),
{
    let k = views.len() as int;
    let d = ds[k];
    let tailk = array_tail(ds, k);
    let back = ds.skip(k);
    assert(back[0] == d);
    assert(back.drop_first() =~= ds.skip(k + 1));
    lemma_inner_front(back);
    let rest2: Seq<u8> = if back.len() == 1 {
        Seq::<u8>::empty()
    } else {
        seq![B_COMMA] + render_docs_inner(ds.skip(k + 1))
    };
    assert(render_docs_inner(back) == render_doc(d) + rest2);
    assert(tailk =~= rest2 + seq![B_RBRACKET]);
    let a: Seq<u8> = if k > 0 {
        seq![B_LBRACKET] + render_docs_inner(views) + seq![B_COMMA]
    } else {
        seq![B_LBRACKET]
    };
    if k > 0 {
        assert(views + back =~= ds);
        lemma_inner_concat(views, back);
        assert(render_docs_inner(ds) == render_docs_inner(views) + seq![B_COMMA]
            + render_docs_inner(back));
    } else {
        assert(ds.skip(0) =~= ds);
        assert(render_docs_inner(back) == render_docs_inner(ds));
    }
    assert(s == seq![B_LBRACKET] + render_docs_inner(ds) + seq![B_RBRACKET]);
    assert(s =~= a + (render_doc(d) + tailk));
    assert(pos == a.len());
    assert(s.skip(pos).len() == s.len() - pos);
    assert forall|t: int|
        0 <= t < (render_doc(d) + tailk).len() implies s.skip(pos)[t] == (render_doc(d)
        + tailk)[t] by {
        assert(s.skip(pos)[t] == s[pos + t]);
        assert((a + (render_doc(d) + tailk))[a.len() + t] == (render_doc(d) + tailk)[t]);
    }
    assert(s.skip(pos) =~= render_doc(d) + tailk);
}

/// Parse a whole export file. On success the file is byte for byte the
/// render of the returned documents — the parser accepts exactly the
/// codec's own output, `lemma_render_array_injective` makes those
/// documents the only ones that render to it, and every file a completed
/// export wrote is accepted.
pub fn parse_array(s: &Vec<u8>) -> (r: Option<Vec<Doc>>)
    ensures
        r matches Some(docs) ==> {
            &&& s@ == render_array(doc_views(docs@))
            &&& docs_wf(doc_views(docs@))
        },
        forall|ds: Seq<DocModel>| docs_wf(ds) && s@ == #[trigger] render_array(ds) ==> r is Some,
{
    if s.len() < 2 {
        return None;
    }
    if s[0] != B_LBRACKET {
        proof {
            assert forall|ds: Seq<DocModel>|
                !(docs_wf(ds) && s@ == #[trigger] render_array(ds)) by {
                if docs_wf(ds) && s@ == render_array(ds) {
                    assert(render_array(ds)[0] == B_LBRACKET);
                }
            }
        }
        return None;
    }
    if s.len() == 2 {
        if s[1] == B_RBRACKET {
            let docs: Vec<Doc> = Vec::new();
            proof {
                assert(doc_views(docs@) =~= Seq::<DocModel>::empty());
                assert(s@ =~= render_array(Seq::<DocModel>::empty()));
            }
            return Some(docs);
        }
        proof {
            assert forall|ds: Seq<DocModel>|
                !(docs_wf(ds) && s@ == #[trigger] render_array(ds)) by {
                if docs_wf(ds) && s@ == render_array(ds) {
                    if ds.len() == 0 {
                        assert(render_docs_inner(ds).len() == 0);
                        assert(render_array(ds)[1] == B_RBRACKET);
                    } else {
                        lemma_inner_front(ds);
                        assert(render_doc(ds[0]).len() >= 8);
                        assert(render_docs_inner(ds).len() >= 8);
                        assert(render_array(ds).len() > 2);
                    }
                }
            }
        }
        return None;
    }
    proof {
        assert forall|ds: Seq<DocModel>|
            docs_wf(ds) && s@ == #[trigger] render_array(ds) implies ds.len() > 0 by {
            if ds.len() == 0 {
                assert(render_docs_inner(ds).len() == 0);
                assert(render_array(ds).len() == 2);
            }
        }
    }
    let mut docs: Vec<Doc> = Vec::new();
    let mut pos: usize = 1;
    proof {
        assert(s@.subrange(0, 1) =~= seq![B_LBRACKET]);
        assert(doc_views(docs@) =~= Seq::<DocModel>::empty());
    }
    loop
        invariant
            1 <= pos <= s@.len(),
            s@.len() >= 2,
            s@[0] == B_LBRACKET,
            docs_wf(doc_views(docs@)),
            docs@.len() == 0 ==> pos == 1,
            docs@.len() > 0 ==> s@.subrange(0, pos as int) == seq![B_LBRACKET] + render_docs_inner(
                doc_views(docs@),
            ) + seq![B_COMMA],
            forall|ds: Seq<DocModel>|
                docs_wf(ds) && s@ == #[trigger] render_array(ds) ==> doc_views(docs@).len()
                    < ds.len() && doc_views(docs@) == ds.take(doc_views(docs@).len() as int),
        decreases s@.len() - pos,
    {
        let ghost prev_views = doc_views(docs@);
        let ghost ppos = pos as int;
        proof {
            assert forall|ds: Seq<DocModel>|
                docs_wf(ds) && s@ == #[trigger] render_array(ds) implies holds_doc(
                s@,
                ppos,
                ds[prev_views.len() as int],
                array_tail(ds, prev_views.len() as int),
            ) by {
                lemma_array_cursor(s@, ppos, prev_views, ds);
            }
        }
        let (d, end) = match parse_doc(s, pos) {
            Some(x) => x,
            None => {
                return None;
            },
        };
        proof {
            // The document just read is the one the file frames here,
            // and what follows the cursor is the array's remaining tail.
            assert forall|ds: Seq<DocModel>|
                docs_wf(ds) && s@ == #[trigger] render_array(ds) implies d@
                == ds[prev_views.len() as int] && s@.skip(end as int) == array_tail(
                ds,
                prev_views.len() as int,
            ) by {
                let dk = ds[prev_views.len() as int];
                let tailk = array_tail(ds, prev_views.len() as int);
                assert(s@.skip(ppos) == render_doc(dk) + tailk);
                assert(s@.skip(ppos).len() == s@.len() - ppos);
                assert forall|t: int|
                    0 <= t < s@.len() - ppos implies s@.skip(ppos)[t] == s@[ppos + t] by {}
                assert(s@.skip(ppos) =~= render_doc(d@) + s@.skip(end as int));
                lemma_render_doc_prefix_injective(d@, dk, s@.skip(end as int), tailk);
            }
        }
        proof {
            assert(doc_views(docs@.push(d)) =~= prev_views.push(d@));
            crate::export::lemma_inner_snoc(prev_views, d@);
            lemma_docs_wf_push(prev_views, d@);
            assert(s@.subrange(0, end as int) =~= s@.subrange(0, pos as int) + s@.subrange(
                pos as int,
                end as int,
            ));
            if prev_views.len() == 0 {
                assert(s@.subrange(0, pos as int) =~= seq![B_LBRACKET]);
                assert(s@.subrange(0, end as int) =~= seq![B_LBRACKET] + render_docs_inner(
                    prev_views.push(d@),
                ));
            } else {
                assert(s@.subrange(0, end as int) =~= seq![B_LBRACKET] + render_docs_inner(
                    prev_views.push(d@),
                ));
            }
        }
        docs.push(d);
        if end >= s.len() {
            proof {
                assert forall|ds: Seq<DocModel>|
                    !(docs_wf(ds) && s@ == #[trigger] render_array(ds)) by {
                    if docs_wf(ds) && s@ == render_array(ds) {
                        let tailk = array_tail(ds, prev_views.len() as int);
                        assert(s@.skip(end as int).len() == s@.len() - end);
                        assert(tailk.len() >= 1);
                    }
                }
            }
            return None;
        }
        let t = s[end];
        proof {
            assert forall|ds: Seq<DocModel>|
                docs_wf(ds) && s@ == #[trigger] render_array(ds) implies t == array_tail(
                ds,
                prev_views.len() as int,
            )[0] by {
                assert(s@.skip(end as int)[0] == s@[end as int]);
            }
        }
        if t == B_RBRACKET {
            if end + 1 == s.len() {
                proof {
                    assert(s@.subrange(end as int, end + 1) =~= seq![B_RBRACKET]);
                    assert(s@ =~= s@.subrange(0, end as int) + s@.subrange(end as int, end + 1));
                    assert(s@ =~= render_array(doc_views(docs@)));
                }
                return Some(docs);
            }
            proof {
                assert forall|ds: Seq<DocModel>|
                    !(docs_wf(ds) && s@ == #[trigger] render_array(ds)) by {
                    if docs_wf(ds) && s@ == render_array(ds) {
                        let k = prev_views.len() as int;
                        let tailk = array_tail(ds, k);
                        if k + 1 < ds.len() {
                            assert(tailk[0] == B_COMMA);
                        } else {
                            assert(tailk =~= seq![B_RBRACKET]);
                            assert(s@.skip(end as int).len() == 1);
                            assert(s@.skip(end as int).len() == s@.len() - end);
                        }
                    }
                }
            }
            return None;
        } else if t == B_COMMA {
            proof {
                assert(s@.subrange(end as int, end + 1) =~= seq![B_COMMA]);
                assert(s@.subrange(0, end + 1) =~= s@.subrange(0, end as int) + s@.subrange(
                    end as int,
                    end + 1,
                ));
                assert forall|ds: Seq<DocModel>|
                    docs_wf(ds) && s@ == #[trigger] render_array(ds) implies doc_views(
                    docs@,
                ).len() < ds.len() && doc_views(docs@) == ds.take(
                    doc_views(docs@).len() as int,
                ) by {
                    let k = prev_views.len() as int;
                    let tailk = array_tail(ds, k);
                    if !(k + 1 < ds.len()) {
                        assert(tailk =~= seq![B_RBRACKET]);
                        assert(tailk[0] == B_RBRACKET);
                    }
                    assert(k + 1 < ds.len());
                    assert(doc_views(docs@) =~= prev_views.push(ds[k]));
                    assert(ds.take(k + 1) =~= ds.take(k).push(ds[k]));
                }
            }
            pos = end + 1;
        } else {
            proof {
                assert forall|ds: Seq<DocModel>|
                    !(docs_wf(ds) && s@ == #[trigger] render_array(ds)) by {
                    if docs_wf(ds) && s@ == render_array(ds) {
                        let tailk = array_tail(ds, prev_views.len() as int);
                        if prev_views.len() as int + 1 < ds.len() {
                            assert(tailk[0] == B_COMMA);
                        } else {
                            assert(tailk =~= seq![B_RBRACKET]);
                            assert(tailk[0] == B_RBRACKET);
                        }
                    }
                }
            }
            return None;
        }
    }
}

/// Well-formedness of documents carries over appending one.
proof fn lemma_docs_wf_push(ds: Seq<DocModel>, d: DocModel)
    requires
        docs_wf(ds),
        doc_wf(d),
    ensures
        docs_wf(ds.push(d)),
{
    assert forall|i: int| 0 <= i < ds.push(d).len() implies doc_wf(#[trigger] ds.push(d)[i]) by {
        if i < ds.len() {
            assert(ds.push(d)[i] == ds[i]);
        } else {
            assert(ds.push(d)[i] == d);
        }
    }
}

/// The first byte of a non-empty escape is never an unescaped quote.
proof fn lemma_esc_byte_no_quote(b: u8)
    ensures
        esc_byte(b).len() >= 1,
        esc_byte(b)[0] != B_QUOTE,
{
}

/// Two escaped identifiers closed by quotes determine each other: the
/// escaping is unambiguous, so equal streams mean equal identifiers and
/// equal remainders.
proof fn lemma_escape_quote_injective(a: Seq<u8>, b: Seq<u8>, x: Seq<u8>, y: Seq<u8>)
    requires
        escape(a) + seq![B_QUOTE] + x == escape(b) + seq![B_QUOTE] + y,
    ensures
        a == b,
        x == y,
    decreases a.len(),
{
    let e = escape(a) + seq![B_QUOTE] + x;
    if a.len() == 0 {
        assert(escape(a) =~= Seq::<u8>::empty());
        assert(e[0] == B_QUOTE);
        if b.len() > 0 {
            lemma_esc_byte_no_quote(b[0]);
            assert(escape(b)[0] == esc_byte(b[0])[0]);
            assert(e[0] == escape(b)[0]);
            assert(false);
        }
        assert(escape(b) =~= Seq::<u8>::empty());
        assert((escape(a) + seq![B_QUOTE] + x).len() == 1 + x.len());
        assert((escape(b) + seq![B_QUOTE] + y).len() == 1 + y.len());
        assert(x.len() == y.len());
        assert forall|t: int| 0 <= t < x.len() implies x[t] == y[t] by {
            assert((escape(a) + seq![B_QUOTE] + x)[1 + t] == x[t]);
            assert((escape(b) + seq![B_QUOTE] + y)[1 + t] == y[t]);
        }
        assert(x =~= y);
        assert(a =~= b);
    } else if b.len() == 0 {
        assert(escape(b) =~= Seq::<u8>::empty());
        assert(e[0] == B_QUOTE);
        lemma_esc_byte_no_quote(a[0]);
        assert(escape(a)[0] == esc_byte(a[0])[0]);
        assert(false);
    } else {
        let a0 = a[0];
        let b0 = b[0];
        let ea = esc_byte(a0);
        let eb = esc_byte(b0);
        // The streams agree byte for byte as far as both escapes reach.
        assert forall|t: int| 0 <= t < ea.len() implies e[t] == ea[t] by {
            assert(escape(a)[t] == ea[t]);
        }
        assert forall|t: int| 0 <= t < eb.len() implies e[t] == eb[t] by {
            assert(escape(b)[t] == eb[t]);
        }
        if a0 == B_QUOTE || a0 == B_BACKSLASH || a0 < 32 {
            // `a0` is escaped, so the stream starts with a backslash and
            // `b0` must be escaped too.
            assert(e[0] == B_BACKSLASH);
            assert(eb[0] == B_BACKSLASH);
            assert(b0 == B_QUOTE || b0 == B_BACKSLASH || b0 < 32);
            if a0 == B_QUOTE {
                assert(e[1] == B_QUOTE);
                assert(b0 == B_QUOTE);
            } else if a0 == B_BACKSLASH {
                assert(e[1] == B_BACKSLASH);
                assert(b0 == B_BACKSLASH);
            } else {
                assert(e[1] == 117);
                assert(b0 < 32);
                assert(e[4] == hex_digit(a0 / 16) && e[5] == hex_digit(a0 % 16));
                assert(e[4] == hex_digit(b0 / 16) && e[5] == hex_digit(b0 % 16));
                assert(a0 / 16 < 16 && a0 % 16 < 16 && b0 / 16 < 16 && b0 % 16 < 16)
                    by (nonlinear_arith);
                assert(a0 / 16 == b0 / 16 && a0 % 16 == b0 % 16);
                assert(a0 == b0) by (nonlinear_arith)
                    requires
                        a0 / 16 == b0 / 16 && a0 % 16 == b0 % 16,
                ;
            }
        } else {
            // `a0` stands for itself and is not a backslash, so `b0`
            // cannot open an escape either.
            assert(e[0] == a0);
            assert(a0 != B_BACKSLASH);
            if b0 == B_QUOTE || b0 == B_BACKSLASH || b0 < 32 {
                assert(eb[0] == B_BACKSLASH);
                assert(false);
            }
            assert(e[0] == b0);
        }
        assert(a0 == b0);
        assert(ea == eb);
        let ta = escape(a.drop_first()) + seq![B_QUOTE] + x;
        let tb = escape(b.drop_first()) + seq![B_QUOTE] + y;
        assert(escape(a) == ea + escape(a.drop_first()));
        assert(escape(b) == eb + escape(b.drop_first()));
        assert(e =~= ea + ta);
        assert(ea + tb =~= e);
        assert forall|t: int| 0 <= t < ta.len() implies ta[t] == tb[t] by {
            assert((ea + ta)[ea.len() + t] == ta[t]);
            assert((ea + tb)[ea.len() + t] == tb[t]);
        }
        assert(ta =~= tb);
        lemma_escape_quote_injective(a.drop_first(), b.drop_first(), x, y);
        assert(a =~= seq![a0] + a.drop_first());
        assert(b =~= seq![b0] + b.drop_first());
        assert(a =~= b);
    }
}

/// A well-formed source text is determined by any stream it opens: the
/// scanner closes the balance at exactly one place.
proof fn lemma_source_prefix_injective(p: Seq<u8>, q: Seq<u8>, x: Seq<u8>, y: Seq<u8>)
    requires
        valid_source(p),
        valid_source(q),
        p + x == q + y,
    ensures
        p == q,
        x == y,
{
    if p.len() < q.len() {
        assert forall|t: int| 0 <= t < p.len() implies q.take(p.len() as int)[t] == p[t] by {
            assert((p + x)[t] == p[t]);
            assert((q + y)[t] == q[t]);
        }
        assert(q.take(p.len() as int) =~= p);
        assert(scan(scan_init(), q.take(p.len() as int)).depth > 0);
        assert(false);
    }
    if q.len() < p.len() {
        assert forall|t: int| 0 <= t < q.len() implies p.take(q.len() as int)[t] == q[t] by {
            assert((p + x)[t] == p[t]);
            assert((q + y)[t] == q[t]);
        }
        assert(p.take(q.len() as int) =~= q);
        assert(scan(scan_init(), p.take(q.len() as int)).depth > 0);
        assert(false);
    }
    assert forall|t: int| 0 <= t < p.len() implies p[t] == q[t] by {
        assert((p + x)[t] == p[t]);
        assert((q + y)[t] == q[t]);
    }
    assert(p =~= q);
    assert((p + x).len() == p.len() + x.len());
    assert((q + y).len() == q.len() + y.len());
    assert(x.len() == y.len());
    assert forall|t: int| 0 <= t < x.len() implies x[t] == y[t] by {
        assert((p + x)[p.len() + t] == x[t]);
        assert((q + y)[q.len() + t] == y[t]);
    }
    assert(x =~= y);
}

/// A framed document is determined by any stream it opens.
proof fn lemma_render_doc_prefix_injective(a: DocModel, b: DocModel, x: Seq<u8>, y: Seq<u8>)
    requires
        doc_wf(a),
        doc_wf(b),
        render_doc(a) + x == render_doc(b) + y,
    ensures
        a == b,
        x == y,
{
    let e = render_doc(a) + x;
    let mid_rest = src_mid().skip(1);
    let ra = mid_rest + a.source + seq![B_RBRACE] + x;
    let rb = mid_rest + b.source + seq![B_RBRACE] + y;
    assert(src_mid() =~= seq![B_QUOTE] + mid_rest);
    assert(e =~= id_prefix() + (escape(a.id) + seq![B_QUOTE] + ra));
    assert(id_prefix() + (escape(b.id) + seq![B_QUOTE] + rb) =~= e);
    let sa = escape(a.id) + seq![B_QUOTE] + ra;
    let sb = escape(b.id) + seq![B_QUOTE] + rb;
    assert forall|t: int| 0 <= t < sa.len() implies sa[t] == sb[t] by {
        assert((id_prefix() + sa)[8 + t] == sa[t]);
        assert((id_prefix() + sb)[8 + t] == sb[t]);
    }
    assert(sa =~= sb);
    lemma_escape_quote_injective(a.id, b.id, ra, rb);
    let ua = a.source + (seq![B_RBRACE] + x);
    let ub = b.source + (seq![B_RBRACE] + y);
    assert(ra =~= mid_rest + ua);
    assert(rb =~= mid_rest + ub);
    assert forall|t: int| 0 <= t < ua.len() implies ua[t] == ub[t] by {
        assert((mid_rest + ua)[mid_rest.len() + t] == ua[t]);
        assert((mid_rest + ub)[mid_rest.len() + t] == ub[t]);
    }
    assert(ua =~= ub);
    lemma_source_prefix_injective(a.source, b.source, seq![B_RBRACE] + x, seq![B_RBRACE] + y);
    let va = seq![B_RBRACE] + x;
    assert(x =~= va.skip(1));
    assert(seq![B_RBRACE] + y =~= va);
    assert(y =~= va.skip(1));
    assert(a == DocModel { id: a.id, source: a.source });
    assert(b == DocModel { id: b.id, source: b.source });
}

/// The comma-separated run, decomposed from the front: the first document
/// leads, the rest follow behind a comma.
proof fn lemma_inner_front(ds: Seq<DocModel>)
    requires
        ds.len() > 0,
    ensures
        ds.len() == 1 ==> render_docs_inner(ds) == render_doc(ds[0]),
        ds.len() > 1 ==> render_docs_inner(ds) == render_doc(ds[0]) + seq![B_COMMA]
            + render_docs_inner(ds.drop_first()),
    decreases ds.len(),
{
    if ds.len() > 1 {
        let dl = ds.drop_last();
        lemma_inner_front(dl);
        if dl.len() == 1 {
            assert(ds.drop_first() =~= seq![ds.last()]);
            assert(render_docs_inner(ds.drop_first()) == render_doc(ds.drop_first()[0]));
            assert(render_docs_inner(ds) =~= render_doc(ds[0]) + seq![B_COMMA] + render_docs_inner(
                ds.drop_first(),
            ));
        } else {
            assert(dl[0] == ds[0]);
            assert(ds.drop_first().drop_last() =~= dl.drop_first());
            assert(ds.drop_first().last() == ds.last());
            assert(ds.drop_first().len() > 1);
            assert(render_docs_inner(ds.drop_first()) == render_docs_inner(dl.drop_first()) + seq![
                B_COMMA,
            ] + render_doc(ds.last()));
            assert(render_docs_inner(ds) =~= render_doc(ds[0]) + seq![B_COMMA] + render_docs_inner(
                ds.drop_first(),
            ));
        }
    }
}

/// Well-formedness of documents carries to the tail.
proof fn lemma_docs_wf_drop_first(ds: Seq<DocModel>)
    requires
        docs_wf(ds),
        ds.len() > 0,
    ensures
        docs_wf(ds.drop_first()),
{
    assert forall|i: int| 0 <= i < ds.drop_first().len() implies doc_wf(
        #[trigger] ds.drop_first()[i],
    ) by {
        assert(ds.drop_first()[i] == ds[i + 1]);
    }
}

/// Equal comma-separated runs of well-formed documents hold equal
/// documents.
proof fn lemma_inner_injective(a: Seq<DocModel>, b: Seq<DocModel>)
    requires
        docs_wf(a),
        docs_wf(b),
        render_docs_inner(a) == render_docs_inner(b),
    ensures
        a == b,
    decreases a.len(),
{
    if a.len() == 0 {
        if b.len() > 0 {
            lemma_inner_front(b);
            assert(render_doc(b[0]).len() > 0);
            assert(render_docs_inner(b).len() > 0);
            assert(false);
        }
        assert(a =~= b);
    } else if b.len() == 0 {
        lemma_inner_front(a);
        assert(render_doc(a[0]).len() > 0);
        assert(false);
    } else {
        lemma_inner_front(a);
        lemma_inner_front(b);
        let ra = if a.len() == 1 {
            Seq::<u8>::empty()
        } else {
            seq![B_COMMA] + render_docs_inner(a.drop_first())
        };
        let rb = if b.len() == 1 {
            Seq::<u8>::empty()
        } else {
            seq![B_COMMA] + render_docs_inner(b.drop_first())
        };
        assert(render_docs_inner(a) =~= render_doc(a[0]) + ra);
        assert(render_doc(b[0]) + rb =~= render_docs_inner(b));
        lemma_render_doc_prefix_injective(a[0], b[0], ra, rb);
        if a.len() == 1 {
            if b.len() > 1 {
                assert(rb.len() > 0);
                assert(false);
            }
            assert(a =~= b);
        } else {
            if b.len() == 1 {
                assert(ra.len() > 0);
                assert(false);
            }
            assert(render_docs_inner(a.drop_first()) =~= ra.skip(1));
            assert(render_docs_inner(b.drop_first()) =~= rb.skip(1));
            lemma_docs_wf_drop_first(a);
            lemma_docs_wf_drop_first(b);
            lemma_inner_injective(a.drop_first(), b.drop_first());
            assert(a =~= seq![a[0]] + a.drop_first());
            assert(seq![b[0]] + b.drop_first() =~= b);
            assert(a =~= b);
        }
    }
}

/// Only one sequence of well-formed documents renders to a given export
/// file: the codec never confuses two backups.
pub proof fn lemma_render_array_injective(a: Seq<DocModel>, b: Seq<DocModel>)
    requires
        docs_wf(a),
        docs_wf(b),
        render_array(a) == render_array(b),
    ensures
        a == b,
{
    let ia = render_docs_inner(a);
    let ib = render_docs_inner(b);
    let fa = render_array(a);
    assert(fa.len() == ia.len() + 2);
    assert(render_array(b).len() == ib.len() + 2);
    assert forall|t: int| 0 <= t < ia.len() implies ia[t] == ib[t] by {
        assert(render_array(a)[1 + t] == ia[t]);
        assert(render_array(b)[1 + t] == ib[t]);
    }
    assert(ia =~= ib);
    lemma_inner_injective(a, b);
}

/// Round trip: a completed export of documents `exported`, parsed back by
/// the importer and replayed batch by batch, upserts exactly the exported
/// documents — the same identifiers with the same source content, in the
/// exported order (the cluster itself keeps no order between them).
pub proof fn theorem_round_trip(
    exported: Seq<DocModel>,
    parsed: Seq<DocModel>,
    batches: Seq<Seq<DocModel>>,
)
    requires
        docs_wf(exported),
        docs_wf(parsed),
        render_array(parsed) == render_array(exported),
        batches.flatten() == parsed,
    ensures
        parsed == exported,
        batches.flatten() == exported,
{
    lemma_render_array_injective(parsed, exported);
}

} // verus!
