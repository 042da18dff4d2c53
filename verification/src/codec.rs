use vstd::prelude::*;
use vstd::string::StringSliceAdditionalSpecFns;
use vstd::utf8::{encode_utf8, decode_utf8, valid_utf8, encode_utf8_valid_utf8,
    encode_utf8_decode_utf8, decode_utf8_encode_utf8};
use crate::project::{Project, ProjectV};
use crate::timestamp::{Timestamp, ts_bytes, format_ts, parse_ts, lemma_concat_split, lemma_concat_join};

verus! {

/// The canonical on-disk record of a project: the pretty-printed JSON text
/// `{"id", "name", "description", "created_at", "updated_at"}` with the keys
/// in sorted order, two-space indentation, RFC 3339 timestamps and JSON
/// string escaping, as `encode_spec` lays it out byte by byte.

/// The lowercase hexadecimal digit byte for a value of 0 to 15.
pub open spec fn hex_digit(n: int) -> u8 {
    if n < 10 {
        (0x30 + n) as u8
    } else {
        (0x57 + n) as u8
    }
}

/// JSON escaping of one byte of UTF-8 text: quote and backslash take a
/// two-byte escape, control bytes take the six-byte `\u00XX` form with
/// lowercase hexadecimal digits, and every other byte stands for itself.
pub open spec fn esc_byte(b: u8) -> Seq<u8> {
    if b == 0x22 {
        seq![0x5cu8, 0x22u8]
    } else if b == 0x5c {
        seq![0x5cu8, 0x5cu8]
    } else if b < 0x20 {
        seq![0x5cu8, 0x75u8, 0x30u8, 0x30u8, hex_digit(b as int / 16), hex_digit(b as int % 16)]
    } else {
        seq![b]
    }
}

/// JSON escaping of a byte sequence, byte by byte.
pub open spec fn esc(bs: Seq<u8>) -> Seq<u8>
    decreases bs.len(),
{
    if bs.len() == 0 {
        Seq::empty()
    } else {
        esc_byte(bs[0]) + esc(bs.drop_first())
    }
}

pub proof fn lemma_esc_append(a: Seq<u8>, b: Seq<u8>)
    ensures
        esc(a + b) == esc(a) + esc(b),
    decreases a.len(),
{
    if a.len() == 0 {
        assert(a + b =~= b);
        assert(esc(a) + esc(b) =~= esc(b));
    } else {
        assert((a + b).drop_first() =~= a.drop_first() + b);
        assert((a + b)[0] == a[0]);
        assert((a + b).len() != 0);
        lemma_esc_append(a.drop_first(), b);
        assert(esc(a + b) =~= esc(a) + esc(b));
    }
}

/// Unfolds the escape of the byte at index `k`: the escape of `a` is the
/// escape of the first `k` bytes, the escape of `a[k]`, then the rest.
pub proof fn lemma_esc_at(a: Seq<u8>, k: int)
    requires
        0 <= k < a.len(),
    ensures
        esc(a) == esc(a.take(k)) + esc_byte(a[k]) + esc(a.skip(k + 1)),
        esc(a.take(k + 1)) == esc(a.take(k)) + esc_byte(a[k]),
{
    let sk = a.skip(k);
    assert(a =~= a.take(k) + sk);
    lemma_esc_append(a.take(k), sk);
    assert(sk.len() != 0);
    assert(sk[0] == a[k]);
    assert(sk.drop_first() =~= a.skip(k + 1));
    assert(esc(sk) == esc_byte(a[k]) + esc(a.skip(k + 1)));
    assert(esc(a) =~= esc(a.take(k)) + esc_byte(a[k]) + esc(a.skip(k + 1)));
    assert(a.take(k + 1) =~= a.take(k) + seq![a[k]]);
    lemma_esc_append(a.take(k), seq![a[k]]);
    assert(seq![a[k]].drop_first() =~= Seq::<u8>::empty());
    assert(seq![a[k]].len() == 1);
    assert(esc(seq![a[k]]) == esc_byte(a[k]) + esc(seq![a[k]].drop_first()));
    assert(esc(Seq::<u8>::empty()) == Seq::<u8>::empty());
    assert(esc(seq![a[k]]) =~= esc_byte(a[k]));
}

/// An escaped string field with its closing quote.
pub open spec fn str_field(s: Seq<char>) -> Seq<u8> {
    esc(encode_utf8(s)) + seq![0x22u8]
}

pub open spec fn lit_head() -> Seq<u8> {
    "{\n  \"created_at\": \"".spec_bytes()
}

pub open spec fn lit_desc() -> Seq<u8> {
    "\",\n  \"description\": \"".spec_bytes()
}

pub open spec fn lit_id() -> Seq<u8> {
    ",\n  \"id\": \"".spec_bytes()
}

pub open spec fn lit_name() -> Seq<u8> {
    ",\n  \"name\": \"".spec_bytes()
}

pub open spec fn lit_upd() -> Seq<u8> {
    ",\n  \"updated_at\": \"".spec_bytes()
}

pub open spec fn lit_tail() -> Seq<u8> {
    "\"\n}".spec_bytes()
}

/// The canonical `project.json` bytes of a project value.
pub open spec fn encode_spec(pv: ProjectV) -> Seq<u8> {
    lit_head() + ts_bytes(pv.created_at) + lit_desc() + str_field(pv.description) + lit_id()
        + str_field(pv.id) + lit_name() + str_field(pv.name) + lit_upd() + ts_bytes(pv.updated_at)
        + lit_tail()
}

fn push_bytes(out: &mut Vec<u8>, s: &[u8])
    ensures
        final(out)@ == old(out)@ + s@,
{
    let n = s.len();
    let mut i: usize = 0;
    while i < n
        invariant
            n == s@.len(),
            i <= n,
            out@ == old(out)@ + s@.take(i as int),
        decreases n - i,
    {
        out.push(s[i]);
        proof {
            assert(s@.take(i + 1) =~= s@.take(i as int) + seq![s@[i as int]]);
            assert(out@ =~= old(out)@ + s@.take(i + 1));
        }
        i = i + 1;
    }
    proof {
        assert(s@.take(n as int) =~= s@);
    }
}

/// Append the JSON escape of `bs`.
fn push_escaped(out: &mut Vec<u8>, bs: &[u8])
    ensures
        final(out)@ == old(out)@ + esc(bs@),
{
    let n = bs.len();
    let mut i: usize = 0;
    while i < n
        invariant
            n == bs@.len(),
            i <= n,
            out@ == old(out)@ + esc(bs@.take(i as int)),
        decreases n - i,
    {
        let b = bs[i];
        if b == 0x22 {
            out.push(0x5c);
            out.push(0x22);
        } else if b == 0x5c {
            out.push(0x5c);
            out.push(0x5c);
        } else if b < 0x20 {
            out.push(0x5c);
            out.push(0x75);
            out.push(0x30);
            out.push(0x30);
            let hi = b / 16;
            let lo = b % 16;
            out.push(if hi < 10 { 0x30 + hi } else { 0x57 + hi });
            out.push(if lo < 10 { 0x30 + lo } else { 0x57 + lo });
        } else {
            out.push(b);
        }
        proof {
            lemma_esc_at(bs@, i as int);
            assert(out@ =~= old(out)@ + esc(bs@.take(i + 1)));
        }
        i = i + 1;
    }
    proof {
        assert(bs@.take(n as int) =~= bs@);
    }
}

/// Serialize a project to its canonical `project.json` bytes, exactly
/// `encode_spec` of its view.
pub fn encode_project(p: &Project) -> (r: Vec<u8>)
    requires
        p@.wf(),
    ensures
        r@ == encode_spec(p@),
{
    let mut out: Vec<u8> = Vec::new();
    push_bytes(&mut out, "{\n  \"created_at\": \"".as_bytes());
    format_ts(&mut out, &p.created_at);
    push_bytes(&mut out, "\",\n  \"description\": \"".as_bytes());
    push_escaped(&mut out, p.description.as_str().as_bytes());
    out.push(0x22);
    push_bytes(&mut out, ",\n  \"id\": \"".as_bytes());
    push_escaped(&mut out, p.id.as_str().as_bytes());
    out.push(0x22);
    push_bytes(&mut out, ",\n  \"name\": \"".as_bytes());
    push_escaped(&mut out, p.name.as_str().as_bytes());
    out.push(0x22);
    push_bytes(&mut out, ",\n  \"updated_at\": \"".as_bytes());
    format_ts(&mut out, &p.updated_at);
    push_bytes(&mut out, "\"\n}".as_bytes());
    proof {
        assert(esc(encode_utf8(p@.description)) + seq![0x22u8] =~= str_field(p@.description));
        assert(esc(encode_utf8(p@.id)) + seq![0x22u8] =~= str_field(p@.id));
        assert(esc(encode_utf8(p@.name)) + seq![0x22u8] =~= str_field(p@.name));
        assert(out@ =~= encode_spec(p@));
    }
    out
}

/// Offset of the created-at digits in every canonical record.
pub open spec fn off_cre() -> int {
    lit_head().len() as int
}

/// Offset of the description field's content.
pub open spec fn off_desc() -> int {
    off_cre() + 30 + lit_desc().len()
}

/// Offset of the id field's content in the record of `pv`.
pub open spec fn off_id(pv: ProjectV) -> int {
    off_desc() + str_field(pv.description).len() + lit_id().len()
}

/// Offset of the name field's content in the record of `pv`.
pub open spec fn off_name(pv: ProjectV) -> int {
    off_id(pv) + str_field(pv.id).len() + lit_name().len()
}

/// Offset of the updated-at digits in the record of `pv`.
pub open spec fn off_upd(pv: ProjectV) -> int {
    off_name(pv) + str_field(pv.name).len() + lit_upd().len()
}

/// How a sequence equal to `encode_spec(pv)` decomposes into the record's
/// eleven pieces.
pub proof fn lemma_record_split(s: Seq<u8>, pv: ProjectV)
    requires
        s == encode_spec(pv),
    ensures
        s.len() == off_upd(pv) + 30 + lit_tail().len(),
        s.subrange(0, off_cre()) == lit_head(),
        s.subrange(off_cre(), off_cre() + 30) == ts_bytes(pv.created_at),
        s.subrange(off_cre() + 30, off_desc()) == lit_desc(),
        s.subrange(off_desc(), off_desc() + str_field(pv.description).len()) == str_field(
            pv.description,
        ),
        s.subrange(off_desc() + str_field(pv.description).len(), off_id(pv)) == lit_id(),
        s.subrange(off_id(pv), off_id(pv) + str_field(pv.id).len()) == str_field(pv.id),
        s.subrange(off_id(pv) + str_field(pv.id).len(), off_name(pv)) == lit_name(),
        s.subrange(off_name(pv), off_name(pv) + str_field(pv.name).len()) == str_field(pv.name),
        s.subrange(off_name(pv) + str_field(pv.name).len(), off_upd(pv)) == lit_upd(),
        s.subrange(off_upd(pv), off_upd(pv) + 30) == ts_bytes(pv.updated_at),
        s.subrange(off_upd(pv) + 30, s.len() as int) == lit_tail(),
{
    let p01 = lit_head();
    let p02 = p01 + ts_bytes(pv.created_at);
    let p03 = p02 + lit_desc();
    let p04 = p03 + str_field(pv.description);
    let p05 = p04 + lit_id();
    let p06 = p05 + str_field(pv.id);
    let p07 = p06 + lit_name();
    let p08 = p07 + str_field(pv.name);
    let p09 = p08 + lit_upd();
    let p10 = p09 + ts_bytes(pv.updated_at);
    assert(s.subrange(0, s.len() as int) =~= s);
    lemma_concat_split(s, p10, lit_tail(), 0);
    lemma_concat_split(s, p09, ts_bytes(pv.updated_at), 0);
    lemma_concat_split(s, p08, lit_upd(), 0);
    lemma_concat_split(s, p07, str_field(pv.name), 0);
    lemma_concat_split(s, p06, lit_name(), 0);
    lemma_concat_split(s, p05, str_field(pv.id), 0);
    lemma_concat_split(s, p04, lit_id(), 0);
    lemma_concat_split(s, p03, str_field(pv.description), 0);
    lemma_concat_split(s, p02, lit_desc(), 0);
    lemma_concat_split(s, p01, ts_bytes(pv.created_at), 0);
}

/// Match `lit` against `v` at `pos`: returns the end position exactly when
/// the window holds `lit`.
fn check_lit(v: &Vec<u8>, pos: usize, lit: &[u8]) -> (r: Option<usize>)
    requires
        pos <= v.len(),
    ensures
        r matches Some(e) ==> e == pos + lit@.len() && e <= v.len() && v@.subrange(
            pos as int,
            e as int,
        ) == lit@,
        r is None ==> !(pos + lit@.len() <= v.len() && v@.subrange(
            pos as int,
            pos as int + lit@.len(),
        ) == lit@),
{
    let n = lit.len();
    if v.len() - pos < n {
        return None;
    }
    let mut i: usize = 0;
    while i < n
        invariant
            n == lit@.len(),
            pos + n <= v.len(),
            i <= n,
            forall|j: int| 0 <= j < i ==> v@[pos + j] == lit@[j],
        decreases n - i,
    {
        if v[pos + i] != lit[i] {
            proof {
                let w = v@.subrange(pos as int, pos as int + lit@.len());
                assert(w[i as int] == v@[pos + i]);
                assert(w[i as int] != lit@[i as int]);
            }
            return None;
        }
        i = i + 1;
    }
    proof {
        assert(v@.subrange(pos as int, pos as int + lit@.len()) =~= lit@);
    }
    Some(pos + n)
}

fn hexval(b: u8) -> (r: Option<u8>)
    ensures
        r matches Some(n) ==> n < 16 && hex_digit(n as int) == b,
        r is None ==> forall|n: int| 0 <= n < 16 ==> hex_digit(n) != b,
{
    if 0x30 <= b && b <= 0x39 {
        Some(b - 0x30)
    } else if 0x61 <= b && b <= 0x66 {
        Some(b - 0x57)
    } else {
        proof {
            assert forall|n: int| 0 <= n < 16 implies hex_digit(n) != b by {
                if n < 10 {
                } else {
                }
            }
        }
        None
    }
}

/// In a window of `s` that holds `esc(u)` then a quote, the bytes after the
/// escape of `u.take(k)` are the escape of `u[k]` (or the closing quote).
proof fn lemma_esc_window(s: Seq<u8>, pos: int, e2: int, u: Seq<u8>, k: int)
    requires
        0 <= pos <= e2 <= s.len(),
        s.subrange(pos, e2) == esc(u) + seq![0x22u8],
        0 <= k <= u.len(),
    ensures
        e2 == pos + esc(u).len() + 1,
        esc(u.take(k)).len() <= esc(u).len(),
        k < u.len() ==> forall|j: int|
            0 <= j < esc_byte(u[k]).len() ==> s[pos + esc(u.take(k)).len() + j] == esc_byte(u[k])[j],
        k == u.len() ==> s[pos + esc(u).len()] == 0x22u8,
{
    let w = s.subrange(pos, e2);
    assert(w.len() == esc(u).len() + 1);
    if k < u.len() {
        lemma_esc_at(u, k);
        let a = esc(u.take(k));
        let b = esc_byte(u[k]);
        assert forall|j: int|
            0 <= j < esc_byte(u[k]).len() implies s[pos + esc(u.take(k)).len() + j] == esc_byte(
            u[k],
        )[j] by {
            assert(s[pos + a.len() + j] == w[a.len() + j]);
            assert(w[a.len() + j] == (esc(u) + seq![0x22u8])[a.len() + j]);
            assert((esc(u) + seq![0x22u8])[a.len() + j] == esc(u)[a.len() + j]);
            assert(esc(u)[a.len() + j] == (a + b + esc(u.skip(k + 1)))[a.len() + j]);
            assert((a + b + esc(u.skip(k + 1)))[a.len() + j] == b[j]);
        }
    } else {
        assert(u.take(k) =~= u);
        assert(s[pos + esc(u).len()] == w[esc(u).len() as int]);
        assert(w[esc(u).len() as int] == (esc(u) + seq![0x22u8])[esc(u).len() as int]);
    }
    if k < u.len() {
        lemma_esc_at(u, k);
        assert(esc(u.take(k)).len() <= esc(u).len());
    } else {
        assert(u.take(k) =~= u);
    }
}

proof fn lemma_esc_push(a: Seq<u8>, x: u8)
    ensures
        esc(a.push(x)) == esc(a) + esc_byte(x),
{
    assert(a.push(x) =~= a + seq![x]);
    lemma_esc_append(a, seq![x]);
    assert(seq![x].drop_first() =~= Seq::<u8>::empty());
    assert(seq![x].len() == 1);
    assert(esc(seq![x]) == esc_byte(x) + esc(seq![x].drop_first()));
    assert(esc(Seq::<u8>::empty()) == Seq::<u8>::empty());
    assert(esc(seq![x]) =~= esc_byte(x));
}

/// The loop step of `unescape_field`: at a position aligned with the
/// escape of `u.take(k)`, a byte other than the closing quote must begin
/// the escape of `u[k]`.
proof fn lemma_unesc_step(s: Seq<u8>, pos: int, i: int, e2: int, u: Seq<u8>, k: int)
    requires
        0 <= pos <= i,
        pos <= e2 <= s.len(),
        s.subrange(pos, e2) == esc(u) + seq![0x22u8],
        0 <= k <= u.len(),
        esc(u.take(k)).len() == i - pos,
        s[i] != 0x22u8,
    ensures
        k < u.len(),
        i + esc_byte(u[k]).len() < e2,
        forall|j: int| 0 <= j < esc_byte(u[k]).len() ==> s[i + j] == esc_byte(u[k])[j],
        esc(u.take(k + 1)).len() == i - pos + esc_byte(u[k]).len(),
{
    lemma_esc_window(s, pos, e2, u, k);
    if k == u.len() {
        assert(u.take(k) =~= u);
        assert(s[i] == 0x22u8);
        assert(false);
    }
    lemma_esc_at(u, k);
}

/// Scan an escaped JSON string's content from `pos` up to and through its
/// closing quote, undoing the canonical escaping. Succeeds exactly when the
/// window from `pos` holds the escape of some byte sequence followed by a
/// quote, and then returns that sequence and the position after the quote.
#[verifier::rlimit(100)]
fn unescape_field(v: &Vec<u8>, pos: usize) -> (r: Option<(Vec<u8>, usize)>)
    requires
        pos <= v.len(),
    ensures
        r matches Some(we) ==> pos < we.1 <= v.len() && v@.subrange(pos as int, we.1 as int)
            == esc(we.0@) + seq![0x22u8],
        forall|u: Seq<u8>, e2: int|
                #![trigger v@.subrange(pos as int, e2), esc(u)]
            pos <= e2 <= v.len() && v@.subrange(pos as int, e2) == esc(u) + seq![0x22u8] ==> (
            r matches Some(we) && we.0@ == u && we.1 == e2),
{
    let mut out: Vec<u8> = Vec::new();
    let mut i: usize = pos;
    loop
        invariant
            pos <= i <= v.len(),
            esc(out@) == v@.subrange(pos as int, i as int),
            forall|u: Seq<u8>, e2: int|
                #![trigger v@.subrange(pos as int, e2), esc(u)]
                pos <= e2 <= v.len() && v@.subrange(pos as int, e2) == esc(u) + seq![0x22u8] ==> (
                out@.len() <= u.len() && out@ == u.take(out@.len() as int)),
        decreases v.len() - i,
    {
        proof {
            assert(v@.subrange(pos as int, i as int).len() == i - pos);
        }
        if i >= v.len() {
            proof {
                assert forall|u: Seq<u8>, e2: int|
                #![trigger v@.subrange(pos as int, e2), esc(u)]
                    pos <= e2 <= v.len() && v@.subrange(pos as int, e2) == esc(u) + seq![0x22u8]
                    implies false by {
                    let k = out@.len() as int;
                    lemma_esc_window(v@, pos as int, e2, u, k);
                    if k < u.len() {
                        lemma_esc_at(u, k);
                        assert(esc_byte(u[k]).len() >= 1);
                    } else {
                        assert(u.take(k) =~= u);
                    }
                }
            }
            return None;
        }
        let b = v[i];
        if b == 0x22 {
            proof {
                assert(v@.subrange(pos as int, i + 1) =~= esc(out@) + seq![0x22u8]);
                assert forall|u: Seq<u8>, e2: int|
                #![trigger v@.subrange(pos as int, e2), esc(u)]
                    pos <= e2 <= v.len() && v@.subrange(pos as int, e2) == esc(u) + seq![0x22u8]
                    implies out@ == u && e2 == i + 1 by {
                    let k = out@.len() as int;
                    lemma_esc_window(v@, pos as int, e2, u, k);
                    if k < u.len() {
                        assert(v@[pos + esc(u.take(k)).len() + 0] == esc_byte(u[k])[0]);
                        assert(false);
                    } else {
                        assert(u.take(k) =~= u);
                    }
                }
            }
            return Some((out, i + 1));
        } else if b == 0x5c {
            if v.len() - i < 2 {
                proof {
                    assert forall|u: Seq<u8>, e2: int|
                #![trigger v@.subrange(pos as int, e2), esc(u)]
                        pos <= e2 <= v.len() && v@.subrange(pos as int, e2) == esc(u) + seq![
                            0x22u8,
                        ] implies false by {
                        let k = out@.len() as int;
                        lemma_unesc_step(v@, pos as int, i as int, e2, u, k);
                        assert(esc_byte(u[k])[0] == 0x5cu8);
                        assert(esc_byte(u[k]).len() >= 2);
                    }
                }
                return None;
            }
            let b2 = v[i + 1];
            if b2 == 0x22 || b2 == 0x5c {
                let ghost out0 = out@;
                out.push(b2);
                proof {
                    lemma_esc_push(out0, b2);
                    assert(esc_byte(b2) =~= seq![0x5cu8, b2]);
                    assert(v@.subrange(pos as int, i + 2) =~= v@.subrange(pos as int, i as int)
                        + esc_byte(b2));
                    assert forall|u: Seq<u8>, e2: int|
                #![trigger v@.subrange(pos as int, e2), esc(u)]
                        pos <= e2 <= v.len() && v@.subrange(pos as int, e2) == esc(u) + seq![
                            0x22u8,
                        ] implies out@.len() <= u.len() && out@ == u.take(out@.len() as int) by {
                        let k = out0.len() as int;
                        lemma_unesc_step(v@, pos as int, i as int, e2, u, k);
                        assert(esc_byte(u[k])[0] == 0x5cu8);
                        assert(u[k] == 0x22 || u[k] == 0x5c || u[k] < 0x20);
                        assert(esc_byte(u[k])[1] == v@[i + 1]);
                        assert(u[k] == b2);
                        assert(u.take(k + 1) =~= u.take(k).push(u[k]));
                        assert(out@ =~= u.take(k + 1));
                    }
                }
                i = i + 2;
            } else if b2 == 0x75 {
                if v.len() - i < 6 {
                    proof {
                        assert forall|u: Seq<u8>, e2: int|
                #![trigger v@.subrange(pos as int, e2), esc(u)]
                            pos <= e2 <= v.len() && v@.subrange(pos as int, e2) == esc(u) + seq![
                                0x22u8,
                            ] implies false by {
                            let k = out@.len() as int;
                            lemma_unesc_step(v@, pos as int, i as int, e2, u, k);
                            assert(esc_byte(u[k])[0] == 0x5cu8);
                            assert(esc_byte(u[k])[1] == v@[i + 1]);
                            assert(u[k] < 0x20);
                            assert(esc_byte(u[k]).len() == 6);
                        }
                    }
                    return None;
                }
                let c1 = v[i + 2];
                let c2 = v[i + 3];
                let h1 = v[i + 4];
                let h2 = v[i + 5];
                let lo_opt = hexval(h2);
                if c1 == 0x30 && c2 == 0x30 && (h1 == 0x30 || h1 == 0x31) && lo_opt.is_some() {
                    let lo = lo_opt.unwrap();
                    let val = (h1 - 0x30) * 16 + lo;
                    let ghost out0 = out@;
                    out.push(val);
                    proof {
                        assert(val < 0x20);
                        assert(val / 16 == h1 - 0x30);
                        assert(val % 16 == lo);
                        assert(hex_digit(val as int / 16) == h1);
                        assert(hex_digit(val as int % 16) == h2);
                        assert(esc_byte(val) =~= seq![
                            0x5cu8,
                            0x75u8,
                            0x30u8,
                            0x30u8,
                            hex_digit(val as int / 16),
                            hex_digit(val as int % 16),
                        ]);
                        lemma_esc_push(out0, val);
                        assert(v@.subrange(pos as int, i + 6) =~= v@.subrange(pos as int, i as int)
                            + esc_byte(val));
                        assert forall|u: Seq<u8>, e2: int|
                #![trigger v@.subrange(pos as int, e2), esc(u)]
                            pos <= e2 <= v.len() && v@.subrange(pos as int, e2) == esc(u) + seq![
                                0x22u8,
                            ] implies out@.len() <= u.len() && out@ == u.take(
                            out@.len() as int,
                        ) by {
                            let k = out0.len() as int;
                            lemma_unesc_step(v@, pos as int, i as int, e2, u, k);
                            assert(esc_byte(u[k])[0] == 0x5cu8);
                            assert(esc_byte(u[k])[1] == v@[i + 1]);
                            assert(u[k] < 0x20);
                            assert(esc_byte(u[k])[4] == v@[i + 4]);
                            assert(esc_byte(u[k])[5] == v@[i + 5]);
                            assert(hex_digit(u[k] as int / 16) == h1);
                            assert(hex_digit(u[k] as int % 16) == h2);
                            assert(u[k] as int / 16 == h1 - 0x30);
                            assert(hex_digit(lo as int) == h2);
                            assert(u[k] as int % 16 == lo as int);
                            assert(u[k] == val);
                            assert(u.take(k + 1) =~= u.take(k).push(u[k]));
                            assert(out@ =~= u.take(k + 1));
                        }
                    }
                    i = i + 6;
                } else {
                    proof {
                        assert forall|u: Seq<u8>, e2: int|
                #![trigger v@.subrange(pos as int, e2), esc(u)]
                            pos <= e2 <= v.len() && v@.subrange(pos as int, e2) == esc(u) + seq![
                                0x22u8,
                            ] implies false by {
                            let k = out@.len() as int;
                            lemma_unesc_step(v@, pos as int, i as int, e2, u, k);
                            assert(esc_byte(u[k])[0] == 0x5cu8);
                            assert(esc_byte(u[k])[1] == v@[i + 1]);
                            assert(u[k] < 0x20);
                            assert(esc_byte(u[k])[2] == v@[i + 2]);
                            assert(esc_byte(u[k])[3] == v@[i + 3]);
                            assert(esc_byte(u[k])[4] == v@[i + 4]);
                            assert(esc_byte(u[k])[5] == v@[i + 5]);
                            assert(u[k] as int / 16 == 0 || u[k] as int / 16 == 1);
                            assert(hex_digit(u[k] as int / 16) == h1);
                            assert(h1 == 0x30 || h1 == 0x31);
                            assert(hex_digit(u[k] as int % 16) == h2);
                        }
                    }
                    return None;
                }
            } else {
                proof {
                    assert forall|u: Seq<u8>, e2: int|
                #![trigger v@.subrange(pos as int, e2), esc(u)]
                        pos <= e2 <= v.len() && v@.subrange(pos as int, e2) == esc(u) + seq![
                            0x22u8,
                        ] implies false by {
                        let k = out@.len() as int;
                        lemma_unesc_step(v@, pos as int, i as int, e2, u, k);
                        assert(esc_byte(u[k])[0] == 0x5cu8);
                        assert(esc_byte(u[k])[1] == v@[i + 1]);
                    }
                }
                return None;
            }
        } else if b < 0x20 {
            proof {
                assert forall|u: Seq<u8>, e2: int|
                #![trigger v@.subrange(pos as int, e2), esc(u)]
                    pos <= e2 <= v.len() && v@.subrange(pos as int, e2) == esc(u) + seq![0x22u8]
                    implies false by {
                    let k = out@.len() as int;
                    lemma_unesc_step(v@, pos as int, i as int, e2, u, k);
                    assert(esc_byte(u[k])[0] == v@[i as int]);
                }
            }
            return None;
        } else {
            let ghost out0 = out@;
            out.push(b);
            proof {
                assert(esc_byte(b) =~= seq![b]);
                lemma_esc_push(out0, b);
                assert(v@.subrange(pos as int, i + 1) =~= v@.subrange(pos as int, i as int)
                    + esc_byte(b));
                assert forall|u: Seq<u8>, e2: int|
                #![trigger v@.subrange(pos as int, e2), esc(u)]
                    pos <= e2 <= v.len() && v@.subrange(pos as int, e2) == esc(u) + seq![0x22u8]
                    implies out@.len() <= u.len() && out@ == u.take(out@.len() as int) by {
                    let k = out0.len() as int;
                    lemma_unesc_step(v@, pos as int, i as int, e2, u, k);
                    assert(esc_byte(u[k])[0] == v@[i as int]);
                    assert(esc_byte(u[k])[0] != 0x5cu8);
                    assert(esc_byte(u[k]) == seq![u[k]]);
                    assert(u[k] == b);
                    assert(u.take(k + 1) =~= u.take(k).push(u[k]));
                    assert(out@ =~= u.take(k + 1));
                }
            }
            i = i + 1;
        }
    }
}

/// Relies on `String::from_utf8`: it succeeds exactly on valid UTF-8 input
/// and returns the string that those bytes spell.
#[verifier::external_body]
fn string_from_utf8(bytes: Vec<u8>) -> (r: Option<String>)
    ensures
        r is Some <==> valid_utf8(bytes@),
        r matches Some(s) ==> s@ == decode_utf8(bytes@),
{
    String::from_utf8(bytes).ok()
}

/// Parse one escaped JSON string field from `pos` up to and through its
/// closing quote. Succeeds exactly when the window holds the canonical
/// field of some text, and then returns that text.
fn parse_str_field(v: &Vec<u8>, pos: usize) -> (r: Option<(String, usize)>)
    requires
        pos <= v.len(),
    ensures
        r matches Some(se) ==> pos < se.1 <= v.len() && v@.subrange(pos as int, se.1 as int)
            == str_field(se.0@),
        forall|c: Seq<char>, e2: int|
            #![trigger str_field(c), v@.subrange(pos as int, e2)]
            pos <= e2 <= v.len() && v@.subrange(pos as int, e2) == str_field(c) ==> (
            r matches Some(se) && se.0@ == c && se.1 == e2),
{
    broadcast use encode_utf8_valid_utf8, encode_utf8_decode_utf8, decode_utf8_encode_utf8;

    match unescape_field(v, pos) {
        Some((w, e)) => {
            let ghost wb = w@;
            match string_from_utf8(w) {
                Some(s) => {
                    proof {
                        assert(encode_utf8(s@) == wb);
                        assert(str_field(s@) == esc(wb) + seq![0x22u8]);
                        assert forall|c: Seq<char>, e2: int|
                            pos <= e2 <= v.len() && v@.subrange(pos as int, e2) == str_field(c)
                            implies s@ == c && e == e2 by {
                            assert(v@.subrange(pos as int, e2) == esc(encode_utf8(c)) + seq![
                                0x22u8,
                            ]);
                            assert(wb == encode_utf8(c));
                            assert(decode_utf8(encode_utf8(c)) == c);
                        }
                    }
                    Some((s, e))
                },
                None => {
                    proof {
                        assert forall|c: Seq<char>, e2: int|
                            pos <= e2 <= v.len() && v@.subrange(pos as int, e2) == str_field(c)
                            implies false by {
                            assert(v@.subrange(pos as int, e2) == esc(encode_utf8(c)) + seq![
                                0x22u8,
                            ]);
                            assert(wb == encode_utf8(c));
                            assert(valid_utf8(wb));
                        }
                    }
                    None
                },
            }
        },
        None => {
            proof {
                assert forall|c: Seq<char>, e2: int|
                    pos <= e2 <= v.len() && v@.subrange(pos as int, e2) == str_field(c) implies
                    false by {
                    assert(v@.subrange(pos as int, e2) == esc(encode_utf8(c)) + seq![0x22u8]);
                }
            }
            None
        },
    }
}

/// Soundness assembly for `decode_project`: adjacent windows holding the
/// eleven canonical pieces make the whole sequence the canonical record.
#[verifier::rlimit(60)]
proof fn lemma_decode_sound(
    s: Seq<u8>,
    pv: ProjectV,
    pos1: int,
    pos2: int,
    pos3: int,
    pos4: int,
    pos5: int,
    pos6: int,
    pos7: int,
    pos8: int,
    pos9: int,
    pos10: int,
)
    requires
        pos1 == lit_head().len(),
        pos2 == pos1 + 30,
        pos3 == pos2 + lit_desc().len(),
        pos3 <= pos4,
        pos5 == pos4 + lit_id().len(),
        pos5 <= pos6,
        pos7 == pos6 + lit_name().len(),
        pos7 <= pos8,
        pos9 == pos8 + lit_upd().len(),
        pos10 == pos9 + 30,
        s.len() == pos10 + lit_tail().len(),
        s.subrange(0, pos1) == lit_head(),
        s.subrange(pos1, pos2) == ts_bytes(pv.created_at),
        s.subrange(pos2, pos3) == lit_desc(),
        s.subrange(pos3, pos4) == str_field(pv.description),
        s.subrange(pos4, pos5) == lit_id(),
        s.subrange(pos5, pos6) == str_field(pv.id),
        s.subrange(pos6, pos7) == lit_name(),
        s.subrange(pos7, pos8) == str_field(pv.name),
        s.subrange(pos8, pos9) == lit_upd(),
        s.subrange(pos9, pos10) == ts_bytes(pv.updated_at),
        s.subrange(pos10, s.len() as int) == lit_tail(),
    ensures
        s == encode_spec(pv),
{
    let a02 = lit_head() + ts_bytes(pv.created_at);
    let a03 = a02 + lit_desc();
    let a04 = a03 + str_field(pv.description);
    let a05 = a04 + lit_id();
    let a06 = a05 + str_field(pv.id);
    let a07 = a06 + lit_name();
    let a08 = a07 + str_field(pv.name);
    let a09 = a08 + lit_upd();
    let a10 = a09 + ts_bytes(pv.updated_at);
    lemma_concat_join(s, lit_head(), ts_bytes(pv.created_at), 0);
    lemma_concat_join(s, a02, lit_desc(), 0);
    lemma_concat_join(s, a03, str_field(pv.description), 0);
    lemma_concat_join(s, a04, lit_id(), 0);
    lemma_concat_join(s, a05, str_field(pv.id), 0);
    lemma_concat_join(s, a06, lit_name(), 0);
    lemma_concat_join(s, a07, str_field(pv.name), 0);
    lemma_concat_join(s, a08, lit_upd(), 0);
    lemma_concat_join(s, a09, ts_bytes(pv.updated_at), 0);
    lemma_concat_join(s, a10, lit_tail(), 0);
    assert(s.subrange(0, s.len() as int) =~= s);
}

/// Uniqueness for `decode_project`: the strict parsers pin every field, so
/// a sequence that is the canonical record of any well-formed value is the
/// record of the parsed one.
#[verifier::rlimit(60)]
proof fn lemma_decode_unique(
    s: Seq<u8>,
    rv: ProjectV,
    pos1: int,
    pos3: int,
    pos4: int,
    pos5: int,
    pos6: int,
    pos7: int,
    pos8: int,
    pos9: int,
)
    requires
        pos1 == lit_head().len(),
        pos3 == pos1 + 30 + lit_desc().len(),
        pos5 == pos4 + lit_id().len(),
        pos7 == pos6 + lit_name().len(),
        pos9 == pos8 + lit_upd().len(),
        forall|t: Timestamp|
            t.wf() && s.subrange(pos1, pos1 + 30) == ts_bytes(t) ==> t == rv.created_at,
        forall|c: Seq<char>, e2: int|
            #![trigger str_field(c), s.subrange(pos3, e2)]
            pos3 <= e2 <= s.len() && s.subrange(pos3, e2) == str_field(c) ==> (c == rv.description
                && e2 == pos4),
        forall|c: Seq<char>, e2: int|
            #![trigger str_field(c), s.subrange(pos5, e2)]
            pos5 <= e2 <= s.len() && s.subrange(pos5, e2) == str_field(c) ==> (c == rv.id && e2
                == pos6),
        forall|c: Seq<char>, e2: int|
            #![trigger str_field(c), s.subrange(pos7, e2)]
            pos7 <= e2 <= s.len() && s.subrange(pos7, e2) == str_field(c) ==> (c == rv.name && e2
                == pos8),
        forall|t: Timestamp|
            t.wf() && s.subrange(pos9, pos9 + 30) == ts_bytes(t) ==> t == rv.updated_at,
    ensures
        forall|pv: ProjectV|
            #![trigger encode_spec(pv)]
            pv.wf() && s == encode_spec(pv) ==> pv == rv,
{
    assert forall|pv: ProjectV| pv.wf() && s == encode_spec(pv) implies pv == rv by {
        lemma_record_split(s, pv);
        assert(s.subrange(pos1, pos1 + 30) == ts_bytes(pv.created_at));
        assert(pv.created_at == rv.created_at);
        assert(pos3 == off_desc());
        assert(s.subrange(pos3, off_desc() + str_field(pv.description).len()) == str_field(
            pv.description,
        ));
        assert(pv.description == rv.description);
        assert(pos4 == off_desc() + str_field(pv.description).len());
        assert(pos5 == off_id(pv));
        assert(s.subrange(pos5, off_id(pv) + str_field(pv.id).len()) == str_field(pv.id));
        assert(pv.id == rv.id);
        assert(pos6 == off_id(pv) + str_field(pv.id).len());
        assert(pos7 == off_name(pv));
        assert(s.subrange(pos7, off_name(pv) + str_field(pv.name).len()) == str_field(pv.name));
        assert(pv.name == rv.name);
        assert(pos8 == off_name(pv) + str_field(pv.name).len());
        assert(pos9 == off_upd(pv));
        assert(s.subrange(pos9, pos9 + 30) == ts_bytes(pv.updated_at));
        assert(pv.updated_at == rv.updated_at);
    }
}

/// Deserialize canonical `project.json` bytes. The result is a project
/// exactly when the bytes are the canonical record of some well-formed
/// project value, and then it is that value: decoding inverts encoding.
#[verifier::rlimit(80)]
pub fn decode_project(v: &Vec<u8>) -> (r: Option<Project>)
    ensures
        r matches Some(p) ==> p@.wf() && v@ == encode_spec(p@),
        forall|pv: ProjectV|
            #![trigger encode_spec(pv)]
            pv.wf() && v@ == encode_spec(pv) ==> (r matches Some(p) && p@ == pv),
{
    let ghost can = exists|pv: ProjectV| pv.wf() && v@ == encode_spec(pv);
    let ghost gpv: ProjectV = if can {
        choose|pv: ProjectV| pv.wf() && v@ == encode_spec(pv)
    } else {
        arbitrary()
    };
    proof {
        if can {
            lemma_record_split(v@, gpv);
        }
    }
    let pos1 = match check_lit(v, 0, "{\n  \"created_at\": \"".as_bytes()) {
        Some(e) => e,
        None => {
            proof {
                if can {
                    assert(false);
                }
            }
            return None;
        },
    };
    if v.len() - pos1 < 30 {
            proof {
                if can {
                    assert(false);
                }
            }
            return None;
    }
    proof {
        if can {
            assert(v@.subrange(pos1 as int, pos1 as int + 30) == ts_bytes(gpv.created_at));
        }
    }
    let created = match parse_ts(v, pos1) {
        Some(t) => t,
        None => {
            proof {
                if can {
                    assert(false);
                }
            }
            return None;
        },
    };
    let pos2 = pos1 + 30;
    let pos3 = match check_lit(v, pos2, "\",\n  \"description\": \"".as_bytes()) {
        Some(e) => e,
        None => {
            proof {
                if can {
                    assert(false);
                }
            }
            return None;
        },
    };
    proof {
        if can {
            assert(pos3 == off_desc());
            assert(v@.subrange(pos3 as int, off_desc() + str_field(gpv.description).len())
                == str_field(gpv.description));
        }
    }
    let (desc, pos4) = match parse_str_field(v, pos3) {
        Some(se) => se,
        None => {
            proof {
                if can {
                    assert(false);
                }
            }
            return None;
        },
    };
    proof {
        if can {
            assert(desc@ == gpv.description);
            assert(pos4 == off_desc() + str_field(gpv.description).len());
        }
    }
    let pos5 = match check_lit(v, pos4, ",\n  \"id\": \"".as_bytes()) {
        Some(e) => e,
        None => {
            proof {
                if can {
                    assert(false);
                }
            }
            return None;
        },
    };
    proof {
        if can {
            assert(pos5 == off_id(gpv));
            assert(v@.subrange(pos5 as int, off_id(gpv) + str_field(gpv.id).len()) == str_field(
                gpv.id,
            ));
        }
    }
    let (id, pos6) = match parse_str_field(v, pos5) {
        Some(se) => se,
        None => {
            proof {
                if can {
                    assert(false);
                }
            }
            return None;
        },
    };
    proof {
        if can {
            assert(id@ == gpv.id);
            assert(pos6 == off_id(gpv) + str_field(gpv.id).len());
        }
    }
    let pos7 = match check_lit(v, pos6, ",\n  \"name\": \"".as_bytes()) {
        Some(e) => e,
        None => {
            proof {
                if can {
                    assert(false);
                }
            }
            return None;
        },
    };
    proof {
        if can {
            assert(pos7 == off_name(gpv));
            assert(v@.subrange(pos7 as int, off_name(gpv) + str_field(gpv.name).len())
                == str_field(gpv.name));
        }
    }
    let (name, pos8) = match parse_str_field(v, pos7) {
        Some(se) => se,
        None => {
            proof {
                if can {
                    assert(false);
                }
            }
            return None;
        },
    };
    proof {
        if can {
            assert(name@ == gpv.name);
            assert(pos8 == off_name(gpv) + str_field(gpv.name).len());
        }
    }
    let pos9 = match check_lit(v, pos8, ",\n  \"updated_at\": \"".as_bytes()) {
        Some(e) => e,
        None => {
            proof {
                if can {
                    assert(false);
                }
            }
            return None;
        },
    };
    if v.len() - pos9 < 30 {
        proof {
            if can {
                assert(pos9 == off_upd(gpv));
                assert(false);
            }
        }
        return None;
    }
    proof {
        if can {
            assert(pos9 == off_upd(gpv));
            assert(v@.subrange(pos9 as int, pos9 as int + 30) == ts_bytes(gpv.updated_at));
        }
    }
    let updated = match parse_ts(v, pos9) {
        Some(t) => t,
        None => {
            proof {
                if can {
                    assert(false);
                }
            }
            return None;
        },
    };
    let pos10 = pos9 + 30;
    let pos11 = match check_lit(v, pos10, "\"\n}".as_bytes()) {
        Some(e) => e,
        None => {
            proof {
                if can {
                    assert(false);
                }
            }
            return None;
        },
    };
    if pos11 != v.len() {
            proof {
                if can {
                    assert(false);
                }
            }
            return None;
    }
    let p = Project { id, name, description: desc, created_at: created, updated_at: updated };
    proof {
        lemma_decode_sound(
            v@,
            p@,
            pos1 as int,
            pos2 as int,
            pos3 as int,
            pos4 as int,
            pos5 as int,
            pos6 as int,
            pos7 as int,
            pos8 as int,
            pos9 as int,
            pos10 as int,
        );
        lemma_decode_unique(
            v@,
            p@,
            pos1 as int,
            pos3 as int,
            pos4 as int,
            pos5 as int,
            pos6 as int,
            pos7 as int,
            pos8 as int,
            pos9 as int,
        );
    }
    Some(p)
}

/// Escaped strings are prefix-free up to their closing quote: one sequence
/// cannot be read as two different quote-terminated escaped strings.
#[verifier::rlimit(60)]
pub proof fn lemma_esc_prefix_free(s: Seq<u8>, a: Seq<u8>, b: Seq<u8>, x: Seq<u8>, y: Seq<u8>)
    requires
        s == esc(a) + seq![0x22u8] + x,
        s == esc(b) + seq![0x22u8] + y,
    ensures
        a == b,
        x == y,
    decreases a.len(),
{
    if a.len() == 0 && b.len() == 0 {
        assert(esc(a) == Seq::<u8>::empty());
        assert(esc(b) == Seq::<u8>::empty());
        assert(x.len() == y.len());
        assert forall|i: int| 0 <= i < x.len() implies x[i] == y[i] by {
            assert((esc(a) + seq![0x22u8] + x)[1 + i] == x[i]);
            assert((esc(b) + seq![0x22u8] + y)[1 + i] == y[i]);
        }
        assert(x =~= y);
        assert(a =~= b);
    } else if a.len() == 0 {
        assert(esc(a) == Seq::<u8>::empty());
        assert(s[0] == 0x22u8);
        assert(esc(b) == esc_byte(b[0]) + esc(b.drop_first()));
        assert(esc_byte(b[0]).len() >= 1);
        assert(s[0] == esc_byte(b[0])[0]);
        assert(false);
    } else if b.len() == 0 {
        assert(esc(b) == Seq::<u8>::empty());
        assert(s[0] == 0x22u8);
        assert(esc(a) == esc_byte(a[0]) + esc(a.drop_first()));
        assert(esc_byte(a[0]).len() >= 1);
        assert(s[0] == esc_byte(a[0])[0]);
        assert(false);
    } else {
        let a0 = a[0];
        let b0 = b[0];
        assert(esc(a) == esc_byte(a0) + esc(a.drop_first()));
        assert(esc(b) == esc_byte(b0) + esc(b.drop_first()));
        assert(esc_byte(a0).len() >= 1);
        assert(esc_byte(b0).len() >= 1);
        assert(s[0] == esc_byte(a0)[0]);
        assert(s[0] == esc_byte(b0)[0]);
        if a0 == 0x22 || a0 == 0x5c || a0 < 0x20 {
            assert(s[0] == 0x5cu8);
            assert(b0 == 0x22 || b0 == 0x5c || b0 < 0x20);
            assert(esc_byte(a0).len() >= 2);
            assert(esc_byte(b0).len() >= 2);
            assert(s[1] == esc_byte(a0)[1]);
            assert(s[1] == esc_byte(b0)[1]);
            if a0 == 0x22 {
                assert(s[1] == 0x22u8);
                assert(b0 == 0x22);
            } else if a0 == 0x5c {
                assert(s[1] == 0x5cu8);
                assert(b0 == 0x5c);
            } else {
                assert(s[1] == 0x75u8);
                assert(b0 < 0x20);
                assert(esc_byte(a0).len() == 6);
                assert(esc_byte(b0).len() == 6);
                assert(s[4] == hex_digit(a0 as int / 16));
                assert(s[4] == hex_digit(b0 as int / 16));
                assert(a0 as int / 16 < 2 && b0 as int / 16 < 2);
                assert(a0 as int / 16 == b0 as int / 16);
                assert(s[5] == hex_digit(a0 as int % 16));
                assert(s[5] == hex_digit(b0 as int % 16));
                assert(a0 as int % 16 == b0 as int % 16);
                assert(a0 == b0);
            }
        } else {
            assert(esc_byte(a0) == seq![a0]);
            assert(s[0] == a0);
            if b0 == 0x22 || b0 == 0x5c || b0 < 0x20 {
                assert(esc_byte(b0)[0] == 0x5cu8);
                assert(false);
            }
            assert(esc_byte(b0) == seq![b0]);
            assert(a0 == b0);
        }
        assert(a0 == b0);
        let l = esc_byte(a0).len() as int;
        assert(s.skip(l) =~= esc(a.drop_first()) + seq![0x22u8] + x);
        assert(s.skip(l) =~= esc(b.drop_first()) + seq![0x22u8] + y);
        lemma_esc_prefix_free(s.skip(l), a.drop_first(), b.drop_first(), x, y);
        assert(a =~= seq![a0] + a.drop_first());
        assert(b =~= seq![b0] + b.drop_first());
        assert(a =~= b);
    }
}

/// The canonical record pins the project value: two well-formed values
/// with the same `project.json` bytes are equal. With `decode_project`'s
/// contract this is the save-then-load round trip, stated of the
/// specification itself.
#[verifier::rlimit(80)]
pub proof fn lemma_encode_injective(p: ProjectV, q: ProjectV)
    requires
        p.wf(),
        q.wf(),
        encode_spec(p) == encode_spec(q),
    ensures
        p == q,
{
    broadcast use encode_utf8_decode_utf8;

    let s = encode_spec(p);
    lemma_record_split(s, p);
    lemma_record_split(s, q);
    assert(ts_bytes(p.created_at) == ts_bytes(q.created_at));
    crate::timestamp::lemma_ts_bytes_inj(p.created_at, q.created_at);
    let ap = encode_utf8(p.description);
    let aq = encode_utf8(q.description);
    let lp = str_field(p.description).len() as int;
    let lq = str_field(q.description).len() as int;
    let t = s.skip(off_desc());
    assert(t =~= esc(ap) + seq![0x22u8] + s.skip(off_desc() + lp));
    assert(t =~= esc(aq) + seq![0x22u8] + s.skip(off_desc() + lq));
    lemma_esc_prefix_free(t, ap, aq, s.skip(off_desc() + lp), s.skip(off_desc() + lq));
    assert(decode_utf8(ap) == p.description);
    assert(decode_utf8(aq) == q.description);
    assert(p.description == q.description);
    assert(off_id(p) == off_id(q));
    let ip = encode_utf8(p.id);
    let iq = encode_utf8(q.id);
    let lip = str_field(p.id).len() as int;
    let liq = str_field(q.id).len() as int;
    let t2 = s.skip(off_id(p));
    assert(t2 =~= esc(ip) + seq![0x22u8] + s.skip(off_id(p) + lip));
    assert(t2 =~= esc(iq) + seq![0x22u8] + s.skip(off_id(q) + liq));
    lemma_esc_prefix_free(t2, ip, iq, s.skip(off_id(p) + lip), s.skip(off_id(q) + liq));
    assert(decode_utf8(ip) == p.id);
    assert(decode_utf8(iq) == q.id);
    assert(p.id == q.id);
    assert(off_name(p) == off_name(q));
    let np = encode_utf8(p.name);
    let nq = encode_utf8(q.name);
    let lnp = str_field(p.name).len() as int;
    let lnq = str_field(q.name).len() as int;
    let t3 = s.skip(off_name(p));
    assert(t3 =~= esc(np) + seq![0x22u8] + s.skip(off_name(p) + lnp));
    assert(t3 =~= esc(nq) + seq![0x22u8] + s.skip(off_name(q) + lnq));
    lemma_esc_prefix_free(t3, np, nq, s.skip(off_name(p) + lnp), s.skip(off_name(q) + lnq));
    assert(decode_utf8(np) == p.name);
    assert(decode_utf8(nq) == q.name);
    assert(p.name == q.name);
    assert(off_upd(p) == off_upd(q));
    assert(ts_bytes(p.updated_at) == ts_bytes(q.updated_at));
    crate::timestamp::lemma_ts_bytes_inj(p.updated_at, q.updated_at);
}

} // verus!
