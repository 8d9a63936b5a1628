use crate::index::{dedup_from_set, digest_set, lemma_views_to_set, views, SizeIndex};
use vstd::prelude::*;
use vstd::slice::{slice_subrange, slice_to_vec};
use vstd::utf8::valid_utf8;

verus! {

pub const NEWLINE: u8 = 10;

pub const RETURN: u8 = 13;

pub const COMMA: u8 = 44;

pub const PLUS: u8 = 43;

pub const COLON: u8 = 58;

/// Why a catalog text does not describe an index. Lines count from one.
#[derive(Debug, Clone, Copy, PartialEq, Eq, Structural)]
pub enum ArtifactError {
    /// The line holds no `:`.
    MalformedLine { line: usize },
    /// The text before the first `:` is not a length.
    InvalidLength { line: usize },
    /// The text is not UTF-8.
    NotText,
}

/// ASCII whitespace: space, tab, line feed, vertical tab, form feed, return.
pub open spec fn is_space(b: u8) -> bool {
    b == 32 || (9 <= b && b <= 13)
}

pub open spec fn is_digit(b: u8) -> bool {
    48 <= b && b <= 57
}

/// The pieces of `t` between the separators, in order; always at least one.
pub open spec fn split(t: Seq<u8>, sep: u8) -> Seq<Seq<u8>>
    decreases t.len(),
{
    if t.len() == 0 {
        seq![Seq::<u8>::empty()]
    } else {
        let p = split(t.drop_last(), sep);
        if t.last() == sep {
            p.push(Seq::<u8>::empty())
        } else {
            p.update(p.len() - 1, p.last().push(t.last()))
        }
    }
}

pub open spec fn strip_return(l: Seq<u8>) -> Seq<u8> {
    if l.len() > 0 && l.last() == RETURN {
        l.drop_last()
    } else {
        l
    }
}

/// The lines of a text: split at line feeds, without the empty piece after a
/// final line feed, each without a trailing return.
pub open spec fn lines(t: Seq<u8>) -> Seq<Seq<u8>> {
    let p = split(t, NEWLINE);
    let q = if p.last().len() == 0 {
        p.drop_last()
    } else {
        p
    };
    q.map_values(|l: Seq<u8>| strip_return(l))
}

/// `t` is exactly one Unicode `White_Space` character written in UTF-8.
pub open spec fn is_space_char(t: Seq<u8>) -> bool {
    ||| t.len() == 1 && is_space(t[0])
    ||| t.len() == 2 && t[0] == 0xC2 && (t[1] == 0x85 || t[1] == 0xA0)
    ||| t.len() == 3 && t[0] == 0xE1 && t[1] == 0x9A && t[2] == 0x80
    ||| t.len() == 3 && t[0] == 0xE2 && t[1] == 0x80 && ((0x80 <= t[2] && t[2] <= 0x8A) || t[2]
        == 0xA8 || t[2] == 0xA9 || t[2] == 0xAF)
    ||| t.len() == 3 && t[0] == 0xE2 && t[1] == 0x81 && t[2] == 0x9F
    ||| t.len() == 3 && t[0] == 0xE3 && t[1] == 0x80 && t[2] == 0x80
}

/// The byte length of the whitespace character that `s` starts with, or 0.
pub open spec fn lead_space(s: Seq<u8>) -> int {
    if s.len() >= 1 && is_space_char(s.take(1)) {
        1
    } else if s.len() >= 2 && is_space_char(s.take(2)) {
        2
    } else if s.len() >= 3 && is_space_char(s.take(3)) {
        3
    } else {
        0
    }
}

/// The byte length of the whitespace character that `s` ends with, or 0.
pub open spec fn trail_space(s: Seq<u8>) -> int {
    if s.len() >= 1 && is_space_char(s.skip(s.len() - 1)) {
        1
    } else if s.len() >= 2 && is_space_char(s.skip(s.len() - 2)) {
        2
    } else if s.len() >= 3 && is_space_char(s.skip(s.len() - 3)) {
        3
    } else {
        0
    }
}

pub open spec fn trim_start(s: Seq<u8>) -> Seq<u8>
    decreases s.len(),
{
    if lead_space(s) > 0 {
        trim_start(s.skip(lead_space(s)))
    } else {
        s
    }
}

pub open spec fn trim_end(s: Seq<u8>) -> Seq<u8>
    decreases s.len(),
{
    if trail_space(s) > 0 {
        trim_end(s.take(s.len() - trail_space(s)))
    } else {
        s
    }
}

/// `s` without leading and trailing Unicode whitespace.
pub open spec fn trim(s: Seq<u8>) -> Seq<u8> {
    trim_end(trim_start(s))
}

/// The value of a string of decimal digits.
pub open spec fn digits_value(s: Seq<u8>) -> nat
    decreases s.len(),
{
    if s.len() == 0 {
        0
    } else {
        digits_value(s.drop_last()) * 10 + (s.last() - 48) as nat
    }
}

/// `s` without one leading `+`.
pub open spec fn unsigned_part(s: Seq<u8>) -> Seq<u8> {
    if s.len() > 0 && s[0] == PLUS {
        s.drop_first()
    } else {
        s
    }
}

pub open spec fn all_digits(d: Seq<u8>) -> bool {
    forall|i: int| 0 <= i < d.len() ==> is_digit(#[trigger] d[i])
}

/// A length written in decimal, with an optional leading `+`, that fits in 64 bits.
pub open spec fn parse_length(s: Seq<u8>) -> Option<u64> {
    let d = unsigned_part(s);
    if d.len() > 0 && all_digits(d) && digits_value(d) <= u64::MAX {
        Some(digits_value(d) as u64)
    } else {
        None
    }
}

/// The shortest decimal writing of `n`.
pub open spec fn decimal(n: nat) -> Seq<u8>
    decreases n,
{
    if n < 10 {
        seq![(48 + n) as u8]
    } else {
        decimal(n / 10).push((48 + n % 10) as u8)
    }
}

/// `c` is the position of the first `:` of `l`.
pub open spec fn colon_at(l: Seq<u8>, c: int) -> bool {
    &&& 0 <= c < l.len()
    &&& l[c] == COLON
    &&& forall|j: int| 0 <= j < c ==> l[j] != COLON
}

/// The digests of a line whose first `:` is at `c`: the comma-separated
/// pieces after it, trimmed.
pub open spec fn line_digests(l: Seq<u8>, c: int) -> Seq<Seq<u8>> {
    split(l.skip(c + 1), COMMA).map_values(|d: Seq<u8>| trim(d))
}

/// The index that the lines `ls` describe, each line setting the bucket of
/// its length, or the fault of the first line that describes none.
pub open spec fn parse_lines(ls: Seq<Seq<u8>>) -> Result<Map<u64, Set<Seq<u8>>>, ArtifactError>
    decreases ls.len(),
{
    if ls.len() == 0 {
        Ok(Map::empty())
    } else {
        match parse_lines(ls.drop_last()) {
            Err(e) => Err(e),
            Ok(m) => {
                let l = ls.last();
                if exists|c: int| colon_at(l, c) {
                    let c = choose|c: int| colon_at(l, c);
                    match parse_length(trim(l.take(c))) {
                        Some(n) => Ok(m.insert(n, line_digests(l, c).to_set())),
                        None => Err(ArtifactError::InvalidLength { line: ls.len() as usize }),
                    }
                } else {
                    Err(ArtifactError::MalformedLine { line: ls.len() as usize })
                }
            },
        }
    }
}

/// The index that a catalog text describes.
pub open spec fn parse_artifact(t: Seq<u8>) -> Result<Map<u64, Set<Seq<u8>>>, ArtifactError> {
    if valid_utf8(t) {
        parse_lines(lines(t))
    } else {
        Err(ArtifactError::NotText)
    }
}

/// Relies on `std::str::from_utf8`: it fails exactly when the bytes are not UTF-8.
#[verifier::external_body]
fn is_utf8(b: &[u8]) -> (r: bool)
    ensures
        r == valid_utf8(b@),
{
    std::str::from_utf8(b).is_ok()
}

/// The digests joined by commas.
pub open spec fn join(ds: Seq<Seq<u8>>) -> Seq<u8>
    decreases ds.len(),
{
    if ds.len() == 0 {
        Seq::empty()
    } else if ds.len() == 1 {
        ds[0]
    } else {
        join(ds.drop_last()) + seq![COMMA] + ds.last()
    }
}

/// One bucket's line, without its line feed: `LENGTH:DIGEST,DIGEST,...`.
pub open spec fn line_body(e: (u64, Seq<Seq<u8>>)) -> Seq<u8> {
    decimal(e.0 as nat) + seq![COLON] + join(e.1)
}

/// The lines of the buckets, in order, each ended by a line feed.
pub open spec fn render(es: Seq<(u64, Seq<Seq<u8>>)>) -> Seq<u8>
    decreases es.len(),
{
    if es.len() == 0 {
        Seq::empty()
    } else {
        render(es.drop_last()) + line_body(es.last()) + seq![NEWLINE]
    }
}

/// A bucket listed with each of its digests once.
pub open spec fn lists_bucket(m: Map<u64, Set<Seq<u8>>>, e: (u64, Seq<Seq<u8>>)) -> bool {
    &&& m.contains_key(e.0)
    &&& e.1.len() > 0
    &&& e.1.no_duplicates()
    &&& e.1.to_set() == m[e.0]
}

/// `es` lists every bucket of `m` once, in some order.
pub open spec fn lists_index(m: Map<u64, Set<Seq<u8>>>, es: Seq<(u64, Seq<Seq<u8>>)>) -> bool {
    &&& forall|i: int, j: int| 0 <= i < j < es.len() ==> es[i].0 != es[j].0
    &&& forall|l: u64| #[trigger]
        m.contains_key(l) <==> exists|i: int| 0 <= i < es.len() && es[i].0 == l
    &&& forall|i: int| 0 <= i < es.len() ==> lists_bucket(m, #[trigger] es[i])
}

/// `t` is a catalog of `m`: one line per bucket, buckets and digests in any order.
pub open spec fn serialized(m: Map<u64, Set<Seq<u8>>>, t: Seq<u8>) -> bool {
    exists|es: Seq<(u64, Seq<Seq<u8>>)>| lists_index(m, es) && t == render(es)
}

fn append_bytes(out: &mut Vec<u8>, b: &[u8])
    ensures
        final(out)@ == old(out)@ + b@,
{
    let mut i: usize = 0;
    while i < b.len()
        invariant
            i <= b.len(),
            out@ == old(out)@ + b@.take(i as int),
        decreases b.len() - i,
    {
        out.push(b[i]);
        i = i + 1;
        assert(b@.take(i as int) =~= b@.take(i - 1).push(b@[i - 1]));
    }
    assert(b@.take(i as int) =~= b@);
}

fn append_decimal(out: &mut Vec<u8>, n: u64)
    ensures
        final(out)@ == old(out)@ + decimal(n as nat),
    decreases n,
{
    if n >= 10 {
        append_decimal(out, n / 10);
    }
    out.push(48u8 + (n % 10) as u8);
    assert(out@ =~= old(out)@ + decimal(n as nat));
}

fn append_join(out: &mut Vec<u8>, ds: &Vec<Vec<u8>>)
    ensures
        final(out)@ == old(out)@ + join(views(ds@)),
{
    let ghost vs = views(ds@);
    let mut i: usize = 0;
    while i < ds.len()
        invariant
            vs == views(ds@),
            i <= ds.len(),
            out@ == old(out)@ + join(vs.take(i as int)),
        decreases ds.len() - i,
    {
        if i > 0 {
            out.push(COMMA);
        }
        append_bytes(out, ds[i].as_slice());
        proof {
            let t = vs.take(i + 1);
            assert(t.drop_last() =~= vs.take(i as int));
            assert(t.last() == ds@[i as int]@);
            if i == 0 {
                assert(join(t) == t[0]);
            }
        }
        i = i + 1;
        assert(out@ =~= old(out)@ + join(vs.take(i as int)));
    }
    assert(vs.take(i as int) =~= vs);
}

/// Writes the catalog of an index: one line `LENGTH:DIGEST[,DIGEST]*` per
/// bucket, each ended by a line feed.
pub fn serialize(index: &SizeIndex) -> (r: Vec<u8>)
    requires
        index.wf(),
    ensures
        serialized(index@, r@),
{
    let lengths = index.lengths();
    let mut out: Vec<u8> = Vec::new();
    let ghost mut es: Seq<(u64, Seq<Seq<u8>>)> = Seq::empty();
    let mut i: usize = 0;
    while i < lengths.len()
        invariant
            index.wf(),
            lengths@.no_duplicates(),
            forall|l: u64| #[trigger] lengths@.contains(l) <==> index@.contains_key(l),
            i <= lengths.len(),
            es.len() == i,
            forall|j: int| 0 <= j < i ==> (#[trigger] es[j]).0 == lengths@[j],
            forall|j: int| 0 <= j < i ==> lists_bucket(index@, #[trigger] es[j]),
            out@ == render(es),
        decreases lengths.len() - i,
    {
        let len = lengths[i];
        assert(lengths@.contains(len));
        match index.bucket(len) {
            Some(v) => {
                let ghost before = out@;
                append_decimal(&mut out, len);
                out.push(COLON);
                append_join(&mut out, v);
                out.push(NEWLINE);
                proof {
                    lemma_views_to_set(v@);
                    let e = (len, views(v@));
                    assert(lists_bucket(index@, e));
                    let es2 = es.push(e);
                    assert(es2.drop_last() =~= es);
                    assert(out@ =~= render(es2));
                    es = es2;
                }
            },
            None => {
                // every listed length has a bucket
                assert(false);
            },
        }
        i = i + 1;
    }
    proof {
        assert forall|l: u64| #[trigger]
            index@.contains_key(l) <==> exists|j: int| 0 <= j < es.len() && es[j].0 == l by {
            if index@.contains_key(l) {
                assert(lengths@.contains(l));
                let j = choose|j: int| 0 <= j < lengths@.len() && lengths@[j] == l;
                assert(es[j].0 == l);
            }
            if exists|j: int| 0 <= j < es.len() && es[j].0 == l {
                let j = choose|j: int| 0 <= j < es.len() && es[j].0 == l;
                assert(lengths@[j] == l);
                assert(lengths@.contains(l));
            }
        }
        assert(lists_index(index@, es));
    }
    out
}

/// The pieces of `t` between the separators.
fn split_bytes(t: &[u8], sep: u8) -> (r: Vec<Vec<u8>>)
    ensures
        views(r@) == split(t@, sep),
{
    let mut pieces: Vec<Vec<u8>> = Vec::new();
    let mut cur: Vec<u8> = Vec::new();
    let mut i: usize = 0;
    assert(t@.take(0) =~= Seq::<u8>::empty());
    assert(views(pieces@).push(cur@) =~= split(t@.take(0), sep));
    while i < t.len()
        invariant
            i <= t.len(),
            views(pieces@).push(cur@) == split(t@.take(i as int), sep),
        decreases t.len() - i,
    {
        let ghost p0 = views(pieces@);
        let ghost c0 = cur@;
        assert(t@.take(i + 1).drop_last() =~= t@.take(i as int));
        if t[i] == sep {
            pieces.push(cur);
            cur = Vec::new();
            assert(views(pieces@) =~= p0.push(c0));
            assert(views(pieces@).push(cur@) =~= split(t@.take(i + 1), sep));
        } else {
            cur.push(t[i]);
            assert(views(pieces@) =~= p0);
            assert(views(pieces@).push(cur@) =~= p0.push(c0).update(p0.len() as int, c0.push(t@[i as int])));
        }
        i = i + 1;
    }
    let ghost p0 = views(pieces@);
    let ghost c0 = cur@;
    pieces.push(cur);
    assert(views(pieces@) =~= p0.push(c0));
    assert(t@.take(i as int) =~= t@);
    pieces
}

/// `s` without a trailing return.
fn strip_return_bytes(s: &[u8]) -> (r: &[u8])
    ensures
        r@ == strip_return(s@),
{
    if s.len() > 0 && s[s.len() - 1] == RETURN {
        let r = slice_subrange(s, 0, s.len() - 1);
        assert(r@ =~= s@.drop_last());
        r
    } else {
        s
    }
}

/// The position of the first `:` of `l`, if any.
fn find_colon(l: &[u8]) -> (r: Option<usize>)
    ensures
        match r {
            Some(c) => colon_at(l@, c as int),
            None => !exists|c: int| colon_at(l@, c),
        },
{
    let mut i: usize = 0;
    while i < l.len()
        invariant
            i <= l.len(),
            forall|j: int| 0 <= j < i ==> l@[j] != COLON,
        decreases l.len() - i,
    {
        if l[i] == COLON {
            return Some(i);
        }
        i = i + 1;
    }
    assert forall|c: int| !colon_at(l@, c) by {
        if 0 <= c < l@.len() {
            assert(l@[c] != COLON);
        }
    }
    None
}

/// Whether the `k` bytes of `s` from `i` are one whitespace character.
fn space_char_at(s: &[u8], i: usize, k: usize) -> (r: bool)
    requires
        1 <= k <= 3,
        i + k <= s.len(),
    ensures
        r == is_space_char(s@.subrange(i as int, i + k)),
{
    let ghost t = s@.subrange(i as int, i + k);
    assert(t.len() == k);
    if k == 1 {
        assert(t[0] == s@[i as int]);
        let c = s[i];
        c == 32 || (9 <= c && c <= 13)
    } else if k == 2 {
        assert(t[0] == s@[i as int] && t[1] == s@[i + 1]);
        s[i] == 0xC2 && (s[i + 1] == 0x85 || s[i + 1] == 0xA0)
    } else {
        assert(t[0] == s@[i as int] && t[1] == s@[i + 1] && t[2] == s@[i + 2]);
        let (x, y, z) = (s[i], s[i + 1], s[i + 2]);
        (x == 0xE1 && y == 0x9A && z == 0x80) || (x == 0xE2 && y == 0x80 && ((0x80 <= z && z
            <= 0x8A) || z == 0xA8 || z == 0xA9 || z == 0xAF)) || (x == 0xE2 && y == 0x81 && z
            == 0x9F) || (x == 0xE3 && y == 0x80 && z == 0x80)
    }
}

/// The byte length of the whitespace character that `s[a..b]` starts with, or 0.
fn lead_space_at(s: &[u8], a: usize, b: usize) -> (n: usize)
    requires
        a <= b <= s.len(),
    ensures
        n == lead_space(s@.subrange(a as int, b as int)),
{
    let ghost t = s@.subrange(a as int, b as int);
    if b - a >= 1 && space_char_at(s, a, 1) {
        assert(t.take(1) =~= s@.subrange(a as int, a + 1));
        return 1;
    }
    proof {
        if t.len() >= 1 {
            assert(t.take(1) =~= s@.subrange(a as int, a + 1));
        }
    }
    if b - a >= 2 && space_char_at(s, a, 2) {
        assert(t.take(2) =~= s@.subrange(a as int, a + 2));
        return 2;
    }
    proof {
        if t.len() >= 2 {
            assert(t.take(2) =~= s@.subrange(a as int, a + 2));
        }
    }
    if b - a >= 3 && space_char_at(s, a, 3) {
        assert(t.take(3) =~= s@.subrange(a as int, a + 3));
        return 3;
    }
    proof {
        if t.len() >= 3 {
            assert(t.take(3) =~= s@.subrange(a as int, a + 3));
        }
    }
    0
}

/// The byte length of the whitespace character that `s[a..b]` ends with, or 0.
fn trail_space_at(s: &[u8], a: usize, b: usize) -> (n: usize)
    requires
        a <= b <= s.len(),
    ensures
        n == trail_space(s@.subrange(a as int, b as int)),
{
    let ghost t = s@.subrange(a as int, b as int);
    if b - a >= 1 && space_char_at(s, b - 1, 1) {
        assert(t.skip(t.len() - 1) =~= s@.subrange(b - 1, b as int));
        return 1;
    }
    proof {
        if t.len() >= 1 {
            assert(t.skip(t.len() - 1) =~= s@.subrange(b - 1, b as int));
        }
    }
    if b - a >= 2 && space_char_at(s, b - 2, 2) {
        assert(t.skip(t.len() - 2) =~= s@.subrange(b - 2, b as int));
        return 2;
    }
    proof {
        if t.len() >= 2 {
            assert(t.skip(t.len() - 2) =~= s@.subrange(b - 2, b as int));
        }
    }
    if b - a >= 3 && space_char_at(s, b - 3, 3) {
        assert(t.skip(t.len() - 3) =~= s@.subrange(b - 3, b as int));
        return 3;
    }
    proof {
        if t.len() >= 3 {
            assert(t.skip(t.len() - 3) =~= s@.subrange(b - 3, b as int));
        }
    }
    0
}

/// `s` without leading and trailing Unicode whitespace.
fn trim_bytes(s: &[u8]) -> (r: &[u8])
    ensures
        r@ == trim(s@),
{
    let len = s.len();
    let mut a: usize = 0;
    assert(s@.subrange(0, len as int) =~= s@);
    let mut n = lead_space_at(s, 0, len);
    while n > 0
        invariant
            a <= len == s.len(),
            n == lead_space(s@.subrange(a as int, len as int)),
            trim_start(s@) == trim_start(s@.subrange(a as int, len as int)),
        decreases len - a,
    {
        assert(s@.subrange(a as int, len as int).skip(n as int) =~= s@.subrange(a + n, len as int));
        a = a + n;
        n = lead_space_at(s, a, len);
    }
    let mut b: usize = len;
    let mut m = trail_space_at(s, a, b);
    while m > 0
        invariant
            a <= b <= len == s.len(),
            m == trail_space(s@.subrange(a as int, b as int)),
            trim_end(s@.subrange(a as int, len as int)) == trim_end(s@.subrange(a as int, b as int)),
        decreases b - a,
    {
        assert(s@.subrange(a as int, b as int).take(b - a - m) =~= s@.subrange(a as int, b - m));
        b = b - m;
        m = trail_space_at(s, a, b);
    }
    slice_subrange(s, a, b)
}

proof fn lemma_digits_value_grows(d: Seq<u8>, i: int)
    requires
        0 <= i <= d.len(),
    ensures
        digits_value(d.take(i)) <= digits_value(d),
    decreases d.len() - i,
{
    if i < d.len() {
        lemma_digits_value_grows(d, i + 1);
        assert(d.take(i + 1).drop_last() =~= d.take(i));
    } else {
        assert(d.take(i) =~= d);
    }
}

/// Reads a length written in decimal, with an optional leading `+`.
fn parse_length_bytes(s: &[u8]) -> (r: Option<u64>)
    ensures
        r == parse_length(s@),
{
    let ghost d = unsigned_part(s@);
    let start: usize = if s.len() > 0 && s[0] == PLUS {
        1
    } else {
        0
    };
    assert(d =~= s@.skip(start as int));
    if start == s.len() {
        return None;
    }
    let mut i: usize = start;
    let mut value: u64 = 0;
    while i < s.len()
        invariant
            start <= i <= s.len(),
            d == unsigned_part(s@),
            d == s@.skip(start as int),
            forall|j: int| 0 <= j < i - start ==> is_digit(#[trigger] d[j]),
            value as nat == digits_value(d.take(i - start)),
        decreases s.len() - i,
    {
        let c = s[i];
        if !(48 <= c && c <= 57) {
            assert(d[i - start] == c);
            assert(!is_digit(d[i - start]));
            assert(!all_digits(d));
            assert(parse_length(s@) is None);
            return None;
        }
        let ghost k = i - start;
        assert(d.take(k + 1).drop_last() =~= d.take(k));
        assert(d.take(k + 1).last() == c);
        match value.checked_mul(10) {
            Some(v) => match v.checked_add((c - 48) as u64) {
                Some(w) => {
                    value = w;
                },
                None => {
                    proof {
                        assert(digits_value(d.take(k + 1)) == value * 10 + (c - 48));
                        assert(digits_value(d.take(k + 1)) > u64::MAX);
                        if all_digits(d) {
                            lemma_digits_value_grows(d, k + 1);
                            assert(digits_value(d) > u64::MAX);
                        }
                        assert(parse_length(s@) == None::<u64>);
                    }
                    return None;
                },
            },
            None => {
                proof {
                    assert(digits_value(d.take(k + 1)) == value * 10 + (c - 48));
                    if all_digits(d) {
                        lemma_digits_value_grows(d, k + 1);
                    }
                }
                return None;
            },
        }
        i = i + 1;
    }
    assert(d.take(i - start) =~= d);
    Some(value)
}

/// The distinct trimmed comma-separated digests of `part`.
fn parse_digests(part: &[u8]) -> (r: Vec<Vec<u8>>)
    ensures
        digest_set(r@) == split(part@, COMMA).map_values(|d: Seq<u8>| trim(d)).to_set(),
        r@.len() > 0,
        views(r@).no_duplicates(),
{
    let pieces = split_bytes(part, COMMA);
    proof {
        lemma_split_nonempty(part@, COMMA);
    }
    let ghost ts = split(part@, COMMA).map_values(|d: Seq<u8>| trim(d));
    let mut out: Vec<Vec<u8>> = Vec::new();
    let mut j: usize = 0;
    assert(ts.take(0).to_set() =~= digest_set(out@));
    while j < pieces.len()
        invariant
            views(pieces@) == split(part@, COMMA),
            ts == split(part@, COMMA).map_values(|d: Seq<u8>| trim(d)),
            j <= pieces.len(),
            j > 0 ==> out@.len() > 0,
            digest_set(out@) == ts.take(j as int).to_set(),
            views(out@).no_duplicates(),
        decreases pieces.len() - j,
    {
        let d = slice_to_vec(trim_bytes(pieces[j].as_slice()));
        assert(d@ == ts[j as int]);
        let ghost before = out@;
        if !dedup_from_set(d.as_slice(), &out) {
            proof {
                assert forall|k: int| 0 <= k < before.len() implies before[k]@ != d@ by {
                    if before[k]@ == d@ {
                        assert(digest_set(before).contains(d@));
                    }
                }
            }
            out.push(d);
            assert(views(out@) =~= views(before).push(ts[j as int]));
        }
        proof {
            let t0 = ts.take(j as int);
            let t1 = ts.take(j + 1);
            assert forall|x: Seq<u8>| #[trigger] digest_set(out@).contains(x) <==> t1.to_set().contains(x) by {
                if t1.contains(x) {
                    let k = choose|k: int| 0 <= k < t1.len() && t1[k] == x;
                    if k < j {
                        assert(t0[k] == x);
                        assert(t0.contains(x));
                        assert(digest_set(before).contains(x));
                        let m = choose|m: int| 0 <= m < before.len() && before[m]@ == x;
                        assert(out@[m]@ == x);
                    } else {
                        assert(x == d@);
                        if out@.len() > before.len() {
                            assert(out@[before.len() as int]@ == x);
                        } else {
                            assert(digest_set(before).contains(d@));
                        }
                    }
                }
                if digest_set(out@).contains(x) {
                    let m = choose|m: int| 0 <= m < out@.len() && out@[m]@ == x;
                    if m < before.len() {
                        assert(before[m]@ == x);
                        assert(digest_set(before).contains(x));
                        assert(t0.contains(x));
                        let k = choose|k: int| 0 <= k < t0.len() && t0[k] == x;
                        assert(t1[k] == x);
                    } else {
                        assert(t1[j as int] == x);
                    }
                }
            }
            assert(digest_set(out@) =~= t1.to_set());
        }
        j = j + 1;
    }
    assert(ts.take(j as int) =~= ts);
    out
}

proof fn lemma_fault_stays(ls: Seq<Seq<u8>>, i: int, j: int)
    requires
        0 <= i <= j <= ls.len(),
        parse_lines(ls.take(i)) is Err,
    ensures
        parse_lines(ls.take(j)) == parse_lines(ls.take(i)),
    decreases j - i,
{
    if j > i {
        lemma_fault_stays(ls, i, j - 1);
        assert(ls.take(j).drop_last() =~= ls.take(j - 1));
    }
}

/// Reads a catalog text, which must be UTF-8. All or nothing: the first line
/// that describes no bucket fails the whole text. A later line for a length replaces an earlier one.
pub fn parse(text: &[u8]) -> (r: Result<SizeIndex, ArtifactError>)
    ensures
        match parse_artifact(text@) {
            Ok(m) => r is Ok && r->Ok_0.wf() && r->Ok_0@ == m,
            Err(e) => r == Err::<SizeIndex, ArtifactError>(e),
        },
{
    if !is_utf8(text) {
        return Err(ArtifactError::NotText);
    }
    let pieces = split_bytes(text, NEWLINE);
    let ghost p = split(text@, NEWLINE);
    let ghost ls = lines(text@);
    proof {
        lemma_split_nonempty(text@, NEWLINE);
    }
    let mut n: usize = pieces.len();
    if pieces[n - 1].len() == 0 {
        n = n - 1;
    }
    assert(ls.len() == n);
    let mut index = SizeIndex::new();
    let mut k: usize = 0;
    assert(ls.take(0) =~= Seq::<Seq<u8>>::empty());
    while k < n
        invariant
            views(pieces@) == p,
            valid_utf8(text@),
            p == split(text@, NEWLINE),
            ls == lines(text@),
            n == ls.len(),
            n <= pieces.len(),
            k <= n,
            index.wf(),
            parse_lines(ls.take(k as int)) == Ok::<Map<u64, Set<Seq<u8>>>, ArtifactError>(index@),
        decreases n - k,
    {
        let line = strip_return_bytes(pieces[k].as_slice());
        assert(line@ == ls[k as int]);
        let ghost t = ls.take(k + 1);
        assert(t.drop_last() =~= ls.take(k as int));
        assert(t.last() == line@);
        match find_colon(line) {
            None => {
                proof {
                    lemma_fault_stays(ls, k + 1, n as int);
                    assert(ls.take(n as int) =~= ls);
                }
                return Err(ArtifactError::MalformedLine { line: k + 1 });
            },
            Some(c) => {
                assert(colon_at(line@, c as int));
                let head = slice_subrange(line, 0, c);
                assert(head@ =~= line@.take(c as int));
                let size_part = trim_bytes(head);
                match parse_length_bytes(size_part) {
                    None => {
                        proof {
                            lemma_fault_stays(ls, k + 1, n as int);
                            assert(ls.take(n as int) =~= ls);
                        }
                        return Err(ArtifactError::InvalidLength { line: k + 1 });
                    },
                    Some(len) => {
                        let rest = slice_subrange(line, c + 1, line.len());
                        assert(rest@ =~= line@.skip(c + 1));
                        let digests = parse_digests(rest);
                        index.set_bucket(len, digests);
                    },
                }
            },
        }
        k = k + 1;
    }
    assert(ls.take(n as int) =~= ls);
    Ok(index)
}

/// Splitting gives at least one piece.
pub proof fn lemma_split_nonempty(t: Seq<u8>, sep: u8)
    ensures
        split(t, sep).len() >= 1,
    decreases t.len(),
{
    if t.len() > 0 {
        lemma_split_nonempty(t.drop_last(), sep);
    }
}

} // verus!
