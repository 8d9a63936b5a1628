use crate::artifact::{
    all_digits, colon_at, decimal, digits_value, is_digit, is_space, join, lemma_split_nonempty,
    line_body, line_digests, lines, lists_bucket, lists_index, parse_artifact, parse_length,
    lead_space, parse_lines, render, serialized, split, strip_return, trail_space, trim,
    trim_end, trim_start,
    unsigned_part, ArtifactError, COLON, COMMA, NEWLINE, RETURN,
};
use crate::index::SizeIndex;
use vstd::prelude::*;
use vstd::utf8::{
    codepoint_width_1, decode_first_codepoint, leading_bits_width_1, pop_first_scalar, valid_utf8,
};

verus! {

/// A digest that the catalog format carries unchanged: ASCII, with no comma
/// and no whitespace.
pub open spec fn is_token(d: Seq<u8>) -> bool {
    forall|i: int| 0 <= i < d.len() ==> d[i] != COMMA && d[i] < 128 && !is_space(#[trigger] d[i])
}

spec fn is_ascii(s: Seq<u8>) -> bool {
    forall|i: int| 0 <= i < s.len() ==> #[trigger] s[i] < 128
}

/// ASCII text is UTF-8.
proof fn lemma_ascii_utf8(s: Seq<u8>)
    requires
        is_ascii(s),
    ensures
        valid_utf8(s),
    decreases s.len(),
{
    if s.len() > 0 {
        let b = s[0];
        assert(b < 128);
        assert((b & 0x7f) as u32 <= 0x7f) by (bit_vector);
        assert(decode_first_codepoint(s) == codepoint_width_1(b));
        assert(codepoint_width_1(b) == leading_bits_width_1(b));
        let rest = pop_first_scalar(s);
        assert(rest =~= s.skip(1));
        assert forall|i: int| 0 <= i < rest.len() implies #[trigger] rest[i] < 128 by {
            assert(rest[i] == s[i + 1]);
        }
        lemma_ascii_utf8(rest);
    }
}

proof fn lemma_join_ascii(ds: Seq<Seq<u8>>)
    requires
        forall|j: int| 0 <= j < ds.len() ==> is_ascii(#[trigger] ds[j]),
    ensures
        is_ascii(join(ds)),
    decreases ds.len(),
{
    if ds.len() == 1 {
        assert(is_ascii(ds[0]));
    } else if ds.len() > 1 {
        let d0 = ds.drop_last();
        assert forall|j: int| 0 <= j < d0.len() implies is_ascii(#[trigger] d0[j]) by {
            assert(d0[j] == ds[j]);
        }
        lemma_join_ascii(d0);
        assert(is_ascii(ds[ds.len() - 1]));
        let x = join(d0) + seq![COMMA] + ds.last();
        assert forall|i: int| 0 <= i < x.len() implies #[trigger] x[i] < 128 by {
            if i < join(d0).len() {
                assert(x[i] == join(d0)[i]);
            } else if i > join(d0).len() {
                assert(x[i] == ds.last()[i - join(d0).len() - 1]);
            }
        }
    }
}

/// A catalog of tokens is ASCII.
proof fn lemma_render_ascii(es: Seq<(u64, Seq<Seq<u8>>)>)
    requires
        entries_ok(es),
    ensures
        is_ascii(render(es)),
    decreases es.len(),
{
    if es.len() > 0 {
        let e0 = es.drop_last();
        assert forall|i: int, j: int| 0 <= i < e0.len() && 0 <= j < e0[i].1.len() implies is_token(
            #[trigger] e0[i].1[j],
        ) by {
            assert(e0[i] == es[i]);
            assert(is_token(es[i].1[j]));
        }
        lemma_render_ascii(e0);
        let e = es.last();
        assert(es[es.len() - 1] == e);
        assert forall|j: int| 0 <= j < e.1.len() implies is_ascii(#[trigger] e.1[j]) by {
            assert(is_token(es[es.len() - 1].1[j]));
        }
        lemma_join_ascii(e.1);
        let dec = decimal(e.0 as nat);
        lemma_decimal(e.0 as nat);
        let x = render(es);
        let a = render(e0);
        let body = line_body(e);
        assert(x == a + body + seq![NEWLINE]);
        assert forall|i: int| 0 <= i < x.len() implies #[trigger] x[i] < 128 by {
            if i < a.len() {
                assert(x[i] == a[i]);
            } else if i < a.len() + body.len() {
                let k = i - a.len();
                assert(x[i] == body[k]);
                if k < dec.len() {
                    assert(body[k] == dec[k]);
                    assert(is_digit(dec[k]));
                } else if k > dec.len() {
                    assert(body[k] == join(e.1)[k - dec.len() - 1]);
                }
            }
        }
    }
}

/// Trimming leaves alone a byte string that starts and ends with a visible
/// ASCII character.
proof fn lemma_trim_ascii(s: Seq<u8>)
    requires
        s.len() > 0 ==> s[0] < 128 && !is_space(s[0]) && s.last() < 128 && !is_space(s.last()),
    ensures
        trim(s) == s,
{
    if s.len() > 0 {
        assert(s.take(1)[0] == s[0]);
        if s.len() >= 2 {
            assert(s.take(2)[0] == s[0]);
            assert(s.skip(s.len() - 2)[1] == s.last());
        }
        if s.len() >= 3 {
            assert(s.take(3)[0] == s[0]);
            assert(s.skip(s.len() - 3)[2] == s.last());
        }
        assert(s.skip(s.len() - 1)[0] == s.last());
    }
    assert(lead_space(s) == 0);
    assert(trim_start(s) == s);
    assert(trail_space(s) == 0);
}

spec fn avoids(s: Seq<u8>, b: u8) -> bool {
    forall|i: int| 0 <= i < s.len() ==> #[trigger] s[i] != b
}

spec fn entries_ok(es: Seq<(u64, Seq<Seq<u8>>)>) -> bool {
    forall|i: int, j: int|
        0 <= i < es.len() && 0 <= j < es[i].1.len() ==> is_token(#[trigger] es[i].1[j])
}

spec fn bodies(es: Seq<(u64, Seq<Seq<u8>>)>) -> Seq<Seq<u8>> {
    es.map_values(|e: (u64, Seq<Seq<u8>>)| line_body(e))
}

spec fn entries_map(es: Seq<(u64, Seq<Seq<u8>>)>) -> Map<u64, Set<Seq<u8>>>
    decreases es.len(),
{
    if es.len() == 0 {
        Map::empty()
    } else {
        entries_map(es.drop_last()).insert(es.last().0, es.last().1.to_set())
    }
}

proof fn lemma_split_plain_append(a: Seq<u8>, b: Seq<u8>, sep: u8)
    requires
        avoids(b, sep),
    ensures
        split(a + b, sep) == split(a, sep).update(
            split(a, sep).len() - 1,
            split(a, sep).last() + b,
        ),
    decreases b.len(),
{
    lemma_split_nonempty(a, sep);
    let p = split(a, sep);
    if b.len() == 0 {
        assert(a + b =~= a);
        assert(p.last() + b =~= p.last());
        assert(p.update(p.len() - 1, p.last()) =~= p);
    } else {
        let b0 = b.drop_last();
        assert(avoids(b0, sep)) by {
            assert forall|i: int| 0 <= i < b0.len() implies #[trigger] b0[i] != sep by {
                assert(b0[i] == b[i]);
            }
        }
        lemma_split_plain_append(a, b0, sep);
        assert((a + b).drop_last() =~= a + b0);
        assert((a + b).last() == b.last());
        assert(b.last() == b[b.len() - 1]);
        assert((p.last() + b0).push(b.last()) =~= p.last() + b);
        assert(split(a + b, sep) =~= p.update(p.len() - 1, p.last() + b));
    }
}

proof fn lemma_split_plain(b: Seq<u8>, sep: u8)
    requires
        avoids(b, sep),
    ensures
        split(b, sep) == seq![b],
{
    lemma_split_plain_append(Seq::empty(), b, sep);
    assert(Seq::<u8>::empty() + b =~= b);
    assert(seq![Seq::<u8>::empty()].update(0, Seq::<u8>::empty() + b) =~= seq![b]);
}

proof fn lemma_split_join(ds: Seq<Seq<u8>>)
    requires
        ds.len() > 0,
        forall|j: int| 0 <= j < ds.len() ==> is_token(#[trigger] ds[j]),
    ensures
        split(join(ds), COMMA) == ds,
    decreases ds.len(),
{
    assert forall|j: int| 0 <= j < ds.len() implies avoids(#[trigger] ds[j], COMMA) by {
        assert(is_token(ds[j]));
    }
    if ds.len() == 1 {
        lemma_split_plain(ds[0], COMMA);
        assert(seq![ds[0]] =~= ds);
    } else {
        let d0 = ds.drop_last();
        assert forall|j: int| 0 <= j < d0.len() implies is_token(#[trigger] d0[j]) by {
            assert(d0[j] == ds[j]);
        }
        lemma_split_join(d0);
        let a = join(d0) + seq![COMMA];
        assert(avoids(ds[ds.len() - 1], COMMA));
        lemma_split_plain_append(a, ds.last(), COMMA);
        assert(a.drop_last() =~= join(d0));
        assert(split(a, COMMA) == d0.push(Seq::<u8>::empty()));
        assert(Seq::<u8>::empty() + ds.last() =~= ds.last());
        assert(join(ds) == a + ds.last());
        assert(d0.push(Seq::<u8>::empty()).update(d0.len() as int, ds.last()) =~= ds);
    }
}

proof fn lemma_decimal(n: nat)
    ensures
        decimal(n).len() > 0,
        all_digits(decimal(n)),
        digits_value(decimal(n)) == n,
    decreases n,
{
    if n >= 10 {
        lemma_decimal(n / 10);
        let d = decimal(n);
        assert(d.drop_last() =~= decimal(n / 10));
        assert forall|i: int| 0 <= i < d.len() implies is_digit(#[trigger] d[i]) by {
            if i < d.len() - 1 {
                assert(d[i] == decimal(n / 10)[i]);
            }
        }
        assert(d.last() == (48 + n % 10) as u8);
        assert(digits_value(d) == (n / 10) * 10 + n % 10);
        assert((n / 10) * 10 + n % 10 == n) by (nonlinear_arith);
    } else {
        let d = decimal(n);
        assert(d.drop_last() =~= Seq::<u8>::empty());
        assert(d.last() == (48 + n) as u8);
        assert(digits_value(d) == digits_value(d.drop_last()) * 10 + (d.last() - 48) as nat);
    }
}

proof fn lemma_join_avoids(ds: Seq<Seq<u8>>, b: u8)
    requires
        b != COMMA,
        forall|j: int| 0 <= j < ds.len() ==> avoids(#[trigger] ds[j], b),
    ensures
        avoids(join(ds), b),
    decreases ds.len(),
{
    if ds.len() == 1 {
        assert(avoids(ds[0], b));
    } else if ds.len() > 1 {
        let d0 = ds.drop_last();
        assert forall|j: int| 0 <= j < d0.len() implies avoids(#[trigger] d0[j], b) by {
            assert(d0[j] == ds[j]);
        }
        lemma_join_avoids(d0, b);
        assert(avoids(ds[ds.len() - 1], b));
        let x = join(d0) + seq![COMMA] + ds.last();
        assert forall|i: int| 0 <= i < x.len() implies #[trigger] x[i] != b by {
            if i < join(d0).len() {
                assert(x[i] == join(d0)[i]);
            } else if i > join(d0).len() {
                assert(x[i] == ds.last()[i - join(d0).len() - 1]);
            }
        }
    }
}

/// Facts about one line of the catalog: it holds no line break, does not end
/// in a return, and its first `:` follows the length.
proof fn lemma_body(e: (u64, Seq<Seq<u8>>))
    requires
        e.1.len() > 0,
        forall|j: int| 0 <= j < e.1.len() ==> is_token(#[trigger] e.1[j]),
    ensures
        avoids(line_body(e), NEWLINE),
        strip_return(line_body(e)) == line_body(e),
        colon_at(line_body(e), decimal(e.0 as nat).len() as int),
        line_body(e).take(decimal(e.0 as nat).len() as int) == decimal(e.0 as nat),
        line_body(e).skip(decimal(e.0 as nat).len() as int + 1) == join(e.1),
{
    let dec = decimal(e.0 as nat);
    lemma_decimal(e.0 as nat);
    let body = line_body(e);
    assert forall|j: int| 0 <= j < e.1.len() implies avoids(#[trigger] e.1[j], NEWLINE) by {
        assert(is_token(e.1[j]));
    }
    assert forall|j: int| 0 <= j < e.1.len() implies avoids(#[trigger] e.1[j], RETURN) by {
        assert(is_token(e.1[j]));
    }
    lemma_join_avoids(e.1, NEWLINE);
    lemma_join_avoids(e.1, RETURN);
    assert forall|i: int| 0 <= i < body.len() implies #[trigger] body[i] != NEWLINE && body[i]
        != RETURN by {
        if i < dec.len() {
            assert(body[i] == dec[i]);
            assert(is_digit(dec[i]));
        } else if i > dec.len() {
            assert(body[i] == join(e.1)[i - dec.len() - 1]);
        }
    }
    assert(body.len() > 0);
    assert(body.last() == body[body.len() - 1]);
    assert forall|j: int| 0 <= j < dec.len() implies body[j] != COLON by {
        assert(body[j] == dec[j]);
        assert(is_digit(dec[j]));
    }
    assert(body.take(dec.len() as int) =~= dec);
    assert(body.skip(dec.len() as int + 1) =~= join(e.1));
}

proof fn lemma_parse_line(e: (u64, Seq<Seq<u8>>))
    requires
        e.1.len() > 0,
        forall|j: int| 0 <= j < e.1.len() ==> is_token(#[trigger] e.1[j]),
    ensures
        exists|c: int| colon_at(line_body(e), c),
        ({
            let l = line_body(e);
            let c = choose|c: int| colon_at(l, c);
            &&& parse_length(trim(l.take(c))) == Some(e.0)
            &&& line_digests(l, c) == e.1
        }),
{
    let dec = decimal(e.0 as nat);
    let l = line_body(e);
    lemma_body(e);
    lemma_decimal(e.0 as nat);
    let c0 = dec.len() as int;
    let c = choose|c: int| colon_at(l, c);
    if c < c0 {
        assert(l[c] == dec[c]);
        assert(is_digit(dec[c]));
    }
    if c > c0 {
        assert(l[c0] == COLON);
    }
    assert(c == c0);
    assert(is_digit(dec[0]));
    assert(is_digit(dec[dec.len() - 1]));
    lemma_trim_ascii(dec);
    assert(unsigned_part(dec) == dec);
    lemma_split_join(e.1);
    let ts = split(join(e.1), COMMA).map_values(|d: Seq<u8>| trim(d));
    assert forall|j: int| 0 <= j < ts.len() implies ts[j] == e.1[j] by {
        let d = e.1[j];
        assert(is_token(d));
        if d.len() > 0 {
            assert(!is_space(d[0]) && d[0] < 128);
            assert(!is_space(d[d.len() - 1]) && d[d.len() - 1] < 128);
        }
        lemma_trim_ascii(d);
    }
    assert(ts =~= e.1);
}

proof fn lemma_render_lines(es: Seq<(u64, Seq<Seq<u8>>)>)
    requires
        entries_ok(es),
        forall|i: int| 0 <= i < es.len() ==> (#[trigger] es[i]).1.len() > 0,
    ensures
        split(render(es), NEWLINE) == bodies(es).push(Seq::<u8>::empty()),
    decreases es.len(),
{
    if es.len() > 0 {
        let e0 = es.drop_last();
        assert forall|i: int, j: int| 0 <= i < e0.len() && 0 <= j < e0[i].1.len() implies is_token(
            #[trigger] e0[i].1[j],
        ) by {
            assert(e0[i] == es[i]);
            assert(is_token(es[i].1[j]));
        }
        assert forall|i: int| 0 <= i < e0.len() implies (#[trigger] e0[i]).1.len() > 0 by {
            assert(e0[i] == es[i]);
        }
        lemma_render_lines(e0);
        let e = es.last();
        assert(es[es.len() - 1] == e);
        assert forall|j: int| 0 <= j < e.1.len() implies is_token(#[trigger] e.1[j]) by {
            assert(is_token(es[es.len() - 1].1[j]));
        }
        lemma_body(e);
        let a = render(e0);
        lemma_split_plain_append(a, line_body(e), NEWLINE);
        let x = render(es);
        assert(x.drop_last() =~= a + line_body(e));
        assert(Seq::<u8>::empty() + line_body(e) =~= line_body(e));
        assert(bodies(e0).push(Seq::<u8>::empty()).update(bodies(e0).len() as int, line_body(e))
            =~= bodies(es));
    } else {
        assert(bodies(es).push(Seq::<u8>::empty()) =~= seq![Seq::<u8>::empty()]);
    }
}

proof fn lemma_parse_bodies(es: Seq<(u64, Seq<Seq<u8>>)>)
    requires
        entries_ok(es),
        forall|i: int| 0 <= i < es.len() ==> (#[trigger] es[i]).1.len() > 0,
    ensures
        parse_lines(bodies(es)) == Ok::<Map<u64, Set<Seq<u8>>>, ArtifactError>(entries_map(es)),
    decreases es.len(),
{
    if es.len() > 0 {
        let e0 = es.drop_last();
        assert forall|i: int, j: int| 0 <= i < e0.len() && 0 <= j < e0[i].1.len() implies is_token(
            #[trigger] e0[i].1[j],
        ) by {
            assert(e0[i] == es[i]);
            assert(is_token(es[i].1[j]));
        }
        assert forall|i: int| 0 <= i < e0.len() implies (#[trigger] e0[i]).1.len() > 0 by {
            assert(e0[i] == es[i]);
        }
        lemma_parse_bodies(e0);
        let e = es.last();
        assert(es[es.len() - 1] == e);
        assert forall|j: int| 0 <= j < e.1.len() implies is_token(#[trigger] e.1[j]) by {
            assert(is_token(es[es.len() - 1].1[j]));
        }
        lemma_parse_line(e);
        assert(bodies(es).drop_last() =~= bodies(e0));
        assert(bodies(es).last() == line_body(e));
    } else {
        assert(bodies(es) =~= Seq::<Seq<u8>>::empty());
    }
}

proof fn lemma_entries_map(es: Seq<(u64, Seq<Seq<u8>>)>)
    requires
        forall|i: int, j: int| 0 <= i < j < es.len() ==> es[i].0 != es[j].0,
    ensures
        forall|l: u64| #[trigger]
            entries_map(es).contains_key(l) <==> exists|i: int| 0 <= i < es.len() && es[i].0 == l,
        forall|i: int| 0 <= i < es.len() ==> entries_map(es)[(#[trigger] es[i]).0] == es[i].1.to_set(),
    decreases es.len(),
{
    if es.len() > 0 {
        let e0 = es.drop_last();
        lemma_entries_map(e0);
        let m = entries_map(es);
        assert forall|l: u64| #[trigger]
            m.contains_key(l) <==> exists|i: int| 0 <= i < es.len() && es[i].0 == l by {
            if m.contains_key(l) && l != es.last().0 {
                assert(entries_map(e0).contains_key(l));
                let i = choose|i: int| 0 <= i < e0.len() && e0[i].0 == l;
                assert(es[i].0 == l);
            }
            if m.contains_key(l) && l == es.last().0 {
                assert(es[es.len() - 1].0 == l);
            }
            if exists|i: int| 0 <= i < es.len() && es[i].0 == l {
                let i = choose|i: int| 0 <= i < es.len() && es[i].0 == l;
                if i < es.len() - 1 {
                    assert(e0[i].0 == l);
                }
            }
        }
        assert forall|i: int| 0 <= i < es.len() implies m[(#[trigger] es[i]).0] == es[i].1.to_set() by {
            if i < es.len() - 1 {
                assert(e0[i] == es[i]);
                assert(es[i].0 != es[es.len() - 1].0);
            }
        }
    }
}

/// Writing an index and reading the text back gives the same index, for
/// every index whose digests are ASCII and hold neither commas nor whitespace.
pub proof fn lemma_round_trip(index: SizeIndex, text: Seq<u8>)
    requires
        serialized(index@, text),
        forall|l: u64, d: Seq<u8>|
            index@.contains_key(l) && #[trigger] index@[l].contains(d) ==> is_token(d),
    ensures
        parse_artifact(text) == Ok::<Map<u64, Set<Seq<u8>>>, ArtifactError>(index@),
{
    let m = index@;
    let es = choose|es: Seq<(u64, Seq<Seq<u8>>)>| lists_index(m, es) && text == render(es);
    assert forall|i: int, j: int| 0 <= i < es.len() && 0 <= j < es[i].1.len() implies is_token(
        #[trigger] es[i].1[j],
    ) by {
        assert(lists_bucket(m, es[i]));
        assert(es[i].1.contains(es[i].1[j]));
        assert(es[i].1.to_set().contains(es[i].1[j]));
    }
    assert forall|i: int| 0 <= i < es.len() implies (#[trigger] es[i]).1.len() > 0 by {
        assert(lists_bucket(m, es[i]));
    }
    lemma_render_lines(es);
    let p = split(text, NEWLINE);
    assert(p.last() == Seq::<u8>::empty());
    assert(p.drop_last() =~= bodies(es));
    assert forall|i: int| 0 <= i < es.len() implies strip_return(#[trigger] bodies(es)[i])
        == bodies(es)[i] by {
        let e = es[i];
        assert forall|j: int| 0 <= j < e.1.len() implies is_token(#[trigger] e.1[j]) by {
            assert(is_token(es[i].1[j]));
        }
        lemma_body(e);
    }
    assert(lines(text) =~= bodies(es));
    lemma_render_ascii(es);
    lemma_ascii_utf8(text);
    lemma_parse_bodies(es);
    lemma_entries_map(es);
    let r = entries_map(es);
    assert forall|l: u64| #[trigger] r.contains_key(l) <==> m.contains_key(l) by {}
    assert forall|l: u64| r.contains_key(l) implies #[trigger] r[l] == m[l] by {
        let i = choose|i: int| 0 <= i < es.len() && es[i].0 == l;
        assert(lists_bucket(m, es[i]));
    }
    assert(r =~= m);
}

} // verus!
