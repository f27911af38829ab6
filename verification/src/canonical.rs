//! The canonical serialization of an event, over which its id is computed:
//! the JSON array `[0,"<pubkey hex>",<created_at>,<kind>,<tags>,<content>]`
//! with the escaping serde_json uses. The spec functions here define that
//! form; the executable builders are proved to produce exactly it.
use vstd::prelude::*;

verus! {

use crate::hexcode::hex_digit;
use crate::hexcode::hex_digit_exec;
use crate::hexcode::hex_of;
use crate::hexcode::encode_hex;
use crate::text::chars_of;

/// Decimal digits of an unsigned number, most significant first.
pub open spec fn dec_u64(n: u64) -> Seq<char>
    decreases n,
{
    if n < 10 {
        seq![hex_digit(n as u8)]
    } else {
        dec_u64(n / 10).push(hex_digit((n % 10) as u8))
    }
}

/// Decimal form of a signed number, with a leading minus sign if negative.
pub open spec fn dec_i64(n: i64) -> Seq<char> {
    if n >= 0 {
        dec_u64(n as u64)
    } else {
        seq!['-'] + dec_u64((-(n as int)) as u64)
    }
}

/// The JSON escape of one character.
pub open spec fn escape_char(c: char) -> Seq<char> {
    if c == '"' {
        seq!['\\', '"']
    } else if c == '\\' {
        seq!['\\', '\\']
    } else if c as u32 == 8 {
        seq!['\\', 'b']
    } else if c as u32 == 9 {
        seq!['\\', 't']
    } else if c as u32 == 10 {
        seq!['\\', 'n']
    } else if c as u32 == 12 {
        seq!['\\', 'f']
    } else if c as u32 == 13 {
        seq!['\\', 'r']
    } else if (c as u32) < 32 {
        seq!['\\', 'u', '0', '0', hex_digit((c as u32 / 16) as u8), hex_digit((c as u32 % 16) as u8)]
    } else {
        seq![c]
    }
}

pub open spec fn escape_str(s: Seq<char>) -> Seq<char>
    decreases s.len(),
{
    if s.len() == 0 {
        Seq::empty()
    } else {
        escape_char(s[0]) + escape_str(s.skip(1))
    }
}

/// A JSON string literal: quotes around the escaped characters.
pub open spec fn json_quote(s: Seq<char>) -> Seq<char> {
    seq!['"'] + escape_str(s) + seq!['"']
}

/// Comma-separated JSON string literals.
pub open spec fn quoted_items(xs: Seq<Seq<char>>) -> Seq<char>
    decreases xs.len(),
{
    if xs.len() == 0 {
        Seq::empty()
    } else if xs.len() == 1 {
        json_quote(xs[0])
    } else {
        json_quote(xs[0]) + seq![','] + quoted_items(xs.skip(1))
    }
}

/// A JSON array of strings.
pub open spec fn json_str_array(xs: Seq<Seq<char>>) -> Seq<char> {
    seq!['['] + quoted_items(xs) + seq![']']
}

/// Comma-separated JSON string arrays.
pub open spec fn array_items(ts: Seq<Seq<Seq<char>>>) -> Seq<char>
    decreases ts.len(),
{
    if ts.len() == 0 {
        Seq::empty()
    } else if ts.len() == 1 {
        json_str_array(ts[0])
    } else {
        json_str_array(ts[0]) + seq![','] + array_items(ts.skip(1))
    }
}

/// The tag list as a JSON array of arrays of strings.
pub open spec fn json_tags(ts: Seq<Seq<Seq<char>>>) -> Seq<char> {
    seq!['['] + array_items(ts) + seq![']']
}

/// The canonical serialization of an event's signable fields.
pub open spec fn canonical_form(
    pubkey: Seq<u8>,
    created_at: i64,
    kind: u64,
    tags: Seq<Seq<Seq<char>>>,
    content: Seq<char>,
) -> Seq<char> {
    seq!['[', '0', ','] + json_quote(hex_of(pubkey)) + seq![','] + dec_i64(created_at) + seq![',']
        + dec_u64(kind) + seq![','] + json_tags(tags) + seq![','] + json_quote(content) + seq![']']
}

proof fn lemma_reverse_push(s: Seq<char>, c: char)
    ensures
        s.push(c).reverse() == seq![c] + s.reverse(),
{
    assert(s.push(c).reverse() =~= seq![c] + s.reverse());
}

proof fn lemma_escape_snoc(s: Seq<char>, c: char)
    ensures
        escape_str(s.push(c)) == escape_str(s) + escape_char(c),
    decreases s.len(),
{
    if s.len() == 0 {
        assert(s.push(c)[0] == c);
        assert(s.push(c).skip(1) =~= Seq::<char>::empty());
        assert(escape_str(s.push(c).skip(1)) == Seq::<char>::empty());
        assert(escape_str(s.push(c)) == escape_char(c) + Seq::<char>::empty());
        assert(escape_char(c) + Seq::<char>::empty() =~= escape_char(c));
        assert(escape_str(s) + escape_char(c) =~= escape_char(c));
    } else {
        assert(s.push(c).skip(1) =~= s.skip(1).push(c));
        lemma_escape_snoc(s.skip(1), c);
        assert(escape_str(s.push(c)) == escape_char(s[0]) + (escape_str(s.skip(1))
            + escape_char(c)));
        assert(escape_char(s[0]) + (escape_str(s.skip(1)) + escape_char(c)) =~= (escape_char(s[0])
            + escape_str(s.skip(1))) + escape_char(c));
    }
}

proof fn lemma_quoted_snoc(xs: Seq<Seq<char>>, x: Seq<char>)
    ensures
        quoted_items(xs.push(x)) == if xs.len() == 0 {
            json_quote(x)
        } else {
            quoted_items(xs) + seq![','] + json_quote(x)
        },
    decreases xs.len(),
{
    if xs.len() == 0 {
        assert(xs.push(x)[0] == x);
    } else {
        assert(xs.push(x).skip(1) =~= xs.skip(1).push(x));
        lemma_quoted_snoc(xs.skip(1), x);
        if xs.len() == 1 {
            assert(quoted_items(xs.push(x)) == json_quote(xs[0]) + seq![','] + quoted_items(
                xs.skip(1).push(x),
            ));
            assert(quoted_items(xs.skip(1).push(x)) == json_quote(x));
        } else {
            assert(quoted_items(xs.push(x)) == json_quote(xs[0]) + seq![','] + (quoted_items(
                xs.skip(1),
            ) + seq![','] + json_quote(x)));
            assert(json_quote(xs[0]) + seq![','] + (quoted_items(xs.skip(1)) + seq![',']
                + json_quote(x)) =~= (json_quote(xs[0]) + seq![','] + quoted_items(xs.skip(1)))
                + seq![','] + json_quote(x));
        }
    }
}

proof fn lemma_array_snoc(ts: Seq<Seq<Seq<char>>>, t: Seq<Seq<char>>)
    ensures
        array_items(ts.push(t)) == if ts.len() == 0 {
            json_str_array(t)
        } else {
            array_items(ts) + seq![','] + json_str_array(t)
        },
    decreases ts.len(),
{
    if ts.len() == 0 {
        assert(ts.push(t)[0] == t);
    } else {
        assert(ts.push(t).skip(1) =~= ts.skip(1).push(t));
        lemma_array_snoc(ts.skip(1), t);
        if ts.len() == 1 {
            assert(array_items(ts.push(t)) == json_str_array(ts[0]) + seq![','] + array_items(
                ts.skip(1).push(t),
            ));
        } else {
            assert(array_items(ts.push(t)) == json_str_array(ts[0]) + seq![','] + (array_items(
                ts.skip(1),
            ) + seq![','] + json_str_array(t)));
            assert(json_str_array(ts[0]) + seq![','] + (array_items(ts.skip(1)) + seq![',']
                + json_str_array(t)) =~= (json_str_array(ts[0]) + seq![','] + array_items(
                ts.skip(1),
            )) + seq![','] + json_str_array(t));
        }
    }
}

fn push_escape_char(out: &mut Vec<char>, c: char)
    ensures
        final(out)@ == old(out)@ + escape_char(c),
{
    let code = c as u32;
    if c == '"' {
        out.push('\\');
        out.push('"');
    } else if c == '\\' {
        out.push('\\');
        out.push('\\');
    } else if code == 8 {
        out.push('\\');
        out.push('b');
    } else if code == 9 {
        out.push('\\');
        out.push('t');
    } else if code == 10 {
        out.push('\\');
        out.push('n');
    } else if code == 12 {
        out.push('\\');
        out.push('f');
    } else if code == 13 {
        out.push('\\');
        out.push('r');
    } else if code < 32 {
        out.push('\\');
        out.push('u');
        out.push('0');
        out.push('0');
        out.push(hex_digit_exec((code / 16) as u8));
        out.push(hex_digit_exec((code % 16) as u8));
    } else {
        out.push(c);
    }
    proof {
        assert(out@ =~= old(out)@ + escape_char(c));
    }
}

fn push_escaped(out: &mut Vec<char>, s: &Vec<char>)
    ensures
        final(out)@ == old(out)@ + escape_str(s@),
{
    let mut i: usize = 0;
    proof {
        assert(out@ =~= old(out)@ + escape_str(s@.take(0)));
    }
    while i < s.len()
        invariant
            i <= s@.len(),
            out@ == old(out)@ + escape_str(s@.take(i as int)),
        decreases s@.len() - i,
    {
        proof {
            assert(s@.take(i + 1) =~= s@.take(i as int).push(s@[i as int]));
            lemma_escape_snoc(s@.take(i as int), s@[i as int]);
        }
        push_escape_char(out, s[i]);
        proof {
            assert(old(out)@ + escape_str(s@.take(i as int)) + escape_char(s@[i as int]) =~= old(
                out,
            )@ + (escape_str(s@.take(i as int)) + escape_char(s@[i as int])));
        }
        i += 1;
    }
    proof {
        assert(s@.take(s@.len() as int) =~= s@);
    }
}

fn push_quoted(out: &mut Vec<char>, s: &Vec<char>)
    ensures
        final(out)@ == old(out)@ + json_quote(s@),
{
    out.push('"');
    push_escaped(out, s);
    out.push('"');
    proof {
        assert(out@ =~= old(out)@ + json_quote(s@));
    }
}

fn push_dec_u64(out: &mut Vec<char>, n: u64)
    ensures
        final(out)@ == old(out)@ + dec_u64(n),
{
    let mut rev: Vec<char> = Vec::new();
    let mut m: u64 = n;
    proof {
        assert(rev@.reverse() =~= Seq::<char>::empty());
        assert(dec_u64(m) + rev@.reverse() =~= dec_u64(n));
    }
    while m >= 10
        invariant
            dec_u64(n) == dec_u64(m) + rev@.reverse(),
        decreases m,
    {
        let d = hex_digit_exec((m % 10) as u8);
        proof {
            lemma_reverse_push(rev@, d);
            assert(dec_u64(m) == dec_u64(m / 10).push(hex_digit((m % 10) as u8)));
            assert(dec_u64(m / 10).push(d) =~= dec_u64(m / 10) + seq![d]);
            assert(dec_u64(m / 10) + (seq![d] + rev@.reverse()) =~= (dec_u64(m / 10) + seq![d])
                + rev@.reverse());
        }
        rev.push(d);
        m = m / 10;
    }
    let d = hex_digit_exec(m as u8);
    proof {
        lemma_reverse_push(rev@, d);
        assert(dec_u64(m) =~= seq![d]);
        assert(seq![d] + rev@.reverse() =~= dec_u64(m) + rev@.reverse());
    }
    rev.push(d);
    while rev.len() > 0
        invariant
            out@ + rev@.reverse() == old(out)@ + dec_u64(n),
        decreases rev@.len(),
    {
        proof {
            let r = rev@;
            assert(r.drop_last().push(r.last()) =~= r);
            lemma_reverse_push(r.drop_last(), r.last());
        }
        let c = match rev.pop() {
            Some(c) => c,
            None => {
                proof {
                    assert(false);
                }
                '0'
            },
        };
        out.push(c);
        proof {
            assert(out@ + rev@.reverse() =~= old(out)@ + dec_u64(n));
        }
    }
    proof {
        assert(rev@.reverse() =~= Seq::<char>::empty());
        assert(out@ =~= out@ + rev@.reverse());
    }
}

fn push_dec_i64(out: &mut Vec<char>, n: i64)
    ensures
        final(out)@ == old(out)@ + dec_i64(n),
{
    if n >= 0 {
        push_dec_u64(out, n as u64);
    } else {
        out.push('-');
        let mag: u64 = ((-(n + 1)) as u64) + 1;
        proof {
            assert(mag == (-(n as int)) as u64);
        }
        push_dec_u64(out, mag);
        proof {
            assert(old(out)@ + seq!['-'] + dec_u64(mag) =~= old(out)@ + (seq!['-'] + dec_u64(
                mag,
            )));
        }
    }
}

fn push_str_array(out: &mut Vec<char>, xs: &Vec<String>)
    ensures
        final(out)@ == old(out)@ + json_str_array(xs.deep_view()),
{
    out.push('[');
    let ghost items = xs.deep_view();
    proof {
        assert(items.len() == xs@.len());
        assert(out@ =~= old(out)@ + seq!['['] + quoted_items(items.take(0)));
    }
    let mut i: usize = 0;
    while i < xs.len()
        invariant
            i <= xs@.len(),
            items == xs.deep_view(),
            items.len() == xs@.len(),
            out@ == old(out)@ + seq!['['] + quoted_items(items.take(i as int)),
        decreases xs@.len() - i,
    {
        if i > 0 {
            out.push(',');
        }
        let cs = chars_of(xs[i].as_str());
        proof {
            assert(items[i as int] == xs@[i as int]@);
            assert(items.take(i + 1) =~= items.take(i as int).push(items[i as int]));
            lemma_quoted_snoc(items.take(i as int), items[i as int]);
        }
        push_quoted(out, &cs);
        proof {
            if i == 0 {
                assert(items.take(0).len() == 0);
                assert(out@ =~= old(out)@ + seq!['['] + quoted_items(items.take(i + 1)));
            } else {
                assert(out@ =~= old(out)@ + seq!['['] + (quoted_items(items.take(i as int))
                    + seq![','] + json_quote(items[i as int])));
            }
        }
        i += 1;
    }
    out.push(']');
    proof {
        assert(items.take(items.len() as int) =~= items);
        assert(out@ =~= old(out)@ + json_str_array(items));
    }
}

fn push_tags(out: &mut Vec<char>, tags: &Vec<Vec<String>>)
    ensures
        final(out)@ == old(out)@ + json_tags(tags.deep_view()),
{
    out.push('[');
    let ghost items = tags.deep_view();
    proof {
        assert(items.len() == tags@.len());
        assert(out@ =~= old(out)@ + seq!['['] + array_items(items.take(0)));
    }
    let mut i: usize = 0;
    while i < tags.len()
        invariant
            i <= tags@.len(),
            items == tags.deep_view(),
            items.len() == tags@.len(),
            out@ == old(out)@ + seq!['['] + array_items(items.take(i as int)),
        decreases tags@.len() - i,
    {
        if i > 0 {
            out.push(',');
        }
        proof {
            assert(items[i as int] == tags@[i as int].deep_view());
            assert(items.take(i + 1) =~= items.take(i as int).push(items[i as int]));
            lemma_array_snoc(items.take(i as int), items[i as int]);
        }
        push_str_array(out, &tags[i]);
        proof {
            if i == 0 {
                assert(items.take(0).len() == 0);
                assert(out@ =~= old(out)@ + seq!['['] + array_items(items.take(i + 1)));
            } else {
                assert(out@ =~= old(out)@ + seq!['['] + (array_items(items.take(i as int))
                    + seq![','] + json_str_array(items[i as int])));
            }
        }
        i += 1;
    }
    out.push(']');
    proof {
        assert(items.take(items.len() as int) =~= items);
        assert(out@ =~= old(out)@ + json_tags(items));
    }
}

/// Build the canonical serialization of an event's signable fields.
pub fn canonical_chars(
    pubkey: &Vec<u8>,
    created_at: i64,
    kind: u64,
    tags: &Vec<Vec<String>>,
    content: &String,
) -> (r: Vec<char>)
    ensures
        r@ == canonical_form(pubkey@, created_at, kind, tags.deep_view(), content@),
{
    let mut out: Vec<char> = Vec::new();
    out.push('[');
    out.push('0');
    out.push(',');
    let pk_hex = encode_hex(pubkey);
    push_quoted(&mut out, &pk_hex);
    out.push(',');
    push_dec_i64(&mut out, created_at);
    out.push(',');
    push_dec_u64(&mut out, kind);
    out.push(',');
    push_tags(&mut out, tags);
    out.push(',');
    let cs = chars_of(content.as_str());
    push_quoted(&mut out, &cs);
    out.push(']');
    proof {
        assert(out@ =~= canonical_form(pubkey@, created_at, kind, tags.deep_view(), content@));
    }
    out
}

} // verus!
