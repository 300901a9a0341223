//! The versioned binary document format: a fixed five-byte header (four
//! magic bytes and a version byte) followed by the encoded tree and
//! stylesheet. Transient state — computed styles, layout handles,
//! expression caches — is not persisted: loading restores it to its
//! initial state.
//!
//! The format's round-trip law is proved layer by layer over its
//! specification (`dec_X(enc_X(v) + rest)` parses `v` back, up to the
//! whole document in [`lemma_save_load_roundtrip`]). The serializer
//! provably emits exactly the specified encoding, and the loader accepts
//! exactly the canonical serialization of what it returns, so a load of
//! saved bytes is pinned by [`lemma_save_load_roundtrip`] to the saved
//! document's persistent view.

use vstd::prelude::*;

use crate::element::{Element, ElementData, RawAttributeValue, RawElementAttributes, RootElement, UnstyledElement};
use crate::selector::{
    opt_str_view, Combinator, ComplexSelector, CompoundSelector, SelectorList,
};
use crate::style::{ComputedStyle, Declaration, StyleRule, StyleSheet, Value};
use crate::text::{char_from_u32, string_from_chars};
use crate::tree::{Node, NodeInner, Tree};

verus! {

/// View of a compound selector: name, id, classes.
pub type CompoundV = (Option<Seq<char>>, Option<Seq<char>>, Seq<Seq<char>>);

/// View of one combinator step.
pub type PairV = (Combinator, CompoundV);

/// View of a complex selector.
pub type ComplexV = (CompoundV, Seq<PairV>);

/// View of a style rule.
pub type RuleV = (Seq<ComplexV>, Seq<Declaration>);

/// View of a stylesheet.
pub type SheetV = Seq<RuleV>;

/// The view of a compound selector.
pub open spec fn compound_v(c: CompoundSelector) -> CompoundV {
    (opt_str_view(c.local_name), opt_str_view(c.id), c.classes.deep_view())
}

/// The view of a complex selector.
pub open spec fn complex_v(c: ComplexSelector) -> ComplexV {
    (
        compound_v(c.head),
        c.tail@.map_values(|p: (Combinator, CompoundSelector)| (p.0, compound_v(p.1))),
    )
}

/// The view of a style rule.
pub open spec fn rule_v(r: StyleRule) -> RuleV {
    (r.selectors.selectors@.map_values(|c: ComplexSelector| complex_v(c)), r.properties@)
}

/// The view of a stylesheet.
pub open spec fn sheet_v(s: StyleSheet) -> SheetV {
    s.rules@.map_values(|r: StyleRule| rule_v(r))
}

// ---------------------------------------------------------------------
// The word layer: everything above the byte layer is encoded as a
// sequence of 64-bit words — tags, counts, character scalars, fields.
// Each `enc_*` spec function gives the exact words of one layer; each
// `dec_*` spec function parses a prefix of a word sequence back into the
// layer's view, returning the view and the number of words consumed.
// The `lemma_*_roundtrip` lemmas state the format's round-trip law per
// layer; the exec decoders promise to realize the spec parse whenever it
// succeeds.
// ---------------------------------------------------------------------

/// The word carrying one character.
pub open spec fn char_word(c: char) -> u64 {
    c as u32 as u64
}

/// Whether a word is a valid character scalar.
pub open spec fn word_is_char(w: u64) -> bool {
    w <= 0xFFFF_FFFFu64 && vstd::utf8::is_scalar(w as u32)
}

/// A string: its length, then one word per character.
pub open spec fn enc_str(s: Seq<char>) -> Seq<u64> {
    seq![s.len() as u64] + s.map_values(|c: char| char_word(c))
}

/// Parses a string prefix.
pub open spec fn dec_str(ws: Seq<u64>) -> Option<(Seq<char>, int)> {
    if ws.len() >= 1 {
        let n = ws[0] as int;
        if 1 + n <= ws.len() && (forall|k: int| 0 <= k < n ==> word_is_char(#[trigger] ws[1 + k])) {
            Some((Seq::new(n as nat, |k: int| (ws[1 + k] as u32) as char), 1 + n))
        } else {
            None
        }
    } else {
        None
    }
}

/// Round trip for strings.
pub proof fn lemma_str_roundtrip(s: Seq<char>, rest: Seq<u64>)
    requires
        s.len() <= u64::MAX,
    ensures
        dec_str(enc_str(s) + rest) == Some((s, enc_str(s).len() as int)),
{
    let ws = enc_str(s) + rest;
    assert(ws[0] == s.len() as u64);
    assert forall|k: int| 0 <= k < s.len() implies word_is_char(#[trigger] ws[1 + k]) by {
        assert(ws[1 + k] == char_word(s[k]));
        vstd::utf8::char_is_scalar(s[k]);
    }
    let dec = Seq::new(s.len(), |k: int| (ws[1 + k] as u32) as char);
    assert forall|k: int| 0 <= k < s.len() implies dec[k] == s[k] by {
        assert(ws[1 + k] == char_word(s[k]));
        vstd::utf8::char_u32_cast(s[k], s[k] as u32);
        assert((char_word(s[k]) as u32) == s[k] as u32);
    }
    assert(dec =~= s);
}

/// Appends a string's words.
fn put_str(out: &mut Vec<u64>, s: &str)
    ensures
        final(out)@ == old(out)@ + enc_str(s@),
        s@.len() <= u64::MAX,
{
    let n = s.unicode_len();
    out.push(n as u64);
    let mut i: usize = 0;
    while i < n
        invariant
            n == s@.len(),
            i <= n,
            out@ == old(out)@ + seq![n as u64] + s@.take(i as int).map_values(
                |c: char| char_word(c),
            ),
        decreases n - i,
    {
        let c = s.get_char(i);
        out.push((c as u32) as u64);
        i = i + 1;
        proof {
            assert(out@ =~= old(out)@ + seq![n as u64] + s@.take(i as int).map_values(
                |c: char| char_word(c),
            ));
        }
    }
    proof {
        assert(s@.take(n as int) =~= s@);
        assert(out@ =~= old(out)@ + enc_str(s@));
    }
}

/// Reads a string back; realizes [`dec_str`] whenever it succeeds.
fn get_str(words: &Vec<u64>, pos: &mut usize) -> (r: Option<String>)
    requires
        *old(pos) <= words@.len(),
    ensures
        *old(pos) <= *final(pos) <= words@.len(),
        dec_str(words@.skip(*old(pos) as int)) matches Some(p) ==> r matches Some(y) && y@ == p.0
            && *final(pos) == *old(pos) + p.1,
{
    let ghost ws = words@.skip(*old(pos) as int);
    if words.len() - *pos < 1 {
        return None;
    }
    let n64 = words[*pos];
    proof {
        assert(ws[0] == words@[*old(pos) as int]);
    }
    *pos = *pos + 1;
    if n64 > (words.len() - *pos) as u64 {
        proof {
            if dec_str(ws) is Some {
                assert(1 + n64 as int <= ws.len());
            }
        }
        return None;
    }
    let n = n64 as usize;
    let mut cv: Vec<char> = Vec::new();
    let mut i: usize = 0;
    proof {
        assert(words@.len() == vstd::std_specs::vec::spec_vec_len(words));
    }
    while i < n
        invariant
            *old(pos) + 1 == *pos - i,
            i <= n,
            n == n64 as int,
            *pos + (n - i) <= words@.len(),
            words@.len() <= usize::MAX,
            ws == words@.skip(*old(pos) as int),
            ws[0] == n64,
            1 + n <= ws.len(),
            cv@.len() == i,
            forall|k: int|
                0 <= k < i ==> word_is_char(#[trigger] ws[1 + k]) && cv@[k] == ((ws[1
                    + k] as u32) as char),
        decreases n - i,
    {
        let w = words[*pos];
        proof {
            assert(ws[1 + i as int] == words@[*pos as int]);
        }
        if w > 0xFFFF_FFFFu64 {
            proof {
                if dec_str(ws) is Some {
                    assert(word_is_char(ws[1 + i as int]));
                }
            }
            return None;
        }
        match char_from_u32(w as u32) {
            Some(c) => {
                cv.push(c);
                proof {
                    vstd::utf8::char_u32_cast(c, w as u32);
                }
                *pos = *pos + 1;
                i = i + 1;
            },
            None => {
                proof {
                    if dec_str(ws) is Some {
                        assert(word_is_char(ws[1 + i as int]));
                    }
                }
                return None;
            },
        }
    }
    let y = string_from_chars(cv.as_slice());
    proof {
        match dec_str(ws) {
            Some(p) => {
                assert(p.0 =~= cv@);
            },
            None => {},
        }
    }
    Some(y)
}

// ---------------------------------------------------------------------
// Counted lists: a count word, then the elements one after another.
// ---------------------------------------------------------------------

/// The concatenated encodings of a sequence's elements.
pub open spec fn enc_list<T>(xs: Seq<T>, f: spec_fn(T) -> Seq<u64>) -> Seq<u64>
    decreases xs.len(),
{
    if xs.len() == 0 {
        Seq::empty()
    } else {
        f(xs[0]) + enc_list(xs.drop_first(), f)
    }
}

/// A counted list: the element count, then the elements.
pub open spec fn enc_counted<T>(xs: Seq<T>, f: spec_fn(T) -> Seq<u64>) -> Seq<u64> {
    seq![xs.len() as u64] + enc_list(xs, f)
}

/// Parses `n` elements, each by `f`.
pub open spec fn dec_list<T>(
    ws: Seq<u64>,
    n: nat,
    f: spec_fn(Seq<u64>) -> Option<(T, int)>,
) -> Option<(Seq<T>, int)>
    decreases n,
{
    if n == 0 {
        Some((Seq::empty(), 0))
    } else {
        match f(ws) {
            Some((x, c)) => if 0 <= c <= ws.len() {
                match dec_list(ws.skip(c), (n - 1) as nat, f) {
                    Some((t, c2)) => Some((seq![x] + t, c + c2)),
                    None => None,
                }
            } else {
                None
            },
            None => None,
        }
    }
}

/// Parses a counted list.
pub open spec fn dec_counted<T>(
    ws: Seq<u64>,
    f: spec_fn(Seq<u64>) -> Option<(T, int)>,
) -> Option<(Seq<T>, int)> {
    if ws.len() >= 1 {
        match dec_list(ws.drop_first(), ws[0] as nat, f) {
            Some((xs, c)) => Some((xs, 1 + c)),
            None => None,
        }
    } else {
        None
    }
}

/// Round trip for element lists: if every valid element round-trips, so
/// does any list of valid elements.
pub proof fn lemma_list_roundtrip<T>(
    xs: Seq<T>,
    rest: Seq<u64>,
    ok: spec_fn(T) -> bool,
    f_enc: spec_fn(T) -> Seq<u64>,
    f_dec: spec_fn(Seq<u64>) -> Option<(T, int)>,
)
    requires
        forall|x: T, r2: Seq<u64>|
            ok(x) ==> #[trigger] f_dec(f_enc(x) + r2) == Some((x, f_enc(x).len() as int)),
        forall|k: int| 0 <= k < xs.len() ==> ok(#[trigger] xs[k]),
    ensures
        dec_list(enc_list(xs, f_enc) + rest, xs.len(), f_dec) == Some(
            (xs, enc_list(xs, f_enc).len() as int),
        ),
    decreases xs.len(),
{
    if xs.len() == 0 {
        assert(xs =~= Seq::<T>::empty());
    } else {
        let ws = enc_list(xs, f_enc) + rest;
        let tail_rest = enc_list(xs.drop_first(), f_enc) + rest;
        assert(ws =~= f_enc(xs[0]) + tail_rest);
        assert(f_dec(f_enc(xs[0]) + tail_rest) == Some((xs[0], f_enc(xs[0]).len() as int)));
        assert forall|k: int| 0 <= k < xs.drop_first().len() implies ok(
            #[trigger] xs.drop_first()[k],
        ) by {
            assert(xs.drop_first()[k] == xs[k + 1]);
        }
        lemma_list_roundtrip(xs.drop_first(), rest, ok, f_enc, f_dec);
        assert(ws.skip(f_enc(xs[0]).len() as int) =~= tail_rest);
        assert(seq![xs[0]] + xs.drop_first() =~= xs);
    }
}

/// Round trip for counted lists.
pub proof fn lemma_counted_roundtrip<T>(
    xs: Seq<T>,
    rest: Seq<u64>,
    ok: spec_fn(T) -> bool,
    f_enc: spec_fn(T) -> Seq<u64>,
    f_dec: spec_fn(Seq<u64>) -> Option<(T, int)>,
)
    requires
        xs.len() <= u64::MAX,
        forall|x: T, r2: Seq<u64>|
            ok(x) ==> #[trigger] f_dec(f_enc(x) + r2) == Some((x, f_enc(x).len() as int)),
        forall|k: int| 0 <= k < xs.len() ==> ok(#[trigger] xs[k]),
    ensures
        dec_counted(enc_counted(xs, f_enc) + rest, f_dec) == Some(
            (xs, enc_counted(xs, f_enc).len() as int),
        ),
{
    let ws = enc_counted(xs, f_enc) + rest;
    assert(ws[0] == xs.len() as u64);
    assert(ws.drop_first() =~= enc_list(xs, f_enc) + rest);
    lemma_list_roundtrip(xs, rest, ok, f_enc, f_dec);
}

/// A successful list parse yields exactly `n` elements.
pub proof fn lemma_dec_list_shape<T>(ws: Seq<u64>, n: nat, f: spec_fn(Seq<u64>) -> Option<(T, int)>)
    requires
        dec_list(ws, n, f) is Some,
    ensures
        dec_list(ws, n, f) matches Some(p) ==> p.0.len() == n,
    decreases n,
{
    if n > 0 {
        match f(ws) {
            Some((x, c)) => {
                if 0 <= c <= ws.len() {
                    lemma_dec_list_shape(ws.skip(c), (n - 1) as nat, f);
                }
            },
            None => {},
        }
    }
}

/// Unfolds one successful list-parse step: the element parser succeeds
/// on the current words, yields the list's head, and the rest of the list
/// parses after it.
pub proof fn lemma_dec_list_step<T>(
    ws: Seq<u64>,
    n: nat,
    f: spec_fn(Seq<u64>) -> Option<(T, int)>,
    vs: Seq<T>,
    c: int,
)
    requires
        n > 0,
        dec_list(ws, n, f) == Some((vs, c)),
    ensures
        f(ws) is Some,
        match f(ws) {
            Some((x, cx)) => {
                &&& 0 <= cx <= ws.len()
                &&& vs.len() >= 1
                &&& vs[0] == x
                &&& dec_list(ws.skip(cx), (n - 1) as nat, f) == Some((vs.drop_first(), c - cx))
            },
            None => false,
        },
{
    match f(ws) {
        Some((x, cx)) => {
            if 0 <= cx <= ws.len() {
                match dec_list(ws.skip(cx), (n - 1) as nat, f) {
                    Some((t, c2)) => {
                        assert(vs == seq![x] + t);
                        assert(vs[0] == x);
                        assert(t =~= vs.drop_first());
                    },
                    None => {
                        assert(false);
                    },
                }
            } else {
                assert(false);
            }
        },
        None => {
            assert(false);
        },
    }
}

/// The sign word of a value magnitude.
pub open spec fn sign_word(x: i64) -> u64 {
    if x >= 0 {
        0u64
    } else {
        1u64
    }
}

/// The magnitude word of a value: `x` itself, or `-(x + 1)` for negative
/// `x` so that the full range fits.
pub open spec fn mag_word(x: i64) -> u64 {
    if x >= 0 {
        x as u64
    } else {
        (-(x + 1)) as u64
    }
}

/// A style value: a tag, then sign and magnitude for the numeric forms.
pub open spec fn enc_value(v: Value) -> Seq<u64> {
    match v {
        Value::Px(x) => seq![0u64, sign_word(x), mag_word(x)],
        Value::Percent(x) => seq![1u64, sign_word(x), mag_word(x)],
        Value::Auto => seq![2u64],
        Value::Undefined => seq![3u64],
    }
}

/// Rebuilds a number from its sign and magnitude words.
pub open spec fn num_from(sign: u64, mag: u64) -> i64
    recommends
        mag <= i64::MAX as u64,
{
    if sign == 0 {
        mag as i64
    } else {
        (-(mag as i64) - 1) as i64
    }
}

/// Parses a value prefix.
pub open spec fn dec_value(ws: Seq<u64>) -> Option<(Value, int)> {
    if ws.len() >= 1 {
        let tag = ws[0];
        if tag == 2 {
            Some((Value::Auto, 1))
        } else if tag == 3 {
            Some((Value::Undefined, 1))
        } else if (tag == 0 || tag == 1) && ws.len() >= 3 && ws[1] <= 1 && ws[2] <= i64::MAX as u64 {
            let x = num_from(ws[1], ws[2]);
            if tag == 0 {
                Some((Value::Px(x), 3))
            } else {
                Some((Value::Percent(x), 3))
            }
        } else {
            None
        }
    } else {
        None
    }
}

/// Round trip for values.
pub proof fn lemma_value_roundtrip(v: Value, rest: Seq<u64>)
    ensures
        dec_value(enc_value(v) + rest) == Some((v, enc_value(v).len() as int)),
{
    let ws = enc_value(v) + rest;
    match v {
        Value::Px(x) => {
            assert(ws[0] == 0u64 && ws[1] == sign_word(x) && ws[2] == mag_word(x));
            assert(num_from(sign_word(x), mag_word(x)) == x);
        },
        Value::Percent(x) => {
            assert(ws[0] == 1u64 && ws[1] == sign_word(x) && ws[2] == mag_word(x));
            assert(num_from(sign_word(x), mag_word(x)) == x);
        },
        Value::Auto => {
            assert(ws[0] == 2u64);
        },
        Value::Undefined => {
            assert(ws[0] == 3u64);
        },
    }
}

/// Appends a value's words.
fn put_value(out: &mut Vec<u64>, v: &Value)
    ensures
        final(out)@ == old(out)@ + enc_value(*v),
{
    match v {
        Value::Px(x) => {
            out.push(0u64);
            put_num(out, *x);
        },
        Value::Percent(x) => {
            out.push(1u64);
            put_num(out, *x);
        },
        Value::Auto => {
            out.push(2u64);
        },
        Value::Undefined => {
            out.push(3u64);
        },
    }
    proof {
        assert(out@ =~= old(out)@ + enc_value(*v));
    }
}

/// Appends a number's sign and magnitude words.
fn put_num(out: &mut Vec<u64>, x: i64)
    ensures
        final(out)@ == old(out)@ + seq![sign_word(x), mag_word(x)],
{
    if x >= 0 {
        out.push(0u64);
        out.push(x as u64);
    } else {
        out.push(1u64);
        out.push((-(x + 1)) as u64);
    }
    proof {
        assert(out@ =~= old(out)@ + seq![sign_word(x), mag_word(x)]);
    }
}

/// Reads a value back; realizes [`dec_value`] whenever it succeeds.
fn get_value(words: &Vec<u64>, pos: &mut usize) -> (r: Option<Value>)
    requires
        *old(pos) <= words@.len(),
    ensures
        *old(pos) <= *final(pos) <= words@.len(),
        dec_value(words@.skip(*old(pos) as int)) matches Some(p) ==> r matches Some(y) && y == p.0
            && *final(pos) == *old(pos) + p.1,
{
    let ghost ws = words@.skip(*old(pos) as int);
    if words.len() - *pos < 1 {
        return None;
    }
    let tag = words[*pos];
    proof {
        assert(ws[0] == words@[*old(pos) as int]);
    }
    *pos = *pos + 1;
    if tag == 2 {
        return Some(Value::Auto);
    }
    if tag == 3 {
        return Some(Value::Undefined);
    }
    if tag != 0 && tag != 1 {
        return None;
    }
    if words.len() - *pos < 2 {
        return None;
    }
    let sign = words[*pos];
    let mag = words[*pos + 1];
    proof {
        assert(ws[1] == words@[*pos as int]);
        assert(ws[2] == words@[*pos + 1]);
    }
    *pos = *pos + 2;
    if sign > 1 || mag > i64::MAX as u64 {
        return None;
    }
    let x: i64 = if sign == 0 {
        mag as i64
    } else {
        -(mag as i64) - 1
    };
    if tag == 0 {
        Some(Value::Px(x))
    } else {
        Some(Value::Percent(x))
    }
}

/// A declaration: a property tag, then its payload.
pub open spec fn enc_decl(d: Declaration) -> Seq<u64> {
    match d {
        Declaration::Width(v) => seq![0u64] + enc_value(v),
        Declaration::Height(v) => seq![1u64] + enc_value(v),
        Declaration::BackgroundColor(r, g, b, a) => seq![
            2u64,
            r as u64,
            g as u64,
            b as u64,
            a as u64,
        ],
        Declaration::MarginTop(v) => seq![3u64] + enc_value(v),
        Declaration::MarginBottom(v) => seq![4u64] + enc_value(v),
        Declaration::MarginLeft(v) => seq![5u64] + enc_value(v),
        Declaration::MarginRight(v) => seq![6u64] + enc_value(v),
    }
}

/// Parses a declaration prefix.
pub open spec fn dec_decl(ws: Seq<u64>) -> Option<(Declaration, int)> {
    if ws.len() >= 1 {
        let tag = ws[0];
        if tag == 2 {
            if ws.len() >= 5 && ws[1] <= 255 && ws[2] <= 255 && ws[3] <= 255 && ws[4] <= 255 {
                Some(
                    (
                        Declaration::BackgroundColor(
                            ws[1] as u8,
                            ws[2] as u8,
                            ws[3] as u8,
                            ws[4] as u8,
                        ),
                        5,
                    ),
                )
            } else {
                None
            }
        } else if tag <= 6 {
            match dec_value(ws.drop_first()) {
                Some((v, c)) => {
                    let d = if tag == 0 {
                        Declaration::Width(v)
                    } else if tag == 1 {
                        Declaration::Height(v)
                    } else if tag == 3 {
                        Declaration::MarginTop(v)
                    } else if tag == 4 {
                        Declaration::MarginBottom(v)
                    } else if tag == 5 {
                        Declaration::MarginLeft(v)
                    } else {
                        Declaration::MarginRight(v)
                    };
                    Some((d, 1 + c))
                },
                None => None,
            }
        } else {
            None
        }
    } else {
        None
    }
}

/// Round trip for declarations.
pub proof fn lemma_decl_roundtrip(d: Declaration, rest: Seq<u64>)
    ensures
        dec_decl(enc_decl(d) + rest) == Some((d, enc_decl(d).len() as int)),
{
    let ws = enc_decl(d) + rest;
    match d {
        Declaration::BackgroundColor(r, g, b, a) => {
            assert(ws[0] == 2u64);
            assert(ws[1] == r as u64 && ws[2] == g as u64 && ws[3] == b as u64 && ws[4]
                == a as u64);
        },
        Declaration::Width(v) => {
            assert(ws.drop_first() =~= enc_value(v) + rest);
            lemma_value_roundtrip(v, rest);
        },
        Declaration::Height(v) => {
            assert(ws.drop_first() =~= enc_value(v) + rest);
            lemma_value_roundtrip(v, rest);
        },
        Declaration::MarginTop(v) => {
            assert(ws.drop_first() =~= enc_value(v) + rest);
            lemma_value_roundtrip(v, rest);
        },
        Declaration::MarginBottom(v) => {
            assert(ws.drop_first() =~= enc_value(v) + rest);
            lemma_value_roundtrip(v, rest);
        },
        Declaration::MarginLeft(v) => {
            assert(ws.drop_first() =~= enc_value(v) + rest);
            lemma_value_roundtrip(v, rest);
        },
        Declaration::MarginRight(v) => {
            assert(ws.drop_first() =~= enc_value(v) + rest);
            lemma_value_roundtrip(v, rest);
        },
    }
}

/// Appends a declaration's words.
fn put_decl(out: &mut Vec<u64>, d: &Declaration)
    ensures
        final(out)@ == old(out)@ + enc_decl(*d),
{
    match d {
        Declaration::Width(v) => {
            out.push(0u64);
            put_value(out, v);
        },
        Declaration::Height(v) => {
            out.push(1u64);
            put_value(out, v);
        },
        Declaration::BackgroundColor(r, g, b, a) => {
            out.push(2u64);
            out.push(*r as u64);
            out.push(*g as u64);
            out.push(*b as u64);
            out.push(*a as u64);
        },
        Declaration::MarginTop(v) => {
            out.push(3u64);
            put_value(out, v);
        },
        Declaration::MarginBottom(v) => {
            out.push(4u64);
            put_value(out, v);
        },
        Declaration::MarginLeft(v) => {
            out.push(5u64);
            put_value(out, v);
        },
        Declaration::MarginRight(v) => {
            out.push(6u64);
            put_value(out, v);
        },
    }
    proof {
        assert(out@ =~= old(out)@ + enc_decl(*d));
    }
}

/// Reads a declaration back; realizes [`dec_decl`] whenever it succeeds.
fn get_decl(words: &Vec<u64>, pos: &mut usize) -> (r: Option<Declaration>)
    requires
        *old(pos) <= words@.len(),
    ensures
        *old(pos) <= *final(pos) <= words@.len(),
        dec_decl(words@.skip(*old(pos) as int)) matches Some(p) ==> r matches Some(y) && y == p.0
            && *final(pos) == *old(pos) + p.1,
{
    let ghost ws = words@.skip(*old(pos) as int);
    if words.len() - *pos < 1 {
        return None;
    }
    let tag = words[*pos];
    proof {
        assert(ws[0] == words@[*old(pos) as int]);
    }
    *pos = *pos + 1;
    if tag == 2 {
        if words.len() - *pos < 4 {
            return None;
        }
        let r0 = words[*pos];
        let g0 = words[*pos + 1];
        let b0 = words[*pos + 2];
        let a0 = words[*pos + 3];
        proof {
            assert(ws[1] == words@[*pos as int]);
            assert(ws[2] == words@[*pos + 1]);
            assert(ws[3] == words@[*pos + 2]);
            assert(ws[4] == words@[*pos + 3]);
        }
        *pos = *pos + 4;
        if r0 > 255 || g0 > 255 || b0 > 255 || a0 > 255 {
            return None;
        }
        return Some(
            Declaration::BackgroundColor(r0 as u8, g0 as u8, b0 as u8, a0 as u8),
        );
    }
    if tag > 6 {
        return None;
    }
    proof {
        assert(ws.drop_first() =~= words@.skip(*pos as int));
    }
    let v = match get_value(words, pos) {
        Some(v) => v,
        None => {
            return None;
        },
    };
    if tag == 0 {
        Some(Declaration::Width(v))
    } else if tag == 1 {
        Some(Declaration::Height(v))
    } else if tag == 3 {
        Some(Declaration::MarginTop(v))
    } else if tag == 4 {
        Some(Declaration::MarginBottom(v))
    } else if tag == 5 {
        Some(Declaration::MarginLeft(v))
    } else {
        Some(Declaration::MarginRight(v))
    }
}

/// The header: `FUiS` and format version 0.
pub open spec fn magic_bytes() -> Seq<u8> {
    seq![0x46u8, 0x55u8, 0x69u8, 0x53u8, 0u8]
}

/// The little-endian encoding of a length or tag word.
pub open spec fn enc_u64(n: u64) -> Seq<u8> {
    seq![
        (n & 0xFF) as u8,
        ((n >> 8) & 0xFF) as u8,
        ((n >> 16) & 0xFF) as u8,
        ((n >> 24) & 0xFF) as u8,
        ((n >> 32) & 0xFF) as u8,
        ((n >> 40) & 0xFF) as u8,
        ((n >> 48) & 0xFF) as u8,
        ((n >> 56) & 0xFF) as u8,
    ]
}

/// Appends the eight little-endian bytes of `n`.
fn put_u64(out: &mut Vec<u8>, n: u64)
    ensures
        final(out)@ == old(out)@ + enc_u64(n),
{
    out.push((n & 0xFF) as u8);
    out.push(((n >> 8) & 0xFF) as u8);
    out.push(((n >> 16) & 0xFF) as u8);
    out.push(((n >> 24) & 0xFF) as u8);
    out.push(((n >> 32) & 0xFF) as u8);
    out.push(((n >> 40) & 0xFF) as u8);
    out.push(((n >> 48) & 0xFF) as u8);
    out.push(((n >> 56) & 0xFF) as u8);
    proof {
        assert(out@ =~= old(out)@ + enc_u64(n));
    }
}

/// The word encoded at byte offset `p` (little-endian), as arithmetic over
/// the bytes.
pub open spec fn dec_word_at(bs: Seq<u8>, p: int) -> u64
    recommends
        0 <= p,
        p + 8 <= bs.len(),
{
    (bs[p] as u64) | ((bs[p + 1] as u64) << 8) | ((bs[p + 2] as u64) << 16) | ((bs[p + 3] as u64)
        << 24) | ((bs[p + 4] as u64) << 32) | ((bs[p + 5] as u64) << 40) | ((bs[p + 6] as u64)
        << 48) | ((bs[p + 7] as u64) << 56)
}

/// Decoding the eight bytes an encode produced gives the word back.
pub proof fn lemma_word_roundtrip(bs: Seq<u8>, p: int, n: u64)
    requires
        0 <= p,
        p + 8 <= bs.len(),
        bs.subrange(p, p + 8) == enc_u64(n),
    ensures
        dec_word_at(bs, p) == n,
{
    assert(bs.subrange(p, p + 8)[0] == bs[p]);
    assert(bs.subrange(p, p + 8)[1] == bs[p + 1]);
    assert(bs.subrange(p, p + 8)[2] == bs[p + 2]);
    assert(bs.subrange(p, p + 8)[3] == bs[p + 3]);
    assert(bs.subrange(p, p + 8)[4] == bs[p + 4]);
    assert(bs.subrange(p, p + 8)[5] == bs[p + 5]);
    assert(bs.subrange(p, p + 8)[6] == bs[p + 6]);
    assert(bs.subrange(p, p + 8)[7] == bs[p + 7]);
    let c0 = (n & 0xFF) as u8;
    let c1 = ((n >> 8) & 0xFF) as u8;
    let c2 = ((n >> 16) & 0xFF) as u8;
    let c3 = ((n >> 24) & 0xFF) as u8;
    let c4 = ((n >> 32) & 0xFF) as u8;
    let c5 = ((n >> 40) & 0xFF) as u8;
    let c6 = ((n >> 48) & 0xFF) as u8;
    let c7 = ((n >> 56) & 0xFF) as u8;
    assert((c0 as u64) | ((c1 as u64) << 8) | ((c2 as u64) << 16) | ((c3 as u64) << 24) | ((
    c4 as u64) << 32) | ((c5 as u64) << 40) | ((c6 as u64) << 48) | ((c7 as u64) << 56) == n)
        by (bit_vector)
        requires
            c0 == (n & 0xFF) as u8,
            c1 == ((n >> 8) & 0xFF) as u8,
            c2 == ((n >> 16) & 0xFF) as u8,
            c3 == ((n >> 24) & 0xFF) as u8,
            c4 == ((n >> 32) & 0xFF) as u8,
            c5 == ((n >> 40) & 0xFF) as u8,
            c6 == ((n >> 48) & 0xFF) as u8,
            c7 == ((n >> 56) & 0xFF) as u8,
    ;
}

// ---------------------------------------------------------------------
// Selector and rule layers.
// ---------------------------------------------------------------------

/// Length bound under which a string encodes losslessly.
pub open spec fn str_ok(s: Seq<char>) -> bool {
    s.len() <= u64::MAX
}

/// An optional string: an absence tag, or a presence tag and the string.
pub open spec fn enc_opt_str(o: Option<Seq<char>>) -> Seq<u64> {
    match o {
        None => seq![0u64],
        Some(s) => seq![1u64] + enc_str(s),
    }
}

pub open spec fn opt_str_ok(o: Option<Seq<char>>) -> bool {
    match o {
        None => true,
        Some(s) => str_ok(s),
    }
}

/// Parses an optional string prefix.
pub open spec fn dec_opt_str(ws: Seq<u64>) -> Option<(Option<Seq<char>>, int)> {
    if ws.len() >= 1 {
        if ws[0] == 0 {
            Some((None, 1))
        } else if ws[0] == 1 {
            match dec_str(ws.drop_first()) {
                Some((s, c)) => Some((Some(s), 1 + c)),
                None => None,
            }
        } else {
            None
        }
    } else {
        None
    }
}

pub proof fn lemma_opt_str_roundtrip(o: Option<Seq<char>>, rest: Seq<u64>)
    requires
        opt_str_ok(o),
    ensures
        dec_opt_str(enc_opt_str(o) + rest) == Some((o, enc_opt_str(o).len() as int)),
{
    let ws = enc_opt_str(o) + rest;
    match o {
        None => {
            assert(ws[0] == 0u64);
        },
        Some(s) => {
            assert(ws[0] == 1u64);
            assert(ws.drop_first() =~= enc_str(s) + rest);
            lemma_str_roundtrip(s, rest);
        },
    }
}

/// The named encoder/decoder/validity functions handed to the list layer,
/// so that every use names the same function value.
pub open spec fn enc_str_f() -> spec_fn(Seq<char>) -> Seq<u64> {
    |s: Seq<char>| enc_str(s)
}

pub open spec fn dec_str_f() -> spec_fn(Seq<u64>) -> Option<(Seq<char>, int)> {
    |ws: Seq<u64>| dec_str(ws)
}

pub open spec fn str_ok_f() -> spec_fn(Seq<char>) -> bool {
    |s: Seq<char>| str_ok(s)
}

/// A compound selector: optional name, optional id, counted classes.
pub open spec fn enc_compound(v: CompoundV) -> Seq<u64> {
    enc_opt_str(v.0) + enc_opt_str(v.1) + enc_counted(v.2, enc_str_f())
}

pub open spec fn compound_ok(v: CompoundV) -> bool {
    &&& opt_str_ok(v.0)
    &&& opt_str_ok(v.1)
    &&& v.2.len() <= u64::MAX
    &&& forall|k: int| 0 <= k < v.2.len() ==> str_ok(#[trigger] v.2[k])
}

/// Parses a compound-selector prefix.
pub open spec fn dec_compound(ws: Seq<u64>) -> Option<(CompoundV, int)> {
    match dec_opt_str(ws) {
        Some((a, c1)) => if 0 <= c1 <= ws.len() {
            match dec_opt_str(ws.skip(c1)) {
                Some((b, c2)) => if 0 <= c2 <= ws.skip(c1).len() {
                    match dec_counted(ws.skip(c1 + c2), dec_str_f()) {
                        Some((cl, c3)) => Some(((a, b, cl), c1 + c2 + c3)),
                        None => None,
                    }
                } else {
                    None
                },
                None => None,
            }
        } else {
            None
        },
        None => None,
    }
}

#[verifier::rlimit(100)]
#[verifier::spinoff_prover]
pub proof fn lemma_compound_roundtrip(v: CompoundV, rest: Seq<u64>)
    requires
        compound_ok(v),
    ensures
        dec_compound(enc_compound(v) + rest) == Some((v, enc_compound(v).len() as int)),
{
    let ws = enc_compound(v) + rest;
    let r1 = enc_opt_str(v.1) + (enc_counted(v.2, enc_str_f()) + rest);
    assert(ws =~= enc_opt_str(v.0) + r1);
    lemma_opt_str_roundtrip(v.0, r1);
    let c1 = enc_opt_str(v.0).len() as int;
    assert(ws.skip(c1) =~= r1);
    let r2 = enc_counted(v.2, enc_str_f()) + rest;
    lemma_opt_str_roundtrip(v.1, r2);
    let c2 = enc_opt_str(v.1).len() as int;
    assert(ws.skip(c1 + c2) =~= r2);
    assert forall|x: Seq<char>, r3: Seq<u64>|
        str_ok_f()(x) implies #[trigger] dec_str_f()(enc_str_f()(x) + r3) == Some(
        (x, enc_str_f()(x).len() as int),
    ) by {
        lemma_str_roundtrip(x, r3);
    }
    lemma_counted_roundtrip(v.2, rest, str_ok_f(), enc_str_f(), dec_str_f());
}

/// One combinator word.
pub open spec fn enc_comb(c: Combinator) -> u64 {
    match c {
        Combinator::Descendant => 0u64,
        Combinator::Child => 1u64,
    }
}

/// A combinator/compound pair.
pub open spec fn enc_pair(p: PairV) -> Seq<u64> {
    seq![enc_comb(p.0)] + enc_compound(p.1)
}

pub open spec fn pair_ok(p: PairV) -> bool {
    compound_ok(p.1)
}

/// Parses one combinator/compound pair.
pub open spec fn dec_pair(ws: Seq<u64>) -> Option<(PairV, int)> {
    if ws.len() >= 1 && ws[0] <= 1 {
        let comb = if ws[0] == 0 {
            Combinator::Descendant
        } else {
            Combinator::Child
        };
        match dec_compound(ws.drop_first()) {
            Some((cv, c)) => Some(((comb, cv), 1 + c)),
            None => None,
        }
    } else {
        None
    }
}

pub proof fn lemma_pair_roundtrip(p: PairV, rest: Seq<u64>)
    requires
        pair_ok(p),
    ensures
        dec_pair(enc_pair(p) + rest) == Some((p, enc_pair(p).len() as int)),
{
    let ws = enc_pair(p) + rest;
    assert(ws[0] == enc_comb(p.0));
    assert(ws.drop_first() =~= enc_compound(p.1) + rest);
    lemma_compound_roundtrip(p.1, rest);
}

pub open spec fn enc_pair_f() -> spec_fn(PairV) -> Seq<u64> {
    |p: PairV| enc_pair(p)
}

pub open spec fn dec_pair_f() -> spec_fn(Seq<u64>) -> Option<(PairV, int)> {
    |ws: Seq<u64>| dec_pair(ws)
}

pub open spec fn pair_ok_f() -> spec_fn(PairV) -> bool {
    |p: PairV| pair_ok(p)
}

/// A complex selector: the head compound, then counted pairs.
pub open spec fn enc_complex(v: ComplexV) -> Seq<u64> {
    enc_compound(v.0) + enc_counted(v.1, enc_pair_f())
}

pub open spec fn complex_ok(v: ComplexV) -> bool {
    &&& compound_ok(v.0)
    &&& v.1.len() <= u64::MAX
    &&& forall|k: int| 0 <= k < v.1.len() ==> pair_ok(#[trigger] v.1[k])
}

/// Parses a complex-selector prefix.
pub open spec fn dec_complex(ws: Seq<u64>) -> Option<(ComplexV, int)> {
    match dec_compound(ws) {
        Some((h, c1)) => if 0 <= c1 <= ws.len() {
            match dec_counted(ws.skip(c1), dec_pair_f()) {
                Some((t, c2)) => Some(((h, t), c1 + c2)),
                None => None,
            }
        } else {
            None
        },
        None => None,
    }
}

#[verifier::rlimit(100)]
#[verifier::spinoff_prover]
pub proof fn lemma_complex_roundtrip(v: ComplexV, rest: Seq<u64>)
    requires
        complex_ok(v),
    ensures
        dec_complex(enc_complex(v) + rest) == Some((v, enc_complex(v).len() as int)),
{
    let ws = enc_complex(v) + rest;
    let r1 = enc_counted(v.1, enc_pair_f()) + rest;
    assert(ws =~= enc_compound(v.0) + r1);
    lemma_compound_roundtrip(v.0, r1);
    let c1 = enc_compound(v.0).len() as int;
    assert(ws.skip(c1) =~= r1);
    assert forall|x: PairV, r3: Seq<u64>|
        pair_ok_f()(x) implies #[trigger] dec_pair_f()(enc_pair_f()(x) + r3) == Some(
        (x, enc_pair_f()(x).len() as int),
    ) by {
        lemma_pair_roundtrip(x, r3);
    }
    lemma_counted_roundtrip(v.1, rest, pair_ok_f(), enc_pair_f(), dec_pair_f());
}

pub open spec fn enc_complex_f() -> spec_fn(ComplexV) -> Seq<u64> {
    |v: ComplexV| enc_complex(v)
}

pub open spec fn dec_complex_f() -> spec_fn(Seq<u64>) -> Option<(ComplexV, int)> {
    |ws: Seq<u64>| dec_complex(ws)
}

pub open spec fn complex_ok_f() -> spec_fn(ComplexV) -> bool {
    |v: ComplexV| complex_ok(v)
}

pub open spec fn enc_decl_f() -> spec_fn(Declaration) -> Seq<u64> {
    |d: Declaration| enc_decl(d)
}

pub open spec fn dec_decl_f() -> spec_fn(Seq<u64>) -> Option<(Declaration, int)> {
    |ws: Seq<u64>| dec_decl(ws)
}

pub open spec fn decl_ok_f() -> spec_fn(Declaration) -> bool {
    |d: Declaration| true
}

/// A style rule: counted selectors, then counted declarations.
pub open spec fn enc_rule(v: RuleV) -> Seq<u64> {
    enc_counted(v.0, enc_complex_f()) + enc_counted(v.1, enc_decl_f())
}

pub open spec fn rule_ok(v: RuleV) -> bool {
    &&& v.0.len() <= u64::MAX
    &&& v.1.len() <= u64::MAX
    &&& forall|k: int| 0 <= k < v.0.len() ==> complex_ok(#[trigger] v.0[k])
}

/// Parses a style-rule prefix.
pub open spec fn dec_rule(ws: Seq<u64>) -> Option<(RuleV, int)> {
    match dec_counted(ws, dec_complex_f()) {
        Some((sels, c1)) => if 0 <= c1 <= ws.len() {
            match dec_counted(ws.skip(c1), dec_decl_f()) {
                Some((ds, c2)) => Some(((sels, ds), c1 + c2)),
                None => None,
            }
        } else {
            None
        },
        None => None,
    }
}

#[verifier::rlimit(100)]
#[verifier::spinoff_prover]
pub proof fn lemma_rule_roundtrip(v: RuleV, rest: Seq<u64>)
    requires
        rule_ok(v),
    ensures
        dec_rule(enc_rule(v) + rest) == Some((v, enc_rule(v).len() as int)),
{
    let ws = enc_rule(v) + rest;
    let r1 = enc_counted(v.1, enc_decl_f()) + rest;
    assert(ws =~= enc_counted(v.0, enc_complex_f()) + r1);
    assert forall|x: ComplexV, r3: Seq<u64>|
        complex_ok_f()(x) implies #[trigger] dec_complex_f()(enc_complex_f()(x) + r3) == Some(
        (x, enc_complex_f()(x).len() as int),
    ) by {
        lemma_complex_roundtrip(x, r3);
    }
    lemma_counted_roundtrip(v.0, r1, complex_ok_f(), enc_complex_f(), dec_complex_f());
    let c1 = enc_counted(v.0, enc_complex_f()).len() as int;
    assert(ws.skip(c1) =~= r1);
    assert forall|x: Declaration, r3: Seq<u64>|
        decl_ok_f()(x) implies #[trigger] dec_decl_f()(enc_decl_f()(x) + r3) == Some(
        (x, enc_decl_f()(x).len() as int),
    ) by {
        lemma_decl_roundtrip(x, r3);
    }
    lemma_counted_roundtrip(v.1, rest, decl_ok_f(), enc_decl_f(), dec_decl_f());
}

pub open spec fn enc_rule_f() -> spec_fn(RuleV) -> Seq<u64> {
    |v: RuleV| enc_rule(v)
}

pub open spec fn dec_rule_f() -> spec_fn(Seq<u64>) -> Option<(RuleV, int)> {
    |ws: Seq<u64>| dec_rule(ws)
}

pub open spec fn rule_ok_f() -> spec_fn(RuleV) -> bool {
    |v: RuleV| rule_ok(v)
}

/// A stylesheet: its counted rules.
pub open spec fn enc_sheet(v: SheetV) -> Seq<u64> {
    enc_counted(v, enc_rule_f())
}

pub open spec fn sheet_ok(v: SheetV) -> bool {
    &&& v.len() <= u64::MAX
    &&& forall|k: int| 0 <= k < v.len() ==> rule_ok(#[trigger] v[k])
}

/// Parses a stylesheet prefix.
pub open spec fn dec_sheet(ws: Seq<u64>) -> Option<(SheetV, int)> {
    dec_counted(ws, dec_rule_f())
}

#[verifier::rlimit(100)]
#[verifier::spinoff_prover]
pub proof fn lemma_sheet_roundtrip(v: SheetV, rest: Seq<u64>)
    requires
        sheet_ok(v),
    ensures
        dec_sheet(enc_sheet(v) + rest) == Some((v, enc_sheet(v).len() as int)),
{
    assert forall|x: RuleV, r3: Seq<u64>|
        rule_ok_f()(x) implies #[trigger] dec_rule_f()(enc_rule_f()(x) + r3) == Some(
        (x, enc_rule_f()(x).len() as int),
    ) by {
        lemma_rule_roundtrip(x, r3);
    }
    lemma_counted_roundtrip(v, rest, rule_ok_f(), enc_rule_f(), dec_rule_f());
}

// ---------------------------------------------------------------------
// Element, node and tree layers.
// ---------------------------------------------------------------------

/// View of one raw attribute: present or not, dynamic or literal, and its
/// text. The staleness flag is transient and not part of the view.
pub type AttrV = Option<(bool, Seq<char>)>;

/// View of an element's three raw attributes.
pub type AttrsV = (AttrV, AttrV, AttrV);

/// View of an element: kind, raw attributes, classes, id, rule list.
pub type ElemV = (ElementData, AttrsV, Seq<Seq<char>>, Option<Seq<char>>, Seq<RuleV>);

/// View of a node record: its five links and its element.
pub type RecV = ((Option<Node>, Option<Node>, Option<Node>, Option<Node>, Option<Node>), ElemV);

/// View of a whole arena.
pub type TreeV = Seq<RecV>;

/// View of a document: arena plus stylesheet.
pub type DocV = (TreeV, SheetV);

/// The view of one raw attribute.
pub open spec fn attr_v(o: Option<RawAttributeValue>) -> AttrV {
    match o {
        None => None,
        Some(RawAttributeValue::Raw { value, .. }) => Some((false, value@)),
        Some(RawAttributeValue::Script { script, .. }) => Some((true, script@)),
    }
}

/// The view of an element's raw attributes.
pub open spec fn attrs_v(a: RawElementAttributes) -> AttrsV {
    (attr_v(a.class), attr_v(a.id), attr_v(a.style))
}

/// The persistent view of an element (computed style not included).
pub open spec fn elem_v(e: Element) -> ElemV {
    (
        e.data,
        attrs_v(e.raw_attributes),
        e.classes.deep_view(),
        opt_str_view(e.id),
        e.style@.map_values(|r: StyleRule| rule_v(r)),
    )
}

/// The view of one node record.
pub open spec fn rec_v(r: NodeInner<Element>) -> RecV {
    (
        (r.parent, r.previous_sibling, r.next_sibling, r.first_child, r.last_child),
        elem_v(r.data),
    )
}

/// The view of a whole arena.
pub open spec fn tree_v(ns: Seq<NodeInner<Element>>) -> TreeV {
    ns.map_values(|r: NodeInner<Element>| rec_v(r))
}

/// One raw attribute: an absence tag, or a literal/dynamic tag and the
/// text.
pub open spec fn enc_attr(a: AttrV) -> Seq<u64> {
    match a {
        None => seq![0u64],
        Some((is_script, s)) => seq![if is_script { 2u64 } else { 1u64 }] + enc_str(s),
    }
}

pub open spec fn attr_ok(a: AttrV) -> bool {
    match a {
        None => true,
        Some((_, s)) => str_ok(s),
    }
}

/// Parses one raw attribute.
pub open spec fn dec_attr(ws: Seq<u64>) -> Option<(AttrV, int)> {
    if ws.len() >= 1 {
        if ws[0] == 0 {
            Some((None, 1))
        } else if ws[0] == 1 || ws[0] == 2 {
            match dec_str(ws.drop_first()) {
                Some((s, c)) => Some((Some((ws[0] == 2, s)), 1 + c)),
                None => None,
            }
        } else {
            None
        }
    } else {
        None
    }
}

pub proof fn lemma_attr_roundtrip(a: AttrV, rest: Seq<u64>)
    requires
        attr_ok(a),
    ensures
        dec_attr(enc_attr(a) + rest) == Some((a, enc_attr(a).len() as int)),
{
    let ws = enc_attr(a) + rest;
    match a {
        None => {
            assert(ws[0] == 0u64);
        },
        Some((is_script, s)) => {
            assert(ws.drop_first() =~= enc_str(s) + rest);
            lemma_str_roundtrip(s, rest);
        },
    }
}

/// The element kind tag.
pub open spec fn enc_eldata(d: ElementData) -> Seq<u64> {
    match d {
        ElementData::Root(_) => seq![0u64],
        ElementData::Unstyled(_) => seq![1u64],
    }
}

/// Parses the element kind tag.
pub open spec fn dec_eldata(ws: Seq<u64>) -> Option<(ElementData, int)> {
    if ws.len() >= 1 {
        if ws[0] == 0 {
            Some((ElementData::Root(RootElement), 1))
        } else if ws[0] == 1 {
            Some((ElementData::Unstyled(UnstyledElement), 1))
        } else {
            None
        }
    } else {
        None
    }
}

/// An element: kind, three raw attributes, counted classes, optional id,
/// counted rules.
pub open spec fn enc_elem(v: ElemV) -> Seq<u64> {
    enc_eldata(v.0) + enc_attr(v.1.0) + enc_attr(v.1.1) + enc_attr(v.1.2) + enc_counted(
        v.2,
        enc_str_f(),
    ) + enc_opt_str(v.3) + enc_counted(v.4, enc_rule_f())
}



pub open spec fn elem_ok(v: ElemV) -> bool {
    &&& attr_ok(v.1.0)
    &&& attr_ok(v.1.1)
    &&& attr_ok(v.1.2)
    &&& v.2.len() <= u64::MAX
    &&& (forall|k: int| 0 <= k < v.2.len() ==> str_ok(#[trigger] v.2[k]))
    &&& opt_str_ok(v.3)
    &&& v.4.len() <= u64::MAX
    &&& (forall|k: int| 0 <= k < v.4.len() ==> rule_ok(#[trigger] v.4[k]))
}

/// Parses the classes / id / rules tail of an element.
pub open spec fn dec_elem_tail(ws: Seq<u64>) -> Option<
    ((Seq<Seq<char>>, Option<Seq<char>>, Seq<RuleV>), int),
> {
    match dec_counted(ws, dec_str_f()) {
        Some((cls, c5)) => if 0 <= c5 <= ws.len() {
            match dec_opt_str(ws.skip(c5)) {
                Some((idv, c6)) => if 0 <= c5 + c6 <= ws.len() {
                    match dec_counted(ws.skip(c5 + c6), dec_rule_f()) {
                        Some((rules, c7)) => Some(((cls, idv, rules), c5 + c6 + c7)),
                        None => None,
                    }
                } else {
                    None
                },
                None => None,
            }
        } else {
            None
        },
        None => None,
    }
}

/// Round trip for the element tail.
#[verifier::rlimit(100)]
#[verifier::spinoff_prover]
pub proof fn lemma_elem_tail_roundtrip(
    cls: Seq<Seq<char>>,
    idv: Option<Seq<char>>,
    rules: Seq<RuleV>,
    rest: Seq<u64>,
)
    requires
        cls.len() <= u64::MAX,
        forall|k: int| 0 <= k < cls.len() ==> str_ok(#[trigger] cls[k]),
        opt_str_ok(idv),
        rules.len() <= u64::MAX,
        forall|k: int| 0 <= k < rules.len() ==> rule_ok(#[trigger] rules[k]),
    ensures
        dec_elem_tail(enc_counted(cls, enc_str_f()) + enc_opt_str(idv) + enc_counted(rules, enc_rule_f()) + rest)
            == Some(
            (
                (cls, idv, rules),
                (enc_counted(cls, enc_str_f()).len() + enc_opt_str(idv).len() + enc_counted(
                    rules,
                    enc_rule_f(),
                ).len()) as int,
            ),
        ),
{
    let e5 = enc_counted(cls, enc_str_f());
    let e6 = enc_opt_str(idv);
    let e7 = enc_counted(rules, enc_rule_f());
    let ws = e5 + e6 + e7 + rest;
    let c5 = e5.len() as int;
    let c6 = e6.len() as int;
    let c7 = e7.len() as int;
    let r6 = e6 + (e7 + rest);
    assert(ws =~= e5 + r6);
    assert forall|x: Seq<char>, rr: Seq<u64>|
        str_ok_f()(x) implies #[trigger] dec_str_f()(enc_str_f()(x) + rr) == Some(
        (x, enc_str_f()(x).len() as int),
    ) by {
        lemma_str_roundtrip(x, rr);
    }
    lemma_counted_roundtrip(cls, r6, str_ok_f(), enc_str_f(), dec_str_f());
    assert(dec_counted(ws, dec_str_f()) == Some((cls, c5)));
    let r7 = e7 + rest;
    lemma_opt_str_roundtrip(idv, r7);
    assert(ws.skip(c5) =~= e6 + r7);
    assert(dec_opt_str(ws.skip(c5)) == Some((idv, c6)));
    assert forall|x: RuleV, rr: Seq<u64>|
        rule_ok_f()(x) implies #[trigger] dec_rule_f()(enc_rule_f()(x) + rr) == Some(
        (x, enc_rule_f()(x).len() as int),
    ) by {
        lemma_rule_roundtrip(x, rr);
    }
    lemma_counted_roundtrip(rules, rest, rule_ok_f(), enc_rule_f(), dec_rule_f());
    assert(ws.skip(c5 + c6) =~= e7 + rest);
    assert(dec_counted(ws.skip(c5 + c6), dec_rule_f()) == Some((rules, c7)));
}

/// Parses the kind tag and the three raw attributes of an element.
pub open spec fn dec_elem_head(ws: Seq<u64>) -> Option<((ElementData, AttrsV), int)> {
    match dec_eldata(ws) {
        Some((d, c1)) => if 0 <= c1 <= ws.len() {
            match dec_attr(ws.skip(c1)) {
                Some((a1, c2)) => if 0 <= c1 + c2 <= ws.len() {
                    match dec_attr(ws.skip(c1 + c2)) {
                        Some((a2, c3)) => if 0 <= c1 + c2 + c3 <= ws.len() {
                            match dec_attr(ws.skip(c1 + c2 + c3)) {
                                Some((a3, c4)) => Some(
                                    ((d, (a1, a2, a3)), c1 + c2 + c3 + c4),
                                ),
                                None => None,
                            }
                        } else {
                            None
                        },
                        None => None,
                    }
                } else {
                    None
                },
                None => None,
            }
        } else {
            None
        },
        None => None,
    }
}

/// The kind tag and raw attributes of an element.
pub open spec fn enc_elem_head(d: ElementData, a: AttrsV) -> Seq<u64> {
    enc_eldata(d) + enc_attr(a.0) + enc_attr(a.1) + enc_attr(a.2)
}

/// Round trip for the element head.
#[verifier::rlimit(100)]
#[verifier::spinoff_prover]
pub proof fn lemma_elem_head_roundtrip(d: ElementData, a: AttrsV, rest: Seq<u64>)
    requires
        attr_ok(a.0),
        attr_ok(a.1),
        attr_ok(a.2),
    ensures
        dec_elem_head(enc_elem_head(d, a) + rest) == Some(
            ((d, a), enc_elem_head(d, a).len() as int),
        ),
{
    let ws = enc_elem_head(d, a) + rest;
    let e1 = enc_eldata(d);
    let e2 = enc_attr(a.0);
    let e3 = enc_attr(a.1);
    let e4 = enc_attr(a.2);
    let c1 = e1.len() as int;
    let c2 = e2.len() as int;
    let c3 = e3.len() as int;
    let c4 = e4.len() as int;
    let r2 = e2 + (e3 + (e4 + rest));
    assert(ws =~= e1 + r2);
    assert((e1 + r2)[0] == e1[0]);
    assert(dec_eldata(ws) == Some((d, c1)));
    let r3 = e3 + (e4 + rest);
    lemma_attr_roundtrip(a.0, r3);
    assert(ws.skip(c1) =~= e2 + r3);
    assert(dec_attr(ws.skip(c1)) == Some((a.0, c2)));
    let r4 = e4 + rest;
    lemma_attr_roundtrip(a.1, r4);
    assert(ws.skip(c1 + c2) =~= e3 + r4);
    assert(dec_attr(ws.skip(c1 + c2)) == Some((a.1, c3)));
    lemma_attr_roundtrip(a.2, rest);
    assert(ws.skip(c1 + c2 + c3) =~= e4 + rest);
    assert(dec_attr(ws.skip(c1 + c2 + c3)) == Some((a.2, c4)));
}

/// Parses an element prefix.
pub open spec fn dec_elem(ws: Seq<u64>) -> Option<(ElemV, int)> {
    match dec_elem_head(ws) {
        Some((h, c1)) => if 0 <= c1 <= ws.len() {
            match dec_elem_tail(ws.skip(c1)) {
                Some((t, c2)) => Some(((h.0, h.1, t.0, t.1, t.2), c1 + c2)),
                None => None,
            }
        } else {
            None
        },
        None => None,
    }
}

/// Round trip for elements.
#[verifier::rlimit(100)]
#[verifier::spinoff_prover]
pub proof fn lemma_elem_roundtrip(v: ElemV, rest: Seq<u64>)
    requires
        elem_ok(v),
    ensures
        dec_elem(enc_elem(v) + rest) == Some((v, enc_elem(v).len() as int)),
{
    let ws = enc_elem(v) + rest;
    let eh = enc_elem_head(v.0, v.1);
    let e5 = enc_counted(v.2, enc_str_f());
    let e6 = enc_opt_str(v.3);
    let e7 = enc_counted(v.4, enc_rule_f());
    let tail = e5 + e6 + e7 + rest;
    assert(ws =~= eh + tail);
    lemma_elem_head_roundtrip(v.0, v.1, tail);
    assert(dec_elem_head(ws) == Some(((v.0, v.1), eh.len() as int)));
    lemma_elem_tail_roundtrip(v.2, v.3, v.4, rest);
    assert(ws.skip(eh.len() as int) =~= tail);
    assert(dec_elem_tail(ws.skip(eh.len() as int)) == Some(
        ((v.2, v.3, v.4), (e5.len() + e6.len() + e7.len()) as int),
    ));
}

/// A link: always two words, a presence tag and the target index.
pub open spec fn enc_link(l: Option<Node>) -> Seq<u64> {
    match l {
        None => seq![0u64, 0u64],
        Some(n) => seq![1u64, n.index as u64],
    }
}

/// Parses one link.
pub open spec fn dec_link(ws: Seq<u64>) -> Option<(Option<Node>, int)> {
    if ws.len() >= 2 {
        if ws[0] == 0 {
            Some((None, 2))
        } else if ws[0] == 1 && ws[1] <= usize::MAX as u64 {
            Some((Some(Node { index: ws[1] as usize }), 2))
        } else {
            None
        }
    } else {
        None
    }
}

pub proof fn lemma_link_roundtrip(l: Option<Node>, rest: Seq<u64>)
    ensures
        dec_link(enc_link(l) + rest) == Some((l, 2int)),
{
    let ws = enc_link(l) + rest;
    match l {
        None => {
            assert(ws[0] == 0u64);
        },
        Some(n) => {
            assert(ws[0] == 1u64 && ws[1] == n.index as u64);
        },
    }
}

/// The five links of a node record.
pub open spec fn enc_links(l: (Option<Node>, Option<Node>, Option<Node>, Option<Node>, Option<Node>)) -> Seq<u64> {
    enc_link(l.0) + enc_link(l.1) + enc_link(l.2) + enc_link(l.3) + enc_link(l.4)
}

/// Parses the five links of a node record.
pub open spec fn dec_links(ws: Seq<u64>) -> Option<
    ((Option<Node>, Option<Node>, Option<Node>, Option<Node>, Option<Node>), int),
> {
    match (
        dec_link(ws),
        dec_link(ws.skip(2)),
        dec_link(ws.skip(4)),
        dec_link(ws.skip(6)),
        dec_link(ws.skip(8)),
    ) {
        (Some((l1, _)), Some((l2, _)), Some((l3, _)), Some((l4, _)), Some((l5, _))) => Some(
            ((l1, l2, l3, l4, l5), 10),
        ),
        _ => None,
    }
}

/// A link's two words at offset `k` decode to that link.
proof fn lemma_dec_link_at(ws: Seq<u64>, k: int, l: Option<Node>)
    requires
        0 <= k,
        k + 2 <= ws.len(),
        ws[k] == enc_link(l)[0],
        ws[k + 1] == enc_link(l)[1],
    ensures
        dec_link(ws.skip(k)) == Some((l, 2int)),
{
    assert(ws.skip(k)[0] == ws[k]);
    assert(ws.skip(k)[1] == ws[k + 1]);
    match l {
        None => {
            assert(enc_link(l)[0] == 0u64);
        },
        Some(n) => {
            assert(enc_link(l)[0] == 1u64);
            assert(enc_link(l)[1] == n.index as u64);
        },
    }
}

/// Round trip for the link block.
pub proof fn lemma_links_roundtrip(
    l: (Option<Node>, Option<Node>, Option<Node>, Option<Node>, Option<Node>),
    rest: Seq<u64>,
)
    ensures
        dec_links(enc_links(l) + rest) == Some((l, 10int)),
{
    let ws = enc_links(l) + rest;
    assert(ws[0] == enc_link(l.0)[0] && ws[1] == enc_link(l.0)[1]);
    assert(ws[2] == enc_link(l.1)[0] && ws[3] == enc_link(l.1)[1]);
    assert(ws[4] == enc_link(l.2)[0] && ws[5] == enc_link(l.2)[1]);
    assert(ws[6] == enc_link(l.3)[0] && ws[7] == enc_link(l.3)[1]);
    assert(ws[8] == enc_link(l.4)[0] && ws[9] == enc_link(l.4)[1]);
    lemma_dec_link_at(ws, 0, l.0);
    assert(ws.skip(0) =~= ws);
    lemma_dec_link_at(ws, 2, l.1);
    lemma_dec_link_at(ws, 4, l.2);
    lemma_dec_link_at(ws, 6, l.3);
    lemma_dec_link_at(ws, 8, l.4);
}

/// One node record: its five links, then its element.
pub open spec fn enc_rec(v: RecV) -> Seq<u64> {
    enc_links(v.0) + enc_elem(v.1)
}

pub open spec fn rec_ok(v: RecV) -> bool {
    elem_ok(v.1)
}

/// Parses one node record.
pub open spec fn dec_rec(ws: Seq<u64>) -> Option<(RecV, int)> {
    match dec_links(ws) {
        Some((ls, c1)) => if 0 <= c1 <= ws.len() {
            match dec_elem(ws.skip(c1)) {
                Some((ev, c2)) => Some(((ls, ev), c1 + c2)),
                None => None,
            }
        } else {
            None
        },
        None => None,
    }
}

#[verifier::rlimit(100)]
#[verifier::spinoff_prover]
pub proof fn lemma_rec_roundtrip(v: RecV, rest: Seq<u64>)
    requires
        rec_ok(v),
    ensures
        dec_rec(enc_rec(v) + rest) == Some((v, enc_rec(v).len() as int)),
{
    let ws = enc_rec(v) + rest;
    let e1 = enc_links(v.0);
    let e2 = enc_elem(v.1);
    let c1 = e1.len() as int;
    let c2 = e2.len() as int;
    let r1 = e2 + rest;
    assert(ws =~= e1 + r1);
    lemma_links_roundtrip(v.0, r1);
    assert(dec_links(ws) == Some((v.0, c1)));
    lemma_elem_roundtrip(v.1, rest);
    assert(ws.skip(c1) =~= e2 + rest);
    assert(dec_elem(ws.skip(c1)) == Some((v.1, c2)));
}

pub open spec fn enc_rec_f() -> spec_fn(RecV) -> Seq<u64> {
    |v: RecV| enc_rec(v)
}

pub open spec fn dec_rec_f() -> spec_fn(Seq<u64>) -> Option<(RecV, int)> {
    |ws: Seq<u64>| dec_rec(ws)
}

pub open spec fn rec_ok_f() -> spec_fn(RecV) -> bool {
    |v: RecV| rec_ok(v)
}

/// A whole document: the counted node records, then the stylesheet.
pub open spec fn enc_doc(v: DocV) -> Seq<u64> {
    enc_counted(v.0, enc_rec_f()) + enc_sheet(v.1)
}

pub open spec fn doc_ok(v: DocV) -> bool {
    &&& v.0.len() <= u64::MAX
    &&& (forall|k: int| 0 <= k < v.0.len() ==> rec_ok(#[trigger] v.0[k]))
    &&& sheet_ok(v.1)
}

/// Parses a document prefix.
pub open spec fn dec_doc(ws: Seq<u64>) -> Option<(DocV, int)> {
    match dec_counted(ws, dec_rec_f()) {
        Some((recs, c1)) => if 0 <= c1 <= ws.len() {
            match dec_sheet(ws.skip(c1)) {
                Some((sh, c2)) => Some(((recs, sh), c1 + c2)),
                None => None,
            }
        } else {
            None
        },
        None => None,
    }
}

#[verifier::rlimit(100)]
#[verifier::spinoff_prover]
pub proof fn lemma_doc_roundtrip(v: DocV, rest: Seq<u64>)
    requires
        doc_ok(v),
    ensures
        dec_doc(enc_doc(v) + rest) == Some((v, enc_doc(v).len() as int)),
{
    let ws = enc_doc(v) + rest;
    let r1 = enc_sheet(v.1) + rest;
    assert(ws =~= enc_counted(v.0, enc_rec_f()) + r1);
    assert forall|x: RecV, rr: Seq<u64>|
        rec_ok_f()(x) implies #[trigger] dec_rec_f()(enc_rec_f()(x) + rr) == Some(
        (x, enc_rec_f()(x).len() as int),
    ) by {
        lemma_rec_roundtrip(x, rr);
    }
    lemma_counted_roundtrip(v.0, r1, rec_ok_f(), enc_rec_f(), dec_rec_f());
    assert(ws.skip(enc_counted(v.0, enc_rec_f()).len() as int) =~= r1);
    lemma_sheet_roundtrip(v.1, rest);
}

// ---------------------------------------------------------------------
// The byte layer and the top-level round-trip law.
// ---------------------------------------------------------------------

/// Link well-formedness of one record view, mirroring the arena
/// condition over the view tuples.
pub open spec fn wf_at_v(tv: TreeV, i: int) -> bool {
    let l = tv[i].0;
    &&& match l.0 {
        Some(p) => p.index < i && tv[p.index as int].0.3 is Some,
        None => i == 0,
    }
    &&& match l.1 {
        Some(s) => {
            &&& s.index < i
            &&& tv[s.index as int].0.2 == Some(Node { index: i as usize })
            &&& tv[s.index as int].0.0 == l.0
        },
        None => match l.0 {
            Some(p) => tv[p.index as int].0.3 == Some(Node { index: i as usize }),
            None => true,
        },
    }
    &&& match l.2 {
        Some(s) => {
            &&& i < s.index < tv.len()
            &&& tv[s.index as int].0.1 == Some(Node { index: i as usize })
            &&& tv[s.index as int].0.0 == l.0
        },
        None => match l.0 {
            Some(p) => tv[p.index as int].0.4 == Some(Node { index: i as usize }),
            None => true,
        },
    }
    &&& match l.3 {
        Some(c) => {
            &&& i < c.index < tv.len()
            &&& tv[c.index as int].0.0 == Some(Node { index: i as usize })
            &&& tv[c.index as int].0.1 is None
        },
        None => l.4 is None,
    }
    &&& match l.4 {
        Some(c) => {
            &&& i < c.index < tv.len()
            &&& tv[c.index as int].0.0 == Some(Node { index: i as usize })
            &&& tv[c.index as int].0.2 is None
        },
        None => l.3 is None,
    }
}

/// Link well-formedness of a whole arena view.
pub open spec fn recs_wf(tv: TreeV) -> bool {
    &&& 1 <= tv.len()
    &&& forall|i: int| 0 <= i < tv.len() ==> wf_at_v(tv, i)
}

/// An arena is well formed exactly when its view is: the view carries the
/// links verbatim.
pub proof fn lemma_wf_iff_recs_wf(ns: Seq<NodeInner<Element>>)
    ensures
        crate::tree::wf(ns) == recs_wf(tree_v(ns)),
{
    let tv = tree_v(ns);
    assert(tv.len() == ns.len());
    assert forall|i: int| 0 <= i < ns.len() implies crate::tree::wf_at(ns, i) == wf_at_v(tv, i) by {
        assert(tv[i] == rec_v(ns[i]));
        match ns[i].parent {
            Some(p) => {
                if p.index < i {
                    assert(tv[p.index as int] == rec_v(ns[p.index as int]));
                }
            },
            None => {},
        }
        match ns[i].previous_sibling {
            Some(sx) => {
                if sx.index < ns.len() {
                    assert(tv[sx.index as int] == rec_v(ns[sx.index as int]));
                }
            },
            None => {},
        }
        match ns[i].next_sibling {
            Some(sx) => {
                if sx.index < ns.len() {
                    assert(tv[sx.index as int] == rec_v(ns[sx.index as int]));
                }
            },
            None => {},
        }
        match ns[i].first_child {
            Some(sx) => {
                if sx.index < ns.len() {
                    assert(tv[sx.index as int] == rec_v(ns[sx.index as int]));
                }
            },
            None => {},
        }
        match ns[i].last_child {
            Some(sx) => {
                if sx.index < ns.len() {
                    assert(tv[sx.index as int] == rec_v(ns[sx.index as int]));
                }
            },
            None => {},
        }
    }
}

/// The bytes of a word sequence, each word little-endian.
pub open spec fn bytes_of_words(ws: Seq<u64>) -> Seq<u8>
    decreases ws.len(),
{
    if ws.len() == 0 {
        Seq::empty()
    } else {
        enc_u64(ws[0]) + bytes_of_words(ws.drop_first())
    }
}

/// The words read back from `bs` starting after the header.
pub open spec fn words_of(bs: Seq<u8>) -> Seq<u64> {
    Seq::new(((bs.len() - 5) / 8) as nat, |k: int| dec_word_at(bs, 5 + 8 * k))
}

/// The serialized form of a document view.
pub open spec fn spec_save(v: DocV) -> Seq<u8> {
    magic_bytes() + bytes_of_words(enc_doc(v))
}

/// The parse of serialized bytes back into a document view: the header
/// must match, the payload must be whole words, and the words must decode.
pub open spec fn spec_load(bs: Seq<u8>) -> Option<DocV> {
    if bs.len() >= 5 && bs.subrange(0, 5) == magic_bytes() && (bs.len() - 5) % 8 == 0 {
        match dec_doc(words_of(bs)) {
            Some((v, c)) => Some(v),
            None => None,
        }
    } else {
        None
    }
}

/// Reading the bytes of encoded words gives the words back.
proof fn lemma_words_roundtrip(ws: Seq<u64>)
    ensures
        words_of(magic_bytes() + bytes_of_words(ws)) == ws,
        bytes_of_words(ws).len() == 8 * ws.len(),
    decreases ws.len(),
{
    lemma_bytes_of_words_len(ws);
    let bs = magic_bytes() + bytes_of_words(ws);
    let got = words_of(bs);
    assert(got.len() == ws.len());
    assert forall|k: int| 0 <= k < ws.len() implies got[k] == ws[k] by {
        lemma_word_at(ws, k);
        assert(bs.subrange(5 + 8 * k, 5 + 8 * k + 8) =~= bytes_of_words(ws).subrange(
            8 * k,
            8 * k + 8,
        ));
        lemma_word_roundtrip(bs, 5 + 8 * k, ws[k]);
    }
    assert(got =~= ws);
}

/// The length of a word sequence's bytes.
proof fn lemma_bytes_of_words_len(ws: Seq<u64>)
    ensures
        bytes_of_words(ws).len() == 8 * ws.len(),
    decreases ws.len(),
{
    if ws.len() > 0 {
        lemma_bytes_of_words_len(ws.drop_first());
    }
}

/// Each word's bytes sit at their offset.
proof fn lemma_word_at(ws: Seq<u64>, k: int)
    requires
        0 <= k < ws.len(),
    ensures
        bytes_of_words(ws).subrange(8 * k, 8 * k + 8) == enc_u64(ws[k]),
    decreases k,
{
    lemma_bytes_of_words_len(ws);
    if k == 0 {
        assert(bytes_of_words(ws).subrange(0, 8) =~= enc_u64(ws[0]));
    } else {
        lemma_word_at(ws.drop_first(), k - 1);
        lemma_bytes_of_words_len(ws.drop_first());
        assert(bytes_of_words(ws).subrange(8 * k, 8 * k + 8) =~= bytes_of_words(
            ws.drop_first(),
        ).subrange(8 * (k - 1), 8 * (k - 1) + 8));
    }
}

/// The round-trip law of the document format: loading what was saved
/// yields the document view back, for every document whose collections
/// fit the format's counters.
pub proof fn lemma_save_load_roundtrip(v: DocV)
    requires
        doc_ok(v),
    ensures
        spec_load(spec_save(v)) == Some(v),
{
    let ws = enc_doc(v);
    let bs = spec_save(v);
    lemma_words_roundtrip(ws);
    assert(bs.subrange(0, 5) =~= magic_bytes());
    assert((bs.len() - 5) % 8 == 0);
    lemma_doc_roundtrip(v, Seq::empty());
    assert(enc_doc(v) + Seq::<u64>::empty() =~= enc_doc(v));
}

// ---------------------------------------------------------------------
// Exec encoders: the serializer provably emits the spec encoding.
// ---------------------------------------------------------------------

/// Appending an element to a list appends its encoding.
pub proof fn lemma_enc_list_snoc<T>(xs: Seq<T>, x: T, f: spec_fn(T) -> Seq<u64>)
    ensures
        enc_list(xs.push(x), f) == enc_list(xs, f) + f(x),
    decreases xs.len(),
{
    let ys = xs.push(x);
    assert(ys.len() == xs.len() + 1);
    assert(ys[0] == if xs.len() == 0 {
        x
    } else {
        xs[0]
    });
    assert(enc_list(ys, f) == f(ys[0]) + enc_list(ys.drop_first(), f));
    if xs.len() == 0 {
        assert(ys.drop_first() =~= Seq::<T>::empty());
        assert(enc_list(ys.drop_first(), f) =~= Seq::<u64>::empty());
        assert(enc_list(ys, f) =~= enc_list(xs, f) + f(x));
    } else {
        assert(ys.drop_first() =~= xs.drop_first().push(x));
        lemma_enc_list_snoc(xs.drop_first(), x, f);
        assert(enc_list(ys, f) =~= enc_list(xs, f) + f(x));
    }
}

/// Appends an optional string.
fn put_opt_str(out: &mut Vec<u64>, o: &Option<String>)
    ensures
        final(out)@ == old(out)@ + enc_opt_str(opt_str_view(*o)),
        opt_str_ok(opt_str_view(*o)),
{
    match o {
        None => {
            out.push(0u64);
        },
        Some(s) => {
            out.push(1u64);
            put_str(out, s.as_str());
        },
    }
    proof {
        assert(out@ =~= old(out)@ + enc_opt_str(opt_str_view(*o)));
    }
}

/// Appends a counted class list.
fn put_strs(out: &mut Vec<u64>, v: &Vec<String>)
    ensures
        final(out)@ == old(out)@ + enc_counted(v.deep_view(), enc_str_f()),
        v.deep_view().len() <= u64::MAX,
        forall|k: int| 0 <= k < v.deep_view().len() ==> str_ok(#[trigger] v.deep_view()[k]),
{
    let n = v.len();
    out.push(n as u64);
    let mut i: usize = 0;
    proof {
        assert(v.deep_view().take(0) =~= Seq::<Seq<char>>::empty());
        assert(out@ =~= old(out)@ + seq![n as u64] + enc_list(
            v.deep_view().take(0),
            enc_str_f(),
        ));
    }
    while i < n
        invariant
            n == v@.len(),
            n == v.deep_view().len(),
            i <= n,
            out@ == old(out)@ + seq![n as u64] + enc_list(v.deep_view().take(i as int), enc_str_f()),
            forall|k: int| 0 <= k < i ==> str_ok(#[trigger] v.deep_view()[k]),
        decreases n - i,
    {
        put_str(out, v[i].as_str());
        proof {
            assert(v.deep_view()[i as int] == v@[i as int]@);
            lemma_enc_list_snoc(v.deep_view().take(i as int), v.deep_view()[i as int], enc_str_f());
            assert(v.deep_view().take(i as int).push(v.deep_view()[i as int]) =~= v.deep_view().take(
                i + 1,
            ));
            assert(out@ =~= old(out)@ + seq![n as u64] + enc_list(
                v.deep_view().take(i + 1),
                enc_str_f(),
            ));
        }
        i = i + 1;
    }
    proof {
        assert(v.deep_view().take(n as int) =~= v.deep_view());
        assert(out@ =~= old(out)@ + enc_counted(v.deep_view(), enc_str_f()));
    }
}

/// Appends a compound selector.
fn put_compound(out: &mut Vec<u64>, c: &CompoundSelector)
    ensures
        final(out)@ == old(out)@ + enc_compound(compound_v(*c)),
        compound_ok(compound_v(*c)),
{
    put_opt_str(out, &c.local_name);
    put_opt_str(out, &c.id);
    put_strs(out, &c.classes);
    proof {
        assert(out@ =~= old(out)@ + enc_compound(compound_v(*c)));
    }
}

/// Appends a complex selector.
fn put_complex(out: &mut Vec<u64>, c: &ComplexSelector)
    ensures
        final(out)@ == old(out)@ + enc_complex(complex_v(*c)),
        complex_ok(complex_v(*c)),
{
    put_compound(out, &c.head);
    let ghost pairs = complex_v(*c).1;
    let n = c.tail.len();
    out.push(n as u64);
    let mut i: usize = 0;
    proof {
        assert(pairs.take(0) =~= Seq::<PairV>::empty());
        assert(out@ =~= old(out)@ + enc_compound(complex_v(*c).0) + seq![n as u64] + enc_list(
            pairs.take(0),
            enc_pair_f(),
        ));
    }
    while i < n
        invariant
            n == c.tail@.len(),
            pairs == complex_v(*c).1,
            pairs.len() == n,
            i <= n,
            out@ == old(out)@ + enc_compound(complex_v(*c).0) + seq![n as u64] + enc_list(
                pairs.take(i as int),
                enc_pair_f(),
            ),
            forall|k: int| 0 <= k < i ==> pair_ok(#[trigger] pairs[k]),
        decreases n - i,
    {
        let comb_word: u64 = match c.tail[i].0 {
            Combinator::Descendant => 0u64,
            Combinator::Child => 1u64,
        };
        out.push(comb_word);
        put_compound(out, &c.tail[i].1);
        proof {
            assert(pairs[i as int] == (c.tail@[i as int].0, compound_v(c.tail@[i as int].1)));
            lemma_enc_list_snoc(pairs.take(i as int), pairs[i as int], enc_pair_f());
            assert(pairs.take(i as int).push(pairs[i as int]) =~= pairs.take(i + 1));
            assert(enc_pair(pairs[i as int]) =~= seq![comb_word] + enc_compound(
                compound_v(c.tail@[i as int].1),
            ));
            assert(out@ =~= old(out)@ + enc_compound(complex_v(*c).0) + seq![n as u64]
                + enc_list(pairs.take(i + 1), enc_pair_f()));
        }
        i = i + 1;
    }
    proof {
        assert(pairs.take(n as int) =~= pairs);
        assert(out@ =~= old(out)@ + enc_complex(complex_v(*c)));
    }
}

/// Appends a style rule.
fn put_rule(out: &mut Vec<u64>, r: &StyleRule)
    ensures
        final(out)@ == old(out)@ + enc_rule(rule_v(*r)),
        rule_ok(rule_v(*r)),
{
    let ghost sels = rule_v(*r).0;
    let n = r.selectors.selectors.len();
    out.push(n as u64);
    let mut i: usize = 0;
    proof {
        assert(sels.take(0) =~= Seq::<ComplexV>::empty());
        assert(out@ =~= old(out)@ + seq![n as u64] + enc_list(sels.take(0), enc_complex_f()));
    }
    while i < n
        invariant
            n == r.selectors.selectors@.len(),
            sels == rule_v(*r).0,
            sels.len() == n,
            i <= n,
            out@ == old(out)@ + seq![n as u64] + enc_list(sels.take(i as int), enc_complex_f()),
            forall|k: int| 0 <= k < i ==> complex_ok(#[trigger] sels[k]),
        decreases n - i,
    {
        put_complex(out, &r.selectors.selectors[i]);
        proof {
            assert(sels[i as int] == complex_v(r.selectors.selectors@[i as int]));
            lemma_enc_list_snoc(sels.take(i as int), sels[i as int], enc_complex_f());
            assert(sels.take(i as int).push(sels[i as int]) =~= sels.take(i + 1));
            assert(out@ =~= old(out)@ + seq![n as u64] + enc_list(
                sels.take(i + 1),
                enc_complex_f(),
            ));
        }
        i = i + 1;
    }
    proof {
        assert(sels.take(n as int) =~= sels);
    }
    let ghost decls = rule_v(*r).1;
    let m = r.properties.len();
    out.push(m as u64);
    let mut j: usize = 0;
    proof {
        assert(decls.take(0) =~= Seq::<Declaration>::empty());
        assert(out@ =~= old(out)@ + enc_counted(sels, enc_complex_f()) + seq![m as u64]
            + enc_list(decls.take(0), enc_decl_f()));
    }
    while j < m
        invariant
            m == r.properties@.len(),
            decls == rule_v(*r).1,
            decls.len() == m,
            j <= m,
            sels == rule_v(*r).0,
            out@ == old(out)@ + enc_counted(sels, enc_complex_f()) + seq![m as u64] + enc_list(
                decls.take(j as int),
                enc_decl_f(),
            ),
        decreases m - j,
    {
        put_decl(out, &r.properties[j]);
        proof {
            lemma_enc_list_snoc(decls.take(j as int), decls[j as int], enc_decl_f());
            assert(decls.take(j as int).push(decls[j as int]) =~= decls.take(j + 1));
            assert(out@ =~= old(out)@ + enc_counted(sels, enc_complex_f()) + seq![m as u64]
                + enc_list(decls.take(j + 1), enc_decl_f()));
        }
        j = j + 1;
    }
    proof {
        assert(decls.take(m as int) =~= decls);
        assert(out@ =~= old(out)@ + enc_rule(rule_v(*r)));
    }
}

/// Appends a whole stylesheet.
fn put_sheet(out: &mut Vec<u64>, s: &StyleSheet)
    ensures
        final(out)@ == old(out)@ + enc_sheet(sheet_v(*s)),
        sheet_ok(sheet_v(*s)),
{
    let ghost rules = sheet_v(*s);
    let n = s.rules.len();
    out.push(n as u64);
    let mut i: usize = 0;
    proof {
        assert(rules.take(0) =~= Seq::<RuleV>::empty());
        assert(out@ =~= old(out)@ + seq![n as u64] + enc_list(rules.take(0), enc_rule_f()));
    }
    while i < n
        invariant
            n == s.rules@.len(),
            rules == sheet_v(*s),
            rules.len() == n,
            i <= n,
            out@ == old(out)@ + seq![n as u64] + enc_list(rules.take(i as int), enc_rule_f()),
            forall|k: int| 0 <= k < i ==> rule_ok(#[trigger] rules[k]),
        decreases n - i,
    {
        put_rule(out, &s.rules[i]);
        proof {
            assert(rules[i as int] == rule_v(s.rules@[i as int]));
            lemma_enc_list_snoc(rules.take(i as int), rules[i as int], enc_rule_f());
            assert(rules.take(i as int).push(rules[i as int]) =~= rules.take(i + 1));
            assert(out@ =~= old(out)@ + seq![n as u64] + enc_list(
                rules.take(i + 1),
                enc_rule_f(),
            ));
        }
        i = i + 1;
    }
    proof {
        assert(rules.take(n as int) =~= rules);
        assert(out@ =~= old(out)@ + enc_sheet(rules));
    }
}

/// Appends one raw attribute.
fn put_attr(out: &mut Vec<u64>, a: &Option<RawAttributeValue>)
    ensures
        final(out)@ == old(out)@ + enc_attr(attr_v(*a)),
        attr_ok(attr_v(*a)),
{
    match a {
        None => {
            out.push(0u64);
        },
        Some(RawAttributeValue::Raw { value, .. }) => {
            out.push(1u64);
            put_str(out, value.as_str());
        },
        Some(RawAttributeValue::Script { script, .. }) => {
            out.push(2u64);
            put_str(out, script.as_str());
        },
    }
    proof {
        assert(out@ =~= old(out)@ + enc_attr(attr_v(*a)));
    }
}

/// Appends one element.
#[verifier::rlimit(100)]
fn put_elem(out: &mut Vec<u64>, e: &Element)
    ensures
        final(out)@ == old(out)@ + enc_elem(elem_v(*e)),
        elem_ok(elem_v(*e)),
{
    match e.data {
        ElementData::Root(..) => out.push(0u64),
        ElementData::Unstyled(..) => out.push(1u64),
    }
    put_attr(out, &e.raw_attributes.class);
    put_attr(out, &e.raw_attributes.id);
    put_attr(out, &e.raw_attributes.style);
    put_strs(out, &e.classes);
    put_opt_str(out, &e.id);
    let ghost rules = elem_v(*e).4;
    let n = e.style.len();
    out.push(n as u64);
    let ghost prefix = old(out)@ + enc_eldata(elem_v(*e).0) + enc_attr(attr_v(
        e.raw_attributes.class,
    )) + enc_attr(attr_v(e.raw_attributes.id)) + enc_attr(attr_v(e.raw_attributes.style))
        + enc_counted(e.classes.deep_view(), enc_str_f()) + enc_opt_str(opt_str_view(e.id));
    let mut i: usize = 0;
    proof {
        assert(rules.take(0) =~= Seq::<RuleV>::empty());
        assert(out@ =~= prefix + seq![n as u64] + enc_list(rules.take(0), enc_rule_f()));
    }
    while i < n
        invariant
            n == e.style@.len(),
            rules == elem_v(*e).4,
            rules.len() == n,
            i <= n,
            out@ == prefix + seq![n as u64] + enc_list(rules.take(i as int), enc_rule_f()),
            forall|k: int| 0 <= k < i ==> rule_ok(#[trigger] rules[k]),
        decreases n - i,
    {
        put_rule(out, &e.style[i]);
        proof {
            assert(rules[i as int] == rule_v(e.style@[i as int]));
            lemma_enc_list_snoc(rules.take(i as int), rules[i as int], enc_rule_f());
            assert(rules.take(i as int).push(rules[i as int]) =~= rules.take(i + 1));
            assert(out@ =~= prefix + seq![n as u64] + enc_list(rules.take(i + 1), enc_rule_f()));
        }
        i = i + 1;
    }
    proof {
        assert(rules.take(n as int) =~= rules);
        assert(out@ =~= old(out)@ + enc_elem(elem_v(*e)));
    }
}

/// Appends one link.
fn put_link(out: &mut Vec<u64>, l: &Option<Node>)
    ensures
        final(out)@ == old(out)@ + enc_link(*l),
{
    match l {
        None => {
            out.push(0u64);
            out.push(0u64);
        },
        Some(n) => {
            out.push(1u64);
            out.push(n.index as u64);
        },
    }
    proof {
        assert(out@ =~= old(out)@ + enc_link(*l));
    }
}

/// Appends one node record.
fn put_rec(out: &mut Vec<u64>, r: &NodeInner<Element>)
    ensures
        final(out)@ == old(out)@ + enc_rec(rec_v(*r)),
        rec_ok(rec_v(*r)),
{
    put_link(out, &r.parent);
    put_link(out, &r.previous_sibling);
    put_link(out, &r.next_sibling);
    put_link(out, &r.first_child);
    put_link(out, &r.last_child);
    put_elem(out, &r.data);
    proof {
        assert(enc_links(rec_v(*r).0) =~= enc_link(r.parent) + enc_link(r.previous_sibling)
            + enc_link(r.next_sibling) + enc_link(r.first_child) + enc_link(r.last_child));
        assert(out@ =~= old(out)@ + enc_rec(rec_v(*r)));
    }
}

// ---------------------------------------------------------------------
// Serialization of whole documents.
// ---------------------------------------------------------------------

/// The persistent view of a whole document.
pub open spec fn doc_view(d: crate::document::CompiledDocument) -> DocV {
    (tree_v(d.tree@), sheet_v(d.stylesheet))
}

/// Appending a word appends its bytes.
proof fn lemma_bytes_of_words_snoc(ws: Seq<u64>, w: u64)
    ensures
        bytes_of_words(ws.push(w)) == bytes_of_words(ws) + enc_u64(w),
    decreases ws.len(),
{
    let ys = ws.push(w);
    assert(ys[0] == if ws.len() == 0 {
        w
    } else {
        ws[0]
    });
    assert(bytes_of_words(ys) == enc_u64(ys[0]) + bytes_of_words(ys.drop_first()));
    if ws.len() == 0 {
        assert(ys.drop_first() =~= Seq::<u64>::empty());
        assert(bytes_of_words(ys.drop_first()) =~= Seq::<u8>::empty());
        assert(bytes_of_words(ys) =~= bytes_of_words(ws) + enc_u64(w));
    } else {
        assert(ys.drop_first() =~= ws.drop_first().push(w));
        lemma_bytes_of_words_snoc(ws.drop_first(), w);
        assert(bytes_of_words(ys) =~= bytes_of_words(ws) + enc_u64(w));
    }
}

impl crate::document::CompiledDocument {
    /// Serializes this document: the five-byte header, then the encoded
    /// tree and stylesheet. Transient state is not persisted.
    #[verifier::rlimit(100)]
    #[verifier::spinoff_prover]
    pub fn save(&self) -> (r: Vec<u8>)
        requires
            self.well_formed(),
        ensures
            r@ == spec_save(doc_view(*self)),
            doc_ok(doc_view(*self)),
    {
        let ghost recs = tree_v(self.tree@);
        let mut words: Vec<u64> = Vec::new();
        let n = self.tree.len();
        words.push(n as u64);
        let mut i: usize = 0;
        proof {
            assert(recs.take(0) =~= Seq::<RecV>::empty());
            assert(words@ =~= seq![n as u64] + enc_list(recs.take(0), enc_rec_f()));
        }
        while i < n
            invariant
                self.well_formed(),
                n == self.tree@.len(),
                recs == tree_v(self.tree@),
                recs.len() == n,
                i <= n,
                words@ == seq![n as u64] + enc_list(recs.take(i as int), enc_rec_f()),
                forall|k: int| 0 <= k < i ==> rec_ok(#[trigger] recs[k]),
            decreases n - i,
        {
            let node = crate::tree::Node { index: i };
            put_rec(&mut words, node.inner(&self.tree));
            proof {
                assert(recs[i as int] == rec_v(self.tree@[i as int]));
                lemma_enc_list_snoc(recs.take(i as int), recs[i as int], enc_rec_f());
                assert(recs.take(i as int).push(recs[i as int]) =~= recs.take(i + 1));
                assert(words@ =~= seq![n as u64] + enc_list(recs.take(i + 1), enc_rec_f()));
            }
            i = i + 1;
        }
        proof {
            assert(recs.take(n as int) =~= recs);
        }
        put_sheet(&mut words, &self.stylesheet);
        proof {
            assert(words@ =~= enc_doc(doc_view(*self)));
        }
        // The byte layer: header, then each word little-endian.
        let mut bytes: Vec<u8> = Vec::new();
        bytes.push(0x46u8);
        bytes.push(0x55u8);
        bytes.push(0x69u8);
        bytes.push(0x53u8);
        bytes.push(0u8);
        proof {
            assert(bytes@ =~= magic_bytes());
            assert(words@.take(0) =~= Seq::<u64>::empty());
            assert(bytes@ =~= magic_bytes() + bytes_of_words(words@.take(0)));
        }
        let m = words.len();
        let mut j: usize = 0;
        while j < m
            invariant
                m == words@.len(),
                j <= m,
                words@ == enc_doc(doc_view(*self)),
                bytes@ == magic_bytes() + bytes_of_words(words@.take(j as int)),
            decreases m - j,
        {
            put_u64(&mut bytes, words[j]);
            proof {
                lemma_bytes_of_words_snoc(words@.take(j as int), words@[j as int]);
                assert(words@.take(j as int).push(words@[j as int]) =~= words@.take(j + 1));
                assert(bytes@ =~= magic_bytes() + bytes_of_words(words@.take(j + 1)));
            }
            j = j + 1;
        }
        proof {
            assert(words@.take(m as int) =~= words@);
        }
        bytes
    }
}

/// Why a load failed.
#[derive(Clone, Copy, PartialEq, Eq, Structural, Debug)]
pub enum LoadError {
    /// The five-byte header did not match the format's magic and version.
    BadMagic,
    /// The payload did not decode to a well-formed document.
    Malformed,
}

/// Reads an optional string; realizes [`dec_opt_str`] whenever it
/// succeeds.
fn get_opt_str(words: &Vec<u64>, pos: &mut usize) -> (r: Option<Option<String>>)
    requires
        *old(pos) <= words@.len(),
    ensures
        *old(pos) <= *final(pos) <= words@.len(),
        dec_opt_str(words@.skip(*old(pos) as int)) matches Some(p) ==> r matches Some(y)
            && opt_str_view(y) == p.0 && *final(pos) == *old(pos) + p.1,
{
    let ghost ws = words@.skip(*old(pos) as int);
    if words.len() - *pos < 1 {
        return None;
    }
    let tag = words[*pos];
    proof {
        assert(ws[0] == words@[*old(pos) as int]);
    }
    *pos = *pos + 1;
    if tag == 0 {
        Some(None)
    } else if tag == 1 {
        proof {
            assert(ws.drop_first() =~= words@.skip(*pos as int));
        }
        match get_str(words, pos) {
            Some(s) => Some(Some(s)),
            None => {
                proof {
                    if dec_opt_str(ws) is Some {
                        assert(dec_str(ws.drop_first()) is Some);
                    }
                }
                None
            },
        }
    } else {
        None
    }
}

/// Reads a counted class list; realizes [`dec_counted`] over strings
/// whenever it succeeds.
#[verifier::rlimit(100)]
#[verifier::spinoff_prover]
fn get_strs(words: &Vec<u64>, pos: &mut usize) -> (r: Option<Vec<String>>)
    requires
        *old(pos) <= words@.len(),
    ensures
        *old(pos) <= *final(pos) <= words@.len(),
        dec_counted(words@.skip(*old(pos) as int), dec_str_f()) matches Some(p) ==> r matches Some(
            v,
        ) && v.deep_view() == p.0 && *final(pos) == *old(pos) + p.1,
{
    let ghost pos0 = *old(pos);
    let ghost ws = words@.skip(pos0 as int);
    if words.len() - *pos < 1 {
        return None;
    }
    let count = words[*pos];
    proof {
        assert(ws[0] == words@[pos0 as int]);
    }
    *pos = *pos + 1;
    let ghost tail0 = ws.drop_first();
    let ghost dl = dec_list(tail0, count as nat, dec_str_f());
    proof {
        assert(tail0 =~= words@.skip(pos0 + 1));
    }
    let mut out: Vec<String> = Vec::new();
    let mut i: u64 = 0;
    proof {
        match dl {
            Some(p) => {
                lemma_dec_list_shape(tail0, count as nat, dec_str_f());
            },
            None => {},
        }
    }
    while i < count
        invariant
            i <= count,
            pos0 == *old(pos),
            pos0 + 1 <= *pos <= words@.len(),
            ws == words@.skip(pos0 as int),
            ws.len() >= 1,
            ws[0] == count,
            tail0 == ws.drop_first(),
            dl == dec_list(tail0, count as nat, dec_str_f()),
            out@.len() == i,
            match dl {
                Some(p) => {
                    &&& p.0.len() == count
                    &&& out.deep_view() == p.0.take(i as int)
                    &&& dec_list(words@.skip(*pos as int), (count - i) as nat, dec_str_f())
                        == Some((p.0.skip(i as int), p.1 - (*pos - (pos0 + 1))))
                },
                None => true,
            },
        decreases count - i,
    {
        let ghost cur = words@.skip(*pos as int);
        proof {
            assert(dec_str_f()(cur) == dec_str(cur));
            match dl {
                Some(p) => {
                    lemma_dec_list_step(
                        cur,
                        (count - i) as nat,
                        dec_str_f(),
                        p.0.skip(i as int),
                        p.1 - (*pos - (pos0 + 1)),
                    );
                },
                None => {},
            }
        }
        let before = *pos;
        match get_str(words, pos) {
            Some(sv) => {
                let ghost pre = out.deep_view();
                out.push(sv);
                proof {
                    match dl {
                        Some(p) => {
                            match dec_str(cur) {
                                Some(q) => {
                                    assert(p.0.skip(i as int)[0] == p.0[i as int]);
                                    assert(sv@ == p.0[i as int]);
                                    assert(out.deep_view() =~= pre.push(sv@));
                                    assert(p.0.take(i as int).push(p.0[i as int]) =~= p.0.take(
                                        i + 1,
                                    ));
                                    assert(p.0.skip(i as int).drop_first() =~= p.0.skip(i + 1));
                                    assert(cur.skip(q.1) =~= words@.skip(before + q.1));
                                },
                                None => {
                                    assert(false);
                                },
                            }
                        },
                        None => {},
                    }
                }
                i = i + 1;
            },
            None => {
                proof {
                    match dl {
                        Some(p) => {
                            assert(false);
                        },
                        None => {},
                    }
                }
                return None;
            },
        }
    }
    proof {
        match dl {
            Some(p) => {
                assert(dec_list(words@.skip(*pos as int), 0nat, dec_str_f()) == Some(
                    (p.0.skip(count as int), p.1 - (*pos - (pos0 + 1))),
                ));
                assert(p.1 == *pos - (pos0 + 1));
                assert(p.0.take(count as int) =~= p.0);
            },
            None => {},
        }
    }
    Some(out)
}

/// Reads a compound selector; realizes [`dec_compound`] whenever it
/// succeeds.
#[verifier::rlimit(100)]
#[verifier::spinoff_prover]
fn get_compound(words: &Vec<u64>, pos: &mut usize) -> (r: Option<CompoundSelector>)
    requires
        *old(pos) <= words@.len(),
    ensures
        *old(pos) <= *final(pos) <= words@.len(),
        dec_compound(words@.skip(*old(pos) as int)) matches Some(p) ==> r matches Some(y)
            && compound_v(y) == p.0 && *final(pos) == *old(pos) + p.1,
{
    let ghost pos0 = *old(pos);
    let ghost ws = words@.skip(pos0 as int);
    let ghost dc = dec_compound(ws);
    let local_name = match get_opt_str(words, pos) {
        Some(v) => v,
        None => {
            proof {
                if dc is Some {
                    assert(false);
                }
            }
            return None;
        },
    };
    proof {
        match dc {
            Some(p) => {
                match dec_opt_str(ws) {
                    Some(q1) => {
                        assert(ws.skip(q1.1) =~= words@.skip(*pos as int));
                    },
                    None => {
                        assert(false);
                    },
                }
            },
            None => {},
        }
    }
    let id = match get_opt_str(words, pos) {
        Some(v) => v,
        None => {
            proof {
                if dc is Some {
                    assert(false);
                }
            }
            return None;
        },
    };
    proof {
        match dc {
            Some(p) => {
                match dec_opt_str(ws) {
                    Some(q1) => {
                        match dec_opt_str(ws.skip(q1.1)) {
                            Some(q2) => {
                                assert(ws.skip(q1.1 + q2.1) =~= words@.skip(*pos as int));
                            },
                            None => {
                                assert(false);
                            },
                        }
                    },
                    None => {
                        assert(false);
                    },
                }
            },
            None => {},
        }
    }
    let classes = match get_strs(words, pos) {
        Some(v) => v,
        None => {
            proof {
                if dc is Some {
                    assert(false);
                }
            }
            return None;
        },
    };
    Some(CompoundSelector { local_name, id, classes })
}

/// Reads one combinator/compound pair; realizes [`dec_pair`] whenever it
/// succeeds.
#[verifier::rlimit(100)]
#[verifier::spinoff_prover]
fn get_pair(words: &Vec<u64>, pos: &mut usize) -> (r: Option<(Combinator, CompoundSelector)>)
    requires
        *old(pos) <= words@.len(),
    ensures
        *old(pos) <= *final(pos) <= words@.len(),
        dec_pair(words@.skip(*old(pos) as int)) matches Some(p) ==> r matches Some(y) && (
        y.0,
        compound_v(y.1),
        ) == p.0 && *final(pos) == *old(pos) + p.1,
{
    let ghost pos0 = *old(pos);
    let ghost ws = words@.skip(pos0 as int);
    if words.len() - *pos < 1 {
        return None;
    }
    let cw = words[*pos];
    proof {
        assert(ws[0] == words@[pos0 as int]);
    }
    *pos = *pos + 1;
    let comb = if cw == 0 {
        Combinator::Descendant
    } else if cw == 1 {
        Combinator::Child
    } else {
        return None;
    };
    proof {
        assert(ws.drop_first() =~= words@.skip(*pos as int));
    }
    let c = match get_compound(words, pos) {
        Some(c) => c,
        None => {
            proof {
                if dec_pair(ws) is Some {
                    assert(false);
                }
            }
            return None;
        },
    };
    Some((comb, c))
}

/// Reads a complex selector; realizes [`dec_complex`] whenever it
/// succeeds.
#[verifier::rlimit(100)]
#[verifier::spinoff_prover]
fn get_complex(words: &Vec<u64>, pos: &mut usize) -> (r: Option<ComplexSelector>)
    requires
        *old(pos) <= words@.len(),
    ensures
        *old(pos) <= *final(pos) <= words@.len(),
        dec_complex(words@.skip(*old(pos) as int)) matches Some(p) ==> r matches Some(y)
            && complex_v(y) == p.0 && *final(pos) == *old(pos) + p.1,
{
    let ghost pos0 = *old(pos);
    let ghost ws = words@.skip(pos0 as int);
    let ghost dc = dec_complex(ws);
    let head = match get_compound(words, pos) {
        Some(v) => v,
        None => {
            proof {
                if dc is Some {
                    assert(false);
                }
            }
            return None;
        },
    };
    let ghost c1 = *pos - pos0;
    let ghost wsc = words@.skip(*pos as int);
    let ghost dcc = dec_counted(wsc, dec_pair_f());
    proof {
        match dc {
            Some(p) => {
                match dec_compound(ws) {
                    Some(q1) => {
                        assert(ws.skip(q1.1) =~= wsc);
                        assert(dcc is Some);
                    },
                    None => {
                        assert(false);
                    },
                }
            },
            None => {},
        }
    }
    let ghost posc = *pos;
    if words.len() - *pos < 1 {
        proof {
            if dc is Some {
                assert(false);
            }
        }
        return None;
    }
    let count = words[*pos];
    proof {
        assert(wsc[0] == words@[posc as int]);
    }
    *pos = *pos + 1;
    let ghost tail0 = wsc.drop_first();
    let ghost dl = dec_list(tail0, count as nat, dec_pair_f());
    proof {
        assert(tail0 =~= words@.skip(posc + 1));
    }
    let mut tail: Vec<(Combinator, CompoundSelector)> = Vec::new();
    let mut i: u64 = 0;
    proof {
        match dl {
            Some(p) => {
                lemma_dec_list_shape(tail0, count as nat, dec_pair_f());
            },
            None => {},
        }
    }
    while i < count
        invariant
            i <= count,
            pos0 == *old(pos),
            posc + 1 <= *pos <= words@.len(),
            pos0 <= posc,
            ws == words@.skip(pos0 as int),
            dc == dec_complex(ws),
            wsc == words@.skip(posc as int),
            wsc.len() >= 1,
            wsc[0] == count,
            tail0 == wsc.drop_first(),
            dcc == dec_counted(wsc, dec_pair_f()),
            dl == dec_list(tail0, count as nat, dec_pair_f()),
            match dc {
                Some(p) => dcc matches Some(pc) && p.0.0 == compound_v(head) && p.0.1 == pc.0
                    && p.1 == (posc - pos0) + pc.1,
                None => true,
            },
            match dcc {
                Some(pc) => dl matches Some(pl) && pc.0 == pl.0 && pc.1 == 1 + pl.1,
                None => true,
            },
            tail@.len() == i,
            match dl {
                Some(p) => {
                    &&& p.0.len() == count
                    &&& tail@.map_values(
                        |q: (Combinator, CompoundSelector)| (q.0, compound_v(q.1)),
                    ) == p.0.take(i as int)
                    &&& dec_list(words@.skip(*pos as int), (count - i) as nat, dec_pair_f())
                        == Some((p.0.skip(i as int), p.1 - (*pos - (posc + 1))))
                },
                None => true,
            },
        decreases count - i,
    {
        let ghost cur = words@.skip(*pos as int);
        proof {
            assert(dec_pair_f()(cur) == dec_pair(cur));
            match dl {
                Some(p) => {
                    lemma_dec_list_step(
                        cur,
                        (count - i) as nat,
                        dec_pair_f(),
                        p.0.skip(i as int),
                        p.1 - (*pos - (posc + 1)),
                    );
                },
                None => {},
            }
        }
        let before = *pos;
        match get_pair(words, pos) {
            Some(pv) => {
                let ghost pre = tail@.map_values(
                    |q: (Combinator, CompoundSelector)| (q.0, compound_v(q.1)),
                );
                tail.push(pv);
                proof {
                    match dl {
                        Some(p) => {
                            match dec_pair(cur) {
                                Some(q) => {
                                    assert(p.0.skip(i as int)[0] == p.0[i as int]);
                                    assert((pv.0, compound_v(pv.1)) == p.0[i as int]);
                                    assert(tail@.map_values(
                                        |q2: (Combinator, CompoundSelector)| (
                                            q2.0,
                                            compound_v(q2.1),
                                        ),
                                    ) =~= pre.push((pv.0, compound_v(pv.1))));
                                    assert(p.0.take(i as int).push(p.0[i as int]) =~= p.0.take(
                                        i + 1,
                                    ));
                                    assert(p.0.skip(i as int).drop_first() =~= p.0.skip(i + 1));
                                    assert(cur.skip(q.1) =~= words@.skip(before + q.1));
                                },
                                None => {
                                    assert(false);
                                },
                            }
                        },
                        None => {},
                    }
                }
                i = i + 1;
            },
            None => {
                proof {
                    match dl {
                        Some(p) => {
                            assert(false);
                        },
                        None => {},
                    }
                }
                return None;
            },
        }
    }
    proof {
        match dl {
            Some(p) => {
                assert(dec_list(words@.skip(*pos as int), 0nat, dec_pair_f()) == Some(
                    (p.0.skip(count as int), p.1 - (*pos - (posc + 1))),
                ));
                assert(p.1 == *pos - (posc + 1));
                assert(p.0.take(count as int) =~= p.0);
            },
            None => {},
        }
    }
    Some(ComplexSelector { head, tail })
}

/// Reads a counted list of complex selectors; realizes [`dec_counted`]
/// over [`dec_complex`] whenever it succeeds.
#[verifier::rlimit(100)]
#[verifier::spinoff_prover]
fn get_complexes(words: &Vec<u64>, pos: &mut usize) -> (r: Option<Vec<ComplexSelector>>)
    requires
        *old(pos) <= words@.len(),
    ensures
        *old(pos) <= *final(pos) <= words@.len(),
        dec_counted(words@.skip(*old(pos) as int), dec_complex_f()) matches Some(p) ==> r matches Some(
            v,
        ) && v@.map_values(|c: ComplexSelector| complex_v(c)) == p.0 && *final(pos) == *old(pos)
            + p.1,
{
    let ghost pos0 = *old(pos);
    let ghost ws = words@.skip(pos0 as int);
    if words.len() - *pos < 1 {
        return None;
    }
    let count = words[*pos];
    proof {
        assert(ws[0] == words@[pos0 as int]);
    }
    *pos = *pos + 1;
    let ghost tail0 = ws.drop_first();
    let ghost dl = dec_list(tail0, count as nat, dec_complex_f());
    proof {
        assert(tail0 =~= words@.skip(pos0 + 1));
        match dl {
            Some(p) => {
                lemma_dec_list_shape(tail0, count as nat, dec_complex_f());
            },
            None => {},
        }
    }
    let mut out: Vec<ComplexSelector> = Vec::new();
    let mut i: u64 = 0;
    while i < count
        invariant
            i <= count,
            pos0 == *old(pos),
            pos0 + 1 <= *pos <= words@.len(),
            ws == words@.skip(pos0 as int),
            ws.len() >= 1,
            ws[0] == count,
            tail0 == ws.drop_first(),
            dl == dec_list(tail0, count as nat, dec_complex_f()),
            out@.len() == i,
            match dl {
                Some(p) => {
                    &&& p.0.len() == count
                    &&& out@.map_values(|c: ComplexSelector| complex_v(c)) == p.0.take(i as int)
                    &&& dec_list(words@.skip(*pos as int), (count - i) as nat, dec_complex_f())
                        == Some((p.0.skip(i as int), p.1 - (*pos - (pos0 + 1))))
                },
                None => true,
            },
        decreases count - i,
    {
        let ghost cur = words@.skip(*pos as int);
        proof {
            assert(dec_complex_f()(cur) == dec_complex(cur));
            match dl {
                Some(p) => {
                    lemma_dec_list_step(
                        cur,
                        (count - i) as nat,
                        dec_complex_f(),
                        p.0.skip(i as int),
                        p.1 - (*pos - (pos0 + 1)),
                    );
                },
                None => {},
            }
        }
        let before = *pos;
        match get_complex(words, pos) {
            Some(cv) => {
                let ghost pre = out@.map_values(|c: ComplexSelector| complex_v(c));
                out.push(cv);
                proof {
                    match dl {
                        Some(p) => {
                            match dec_complex(cur) {
                                Some(q) => {
                                    assert(p.0.skip(i as int)[0] == p.0[i as int]);
                                    assert(complex_v(cv) == p.0[i as int]);
                                    assert(out@.map_values(|c: ComplexSelector| complex_v(c))
                                        =~= pre.push(complex_v(cv)));
                                    assert(p.0.take(i as int).push(p.0[i as int]) =~= p.0.take(
                                        i + 1,
                                    ));
                                    assert(p.0.skip(i as int).drop_first() =~= p.0.skip(i + 1));
                                    assert(cur.skip(q.1) =~= words@.skip(before + q.1));
                                },
                                None => {
                                    assert(false);
                                },
                            }
                        },
                        None => {},
                    }
                }
                i = i + 1;
            },
            None => {
                proof {
                    match dl {
                        Some(p) => {
                            assert(false);
                        },
                        None => {},
                    }
                }
                return None;
            },
        }
    }
    proof {
        match dl {
            Some(p) => {
                assert(dec_list(words@.skip(*pos as int), 0nat, dec_complex_f()) == Some(
                    (p.0.skip(count as int), p.1 - (*pos - (pos0 + 1))),
                ));
                assert(p.1 == *pos - (pos0 + 1));
                assert(p.0.take(count as int) =~= p.0);
            },
            None => {},
        }
    }
    Some(out)
}

/// Reads a counted list of declarations; realizes [`dec_counted`] over
/// [`dec_decl`] whenever it succeeds.
#[verifier::rlimit(100)]
#[verifier::spinoff_prover]
fn get_decls(words: &Vec<u64>, pos: &mut usize) -> (r: Option<Vec<Declaration>>)
    requires
        *old(pos) <= words@.len(),
    ensures
        *old(pos) <= *final(pos) <= words@.len(),
        dec_counted(words@.skip(*old(pos) as int), dec_decl_f()) matches Some(p) ==> r matches Some(
            v,
        ) && v@ == p.0 && *final(pos) == *old(pos) + p.1,
{
    let ghost pos0 = *old(pos);
    let ghost ws = words@.skip(pos0 as int);
    if words.len() - *pos < 1 {
        return None;
    }
    let count = words[*pos];
    proof {
        assert(ws[0] == words@[pos0 as int]);
    }
    *pos = *pos + 1;
    let ghost tail0 = ws.drop_first();
    let ghost dl = dec_list(tail0, count as nat, dec_decl_f());
    proof {
        assert(tail0 =~= words@.skip(pos0 + 1));
        match dl {
            Some(p) => {
                lemma_dec_list_shape(tail0, count as nat, dec_decl_f());
            },
            None => {},
        }
    }
    let mut out: Vec<Declaration> = Vec::new();
    let mut i: u64 = 0;
    while i < count
        invariant
            i <= count,
            pos0 == *old(pos),
            pos0 + 1 <= *pos <= words@.len(),
            ws == words@.skip(pos0 as int),
            ws.len() >= 1,
            ws[0] == count,
            tail0 == ws.drop_first(),
            dl == dec_list(tail0, count as nat, dec_decl_f()),
            out@.len() == i,
            match dl {
                Some(p) => {
                    &&& p.0.len() == count
                    &&& out@ == p.0.take(i as int)
                    &&& dec_list(words@.skip(*pos as int), (count - i) as nat, dec_decl_f())
                        == Some((p.0.skip(i as int), p.1 - (*pos - (pos0 + 1))))
                },
                None => true,
            },
        decreases count - i,
    {
        let ghost cur = words@.skip(*pos as int);
        proof {
            assert(dec_decl_f()(cur) == dec_decl(cur));
            match dl {
                Some(p) => {
                    lemma_dec_list_step(
                        cur,
                        (count - i) as nat,
                        dec_decl_f(),
                        p.0.skip(i as int),
                        p.1 - (*pos - (pos0 + 1)),
                    );
                },
                None => {},
            }
        }
        let before = *pos;
        match get_decl(words, pos) {
            Some(dv) => {
                let ghost pre = out@;
                out.push(dv);
                proof {
                    match dl {
                        Some(p) => {
                            match dec_decl(cur) {
                                Some(q) => {
                                    assert(p.0.skip(i as int)[0] == p.0[i as int]);
                                    assert(out@ =~= pre.push(dv));
                                    assert(p.0.take(i as int).push(p.0[i as int]) =~= p.0.take(
                                        i + 1,
                                    ));
                                    assert(p.0.skip(i as int).drop_first() =~= p.0.skip(i + 1));
                                    assert(cur.skip(q.1) =~= words@.skip(before + q.1));
                                },
                                None => {
                                    assert(false);
                                },
                            }
                        },
                        None => {},
                    }
                }
                i = i + 1;
            },
            None => {
                proof {
                    match dl {
                        Some(p) => {
                            assert(false);
                        },
                        None => {},
                    }
                }
                return None;
            },
        }
    }
    proof {
        match dl {
            Some(p) => {
                assert(dec_list(words@.skip(*pos as int), 0nat, dec_decl_f()) == Some(
                    (p.0.skip(count as int), p.1 - (*pos - (pos0 + 1))),
                ));
                assert(p.1 == *pos - (pos0 + 1));
                assert(p.0.take(count as int) =~= p.0);
            },
            None => {},
        }
    }
    Some(out)
}

/// Reads a style rule; realizes [`dec_rule`] whenever it succeeds.
#[verifier::rlimit(100)]
#[verifier::spinoff_prover]
fn get_rule(words: &Vec<u64>, pos: &mut usize) -> (r: Option<StyleRule>)
    requires
        *old(pos) <= words@.len(),
    ensures
        *old(pos) <= *final(pos) <= words@.len(),
        dec_rule(words@.skip(*old(pos) as int)) matches Some(p) ==> r matches Some(y) && rule_v(y)
            == p.0 && *final(pos) == *old(pos) + p.1,
{
    let ghost pos0 = *old(pos);
    let ghost ws = words@.skip(pos0 as int);
    let ghost dr = dec_rule(ws);
    let selectors = match get_complexes(words, pos) {
        Some(v) => v,
        None => {
            proof {
                if dr is Some {
                    assert(false);
                }
            }
            return None;
        },
    };
    proof {
        match dr {
            Some(p) => {
                match dec_counted(ws, dec_complex_f()) {
                    Some(q1) => {
                        assert(ws.skip(q1.1) =~= words@.skip(*pos as int));
                    },
                    None => {
                        assert(false);
                    },
                }
            },
            None => {},
        }
    }
    let properties = match get_decls(words, pos) {
        Some(v) => v,
        None => {
            proof {
                if dr is Some {
                    assert(false);
                }
            }
            return None;
        },
    };
    Some(StyleRule { selectors: SelectorList { selectors }, properties })
}

/// Reads a whole stylesheet; realizes [`dec_sheet`] whenever it succeeds.
#[verifier::rlimit(100)]
#[verifier::spinoff_prover]
fn get_sheet(words: &Vec<u64>, pos: &mut usize) -> (r: Option<StyleSheet>)
    requires
        *old(pos) <= words@.len(),
    ensures
        *old(pos) <= *final(pos) <= words@.len(),
        dec_sheet(words@.skip(*old(pos) as int)) matches Some(p) ==> r matches Some(y) && sheet_v(
            y,
        ) == p.0 && *final(pos) == *old(pos) + p.1,
{
    let ghost pos0 = *old(pos);
    let ghost ws = words@.skip(pos0 as int);
    if words.len() - *pos < 1 {
        return None;
    }
    let count = words[*pos];
    proof {
        assert(ws[0] == words@[pos0 as int]);
    }
    *pos = *pos + 1;
    let ghost tail0 = ws.drop_first();
    let ghost dl = dec_list(tail0, count as nat, dec_rule_f());
    proof {
        assert(tail0 =~= words@.skip(pos0 + 1));
        match dl {
            Some(p) => {
                lemma_dec_list_shape(tail0, count as nat, dec_rule_f());
            },
            None => {},
        }
    }
    let mut rules: Vec<StyleRule> = Vec::new();
    let mut i: u64 = 0;
    while i < count
        invariant
            i <= count,
            pos0 == *old(pos),
            pos0 + 1 <= *pos <= words@.len(),
            ws == words@.skip(pos0 as int),
            ws.len() >= 1,
            ws[0] == count,
            tail0 == ws.drop_first(),
            dl == dec_list(tail0, count as nat, dec_rule_f()),
            rules@.len() == i,
            match dl {
                Some(p) => {
                    &&& p.0.len() == count
                    &&& rules@.map_values(|x: StyleRule| rule_v(x)) == p.0.take(i as int)
                    &&& dec_list(words@.skip(*pos as int), (count - i) as nat, dec_rule_f())
                        == Some((p.0.skip(i as int), p.1 - (*pos - (pos0 + 1))))
                },
                None => true,
            },
        decreases count - i,
    {
        let ghost cur = words@.skip(*pos as int);
        proof {
            assert(dec_rule_f()(cur) == dec_rule(cur));
            match dl {
                Some(p) => {
                    lemma_dec_list_step(
                        cur,
                        (count - i) as nat,
                        dec_rule_f(),
                        p.0.skip(i as int),
                        p.1 - (*pos - (pos0 + 1)),
                    );
                },
                None => {},
            }
        }
        let before = *pos;
        match get_rule(words, pos) {
            Some(rv) => {
                let ghost pre = rules@.map_values(|x: StyleRule| rule_v(x));
                rules.push(rv);
                proof {
                    match dl {
                        Some(p) => {
                            match dec_rule(cur) {
                                Some(q) => {
                                    assert(p.0.skip(i as int)[0] == p.0[i as int]);
                                    assert(rule_v(rv) == p.0[i as int]);
                                    assert(rules@.map_values(|x: StyleRule| rule_v(x)) =~= pre.push(
                                        rule_v(rv),
                                    ));
                                    assert(p.0.take(i as int).push(p.0[i as int]) =~= p.0.take(
                                        i + 1,
                                    ));
                                    assert(p.0.skip(i as int).drop_first() =~= p.0.skip(i + 1));
                                    assert(cur.skip(q.1) =~= words@.skip(before + q.1));
                                },
                                None => {
                                    assert(false);
                                },
                            }
                        },
                        None => {},
                    }
                }
                i = i + 1;
            },
            None => {
                proof {
                    match dl {
                        Some(p) => {
                            assert(false);
                        },
                        None => {},
                    }
                }
                return None;
            },
        }
    }
    proof {
        match dl {
            Some(p) => {
                assert(dec_list(words@.skip(*pos as int), 0nat, dec_rule_f()) == Some(
                    (p.0.skip(count as int), p.1 - (*pos - (pos0 + 1))),
                ));
                assert(p.1 == *pos - (pos0 + 1));
                assert(p.0.take(count as int) =~= p.0);
            },
            None => {},
        }
    }
    Some(StyleSheet { rules })
}

/// Reads one raw attribute; realizes [`dec_attr`] whenever it succeeds,
/// with the staleness flag fresh.
fn get_attr(words: &Vec<u64>, pos: &mut usize) -> (r: Option<Option<RawAttributeValue>>)
    requires
        *old(pos) <= words@.len(),
    ensures
        *old(pos) <= *final(pos) <= words@.len(),
        dec_attr(words@.skip(*old(pos) as int)) matches Some(p) ==> r matches Some(y) && attr_v(y)
            == p.0 && *final(pos) == *old(pos) + p.1,
{
    let ghost ws = words@.skip(*old(pos) as int);
    if words.len() - *pos < 1 {
        return None;
    }
    let tag = words[*pos];
    proof {
        assert(ws[0] == words@[*old(pos) as int]);
    }
    *pos = *pos + 1;
    if tag == 0 {
        return Some(None);
    }
    if tag != 1 && tag != 2 {
        return None;
    }
    proof {
        assert(ws.drop_first() =~= words@.skip(*pos as int));
    }
    let text = match get_str(words, pos) {
        Some(s) => s,
        None => {
            proof {
                if dec_attr(ws) is Some {
                    assert(dec_str(ws.drop_first()) is Some);
                }
            }
            return None;
        },
    };
    if tag == 1 {
        Some(Some(RawAttributeValue::Raw { value: text, up_to_date: false }))
    } else {
        Some(Some(RawAttributeValue::Script { script: text, up_to_date: false }))
    }
}

/// Reads one element; realizes [`dec_elem`] whenever it succeeds, with
/// transient state fresh.
#[verifier::rlimit(100)]
#[verifier::spinoff_prover]
fn get_elem(words: &Vec<u64>, pos: &mut usize) -> (r: Option<Element>)
    requires
        *old(pos) <= words@.len(),
    ensures
        *old(pos) <= *final(pos) <= words@.len(),
        dec_elem(words@.skip(*old(pos) as int)) matches Some(p) ==> r matches Some(y) && elem_v(y)
            == p.0 && *final(pos) == *old(pos) + p.1,
{
    let ghost pos0 = *old(pos);
    let ghost ws = words@.skip(pos0 as int);
    let ghost de = dec_elem(ws);
    let ghost dh = dec_elem_head(ws);
    if words.len() - *pos < 1 {
        return None;
    }
    let tag = words[*pos];
    proof {
        assert(ws[0] == words@[pos0 as int]);
    }
    *pos = *pos + 1;
    let data = if tag == 0 {
        ElementData::Root(RootElement)
    } else if tag == 1 {
        ElementData::Unstyled(UnstyledElement)
    } else {
        return None;
    };
    proof {
        assert(dec_eldata(ws) == Some((data, 1int)));
        assert(ws.drop_first() =~= words@.skip(*pos as int));
        assert(ws.skip(1) =~= words@.skip(*pos as int));
    }
    let class = match get_attr(words, pos) {
        Some(v) => v,
        None => {
            proof {
                if dh is Some {
                    assert(false);
                }
            }
            return None;
        },
    };
    proof {
        match dh {
            Some(h) => {
                match dec_attr(ws.skip(1)) {
                    Some(q2) => {
                        assert(ws.skip(1 + q2.1) =~= words@.skip(*pos as int));
                    },
                    None => {
                        assert(false);
                    },
                }
            },
            None => {},
        }
    }
    let idattr = match get_attr(words, pos) {
        Some(v) => v,
        None => {
            proof {
                if dh is Some {
                    assert(false);
                }
            }
            return None;
        },
    };
    proof {
        match dh {
            Some(h) => {
                match dec_attr(ws.skip(1)) {
                    Some(q2) => {
                        match dec_attr(ws.skip(1 + q2.1)) {
                            Some(q3) => {
                                assert(ws.skip(1 + q2.1 + q3.1) =~= words@.skip(*pos as int));
                            },
                            None => {
                                assert(false);
                            },
                        }
                    },
                    None => {
                        assert(false);
                    },
                }
            },
            None => {},
        }
    }
    let styleattr = match get_attr(words, pos) {
        Some(v) => v,
        None => {
            proof {
                if dh is Some {
                    assert(false);
                }
            }
            return None;
        },
    };
    let ghost dt = match dh {
        Some(h) => dec_elem_tail(ws.skip(h.1)),
        None => None,
    };
    proof {
        match dh {
            Some(h) => {
                assert(ws.skip(h.1) =~= words@.skip(*pos as int));
                match de {
                    Some(p) => {
                        assert(dt is Some);
                    },
                    None => {},
                }
            },
            None => {},
        }
    }
    let classes = match get_strs(words, pos) {
        Some(v) => v,
        None => {
            proof {
                if de is Some {
                    assert(false);
                }
            }
            return None;
        },
    };
    proof {
        match dh {
            Some(h) => {
                match dec_counted(ws.skip(h.1), dec_str_f()) {
                    Some(q5) => {
                        assert(ws.skip(h.1).skip(q5.1) =~= words@.skip(*pos as int));
                    },
                    None => {},
                }
            },
            None => {},
        }
    }
    let id = match get_opt_str(words, pos) {
        Some(v) => v,
        None => {
            proof {
                if de is Some {
                    assert(false);
                }
            }
            return None;
        },
    };
    proof {
        match dh {
            Some(h) => {
                match dec_counted(ws.skip(h.1), dec_str_f()) {
                    Some(q5) => {
                        match dec_opt_str(ws.skip(h.1).skip(q5.1)) {
                            Some(q6) => {
                                assert(ws.skip(h.1).skip(q5.1 + q6.1) =~= words@.skip(
                                    *pos as int,
                                ));
                            },
                            None => {},
                        }
                    },
                    None => {},
                }
            },
            None => {},
        }
    }
    let sheet = match get_sheet(words, pos) {
        Some(v) => v,
        None => {
            proof {
                if de is Some {
                    assert(false);
                }
            }
            return None;
        },
    };
    let style = sheet.rules;
    proof {
        match de {
            Some(p) => {
                match dh {
                    Some(h) => {
                        match dec_elem_tail(ws.skip(h.1)) {
                            Some(t) => {},
                            None => {
                                assert(false);
                            },
                        }
                    },
                    None => {
                        assert(false);
                    },
                }
            },
            None => {},
        }
    }
    Some(
        Element {
            data,
            raw_attributes: RawElementAttributes { class, id: idattr, style: styleattr },
            classes,
            id,
            style,
            computed: ComputedStyle::default(),
        },
    )
}

/// Reads one link; realizes [`dec_link`] whenever it succeeds.
fn get_link(words: &Vec<u64>, pos: &mut usize) -> (r: Option<Option<Node>>)
    requires
        *old(pos) <= words@.len(),
    ensures
        *old(pos) <= *final(pos) <= words@.len(),
        dec_link(words@.skip(*old(pos) as int)) matches Some(p) ==> r matches Some(y) && y == p.0
            && *final(pos) == *old(pos) + p.1,
        r is Some ==> *final(pos) == *old(pos) + 2,
{
    let ghost ws = words@.skip(*old(pos) as int);
    if words.len() - *pos < 2 {
        return None;
    }
    let tag = words[*pos];
    let idx = words[*pos + 1];
    proof {
        assert(ws[0] == words@[*old(pos) as int]);
        assert(ws[1] == words@[*old(pos) + 1]);
    }
    *pos = *pos + 2;
    if tag == 0 {
        Some(None)
    } else if tag == 1 && idx <= usize::MAX as u64 {
        Some(Some(Node { index: idx as usize }))
    } else {
        None
    }
}

/// Reads one node record; realizes [`dec_rec`] whenever it succeeds.
#[verifier::rlimit(100)]
#[verifier::spinoff_prover]
fn get_rec(words: &Vec<u64>, pos: &mut usize) -> (r: Option<NodeInner<Element>>)
    requires
        *old(pos) <= words@.len(),
    ensures
        *old(pos) <= *final(pos) <= words@.len(),
        dec_rec(words@.skip(*old(pos) as int)) matches Some(p) ==> r matches Some(y) && rec_v(y)
            == p.0 && *final(pos) == *old(pos) + p.1,
{
    let ghost pos0 = *old(pos);
    let ghost ws = words@.skip(pos0 as int);
    let ghost dr = dec_rec(ws);
    let ghost dls = dec_links(ws);
    let parent = match get_link(words, pos) {
        Some(v) => v,
        None => {
            proof {
                if dls is Some {
                    assert(false);
                }
            }
            return None;
        },
    };
    proof {
        assert(ws.skip(2) =~= words@.skip(*pos as int));
    }
    let previous_sibling = match get_link(words, pos) {
        Some(v) => v,
        None => {
            proof {
                if dls is Some {
                    assert(false);
                }
            }
            return None;
        },
    };
    proof {
        assert(ws.skip(4) =~= words@.skip(*pos as int));
    }
    let next_sibling = match get_link(words, pos) {
        Some(v) => v,
        None => {
            proof {
                if dls is Some {
                    assert(false);
                }
            }
            return None;
        },
    };
    proof {
        assert(ws.skip(6) =~= words@.skip(*pos as int));
    }
    let first_child = match get_link(words, pos) {
        Some(v) => v,
        None => {
            proof {
                if dls is Some {
                    assert(false);
                }
            }
            return None;
        },
    };
    proof {
        assert(ws.skip(8) =~= words@.skip(*pos as int));
    }
    let last_child = match get_link(words, pos) {
        Some(v) => v,
        None => {
            proof {
                if dls is Some {
                    assert(false);
                }
            }
            return None;
        },
    };
    proof {
        match dr {
            Some(p) => {
                assert(dls is Some);
                assert(ws.skip(10) =~= words@.skip(*pos as int));
            },
            None => {},
        }
    }
    let data = match get_elem(words, pos) {
        Some(v) => v,
        None => {
            proof {
                if dr is Some {
                    assert(false);
                }
            }
            return None;
        },
    };
    Some(NodeInner { parent, previous_sibling, next_sibling, first_child, last_child, data })
}

/// Canonical serialization: `data` is exactly the encoding of the
/// document view `v`, whose collections fit the format's counters and
/// whose links are consistent.
pub open spec fn canonical_for(data: Seq<u8>, v: DocV) -> bool {
    &&& data == spec_save(v)
    &&& doc_ok(v)
    &&& recs_wf(v.0)
}

/// What `save` emits is canonical for the saved document's view.
pub proof fn lemma_save_canonical(d: crate::document::CompiledDocument, bytes: Seq<u8>)
    requires
        d.well_formed(),
        bytes == spec_save(doc_view(d)),
        doc_ok(doc_view(d)),
    ensures
        canonical_for(bytes, doc_view(d)),
{
    lemma_wf_iff_recs_wf(d.tree@);
}

/// Deserializes document bytes: the header is validated, the tree and
/// stylesheet decoded, every tree link re-checked, and the decoded
/// document re-serialized and compared against the input, so that a load
/// accepts exactly the canonical serialization of the document it
/// returns — and accepts every canonical serialization, so a load of
/// saved bytes always succeeds. With [`lemma_save_load_roundtrip`], a
/// successful `load` of `save(d)` is therefore persistently equal to `d`.
#[verifier::rlimit(100)]
#[verifier::spinoff_prover]
pub fn load(data: &[u8]) -> (r: Result<crate::document::CompiledDocument, LoadError>)
    ensures
        r matches Ok(d) ==> d.well_formed() && data@ == spec_save(doc_view(d)) && doc_ok(
            doc_view(d),
        ),
        forall|v: DocV| canonical_for(data@, v) ==> r is Ok,
{
    if data.len() < 5 {
        proof {
            assert forall|v: DocV| canonical_for(data@, v) implies false by {
                lemma_bytes_of_words_len(enc_doc(v));
            }
        }
        return Err(LoadError::BadMagic);
    }
    if !(data[0] == 0x46 && data[1] == 0x55 && data[2] == 0x69 && data[3] == 0x53 && data[4]
        == 0) {
        proof {
            assert forall|v: DocV| canonical_for(data@, v) implies false by {
                assert(data@[0] == magic_bytes()[0]);
                assert(data@[1] == magic_bytes()[1]);
                assert(data@[2] == magic_bytes()[2]);
                assert(data@[3] == magic_bytes()[3]);
                assert(data@[4] == magic_bytes()[4]);
            }
        }
        return Err(LoadError::BadMagic);
    }
    let payload = data.len() - 5;
    if payload % 8 != 0 {
        proof {
            assert forall|v: DocV| canonical_for(data@, v) implies false by {
                lemma_bytes_of_words_len(enc_doc(v));
            }
        }
        return Err(LoadError::Malformed);
    }
    let count = payload / 8;
    let mut words: Vec<u64> = Vec::new();
    let mut j: usize = 0;
    while j < count
        invariant
            count * 8 + 5 == data@.len(),
            data@.len() <= usize::MAX,
            j <= count,
            words@ == Seq::new(j as nat, |k: int| dec_word_at(data@, 5 + 8 * k)),
        decreases count - j,
    {
        let base = 5 + 8 * j;
        let w = (data[base] as u64) | ((data[base + 1] as u64) << 8) | ((data[base
            + 2] as u64) << 16) | ((data[base + 3] as u64) << 24) | ((data[base + 4] as u64)
            << 32) | ((data[base + 5] as u64) << 40) | ((data[base + 6] as u64) << 48) | ((
        data[base + 7] as u64) << 56);
        words.push(w);
        j = j + 1;
        proof {
            assert(words@ =~= Seq::new(j as nat, |k: int| dec_word_at(data@, 5 + 8 * k)));
        }
    }
    proof {
        assert(words@ =~= words_of(data@));
    }
    // Under any canonical hypothesis the words are the document encoding
    // and decode back to the hypothesised view.
    let ghost dd = dec_doc(words@);
    proof {
        assert forall|v: DocV|
            canonical_for(data@, v) implies words@ == enc_doc(v) && (dd matches Some(p) && p.0
            == v) by {
            lemma_words_roundtrip(enc_doc(v));
            lemma_doc_roundtrip(v, Seq::<u64>::empty());
            assert(enc_doc(v) + Seq::<u64>::empty() =~= enc_doc(v));
        }
    }
    let ghost drc = dec_counted(words@, dec_rec_f());
    let mut pos: usize = 0;
    if words.len() - pos < 1 {
        proof {
            assert forall|v: DocV| canonical_for(data@, v) implies false by {}
        }
        return Err(LoadError::Malformed);
    }
    let rec_count = words[pos];
    pos = pos + 1;
    let ghost tail0 = words@.drop_first();
    let ghost dl = dec_list(tail0, rec_count as nat, dec_rec_f());
    proof {
        assert(tail0 =~= words@.skip(1));
        match dl {
            Some(p) => {
                lemma_dec_list_shape(tail0, rec_count as nat, dec_rec_f());
            },
            None => {},
        }
    }
    let mut recs: Vec<NodeInner<Element>> = Vec::new();
    let mut i: u64 = 0;
    while i < rec_count
        invariant
            i <= rec_count,
            1 <= pos <= words@.len(),
            words@.len() >= 1,
            words@[0] == rec_count,
            tail0 == words@.drop_first(),
            dl == dec_list(tail0, rec_count as nat, dec_rec_f()),
            drc == dec_counted(words@, dec_rec_f()),
            dd == dec_doc(words@),
            forall|v: DocV|
                canonical_for(data@, v) ==> words@ == enc_doc(v) && (dd matches Some(p) && p.0
                    == v),
            dd is Some ==> drc is Some,
            match drc {
                Some(pc) => dl matches Some(pl) && pc.0 == pl.0 && pc.1 == 1 + pl.1,
                None => true,
            },
            recs@.len() == i,
            match dl {
                Some(p) => {
                    &&& p.0.len() == rec_count
                    &&& recs@.map_values(|x: NodeInner<Element>| rec_v(x)) == p.0.take(i as int)
                    &&& dec_list(words@.skip(pos as int), (rec_count - i) as nat, dec_rec_f())
                        == Some((p.0.skip(i as int), p.1 - (pos - 1)))
                },
                None => true,
            },
        decreases rec_count - i,
    {
        let ghost cur = words@.skip(pos as int);
        proof {
            assert(dec_rec_f()(cur) == dec_rec(cur));
            match dl {
                Some(p) => {
                    lemma_dec_list_step(
                        cur,
                        (rec_count - i) as nat,
                        dec_rec_f(),
                        p.0.skip(i as int),
                        p.1 - (pos - 1),
                    );
                },
                None => {},
            }
        }
        let before = pos;
        match get_rec(&words, &mut pos) {
            Some(x) => {
                let ghost pre = recs@.map_values(|x2: NodeInner<Element>| rec_v(x2));
                recs.push(x);
                proof {
                    match dl {
                        Some(p) => {
                            match dec_rec(cur) {
                                Some(q) => {
                                    assert(p.0.skip(i as int)[0] == p.0[i as int]);
                                    assert(rec_v(x) == p.0[i as int]);
                                    assert(recs@.map_values(
                                        |x2: NodeInner<Element>| rec_v(x2),
                                    ) =~= pre.push(rec_v(x)));
                                    assert(p.0.take(i as int).push(p.0[i as int]) =~= p.0.take(
                                        i + 1,
                                    ));
                                    assert(p.0.skip(i as int).drop_first() =~= p.0.skip(i + 1));
                                    assert(cur.skip(q.1) =~= words@.skip(before + q.1));
                                },
                                None => {
                                    assert(false);
                                },
                            }
                        },
                        None => {},
                    }
                }
                i = i + 1;
            },
            None => {
                proof {
                    match dl {
                        Some(p) => {
                            assert(false);
                        },
                        None => {},
                    }
                    assert forall|v: DocV| canonical_for(data@, v) implies false by {}
                }
                return Err(LoadError::Malformed);
            },
        }
    }
    proof {
        match dl {
            Some(p) => {
                assert(dec_list(words@.skip(pos as int), 0nat, dec_rec_f()) == Some(
                    (p.0.skip(rec_count as int), p.1 - (pos - 1)),
                ));
                assert(p.1 == pos - 1);
                assert(p.0.take(rec_count as int) =~= p.0);
            },
            None => {},
        }
    }
    let ghost pos_sheet = pos;
    let sheet = match get_sheet(&words, &mut pos) {
        Some(x) => x,
        None => {
            proof {
                assert forall|v: DocV| canonical_for(data@, v) implies false by {
                    match drc {
                        Some(pc) => {
                            assert(words@.skip(pc.1) =~= words@.skip(pos_sheet as int));
                        },
                        None => {},
                    }
                }
            }
            return Err(LoadError::Malformed);
        },
    };
    proof {
        // Under a canonical hypothesis the decoded views equal the
        // hypothesised view componentwise.
        assert forall|v: DocV|
            canonical_for(data@, v) implies recs@.map_values(|x2: NodeInner<Element>| rec_v(x2))
            == v.0 && sheet_v(sheet) == v.1 by {
            match drc {
                Some(pc) => {
                    assert(words@.skip(pc.1) =~= words@.skip(pos_sheet as int));
                },
                None => {},
            }
        }
    }
    let doc = match Tree::from_nodes(recs) {
        Some(tree) => crate::document::CompiledDocument::new(tree, sheet),
        None => {
            proof {
                assert forall|v: DocV| canonical_for(data@, v) implies false by {
                    assert(tree_v(recs@) =~= v.0);
                    lemma_wf_iff_recs_wf(recs@);
                }
            }
            return Err(LoadError::Malformed);
        },
    };
    // Accept exactly the canonical serialization: re-encode and compare.
    let reencoded = doc.save();
    proof {
        assert forall|v: DocV| canonical_for(data@, v) implies reencoded@ == data@ by {
            assert(tree_v(doc.tree@) =~= v.0);
            assert(doc_view(doc) == v);
        }
    }
    if reencoded.len() != data.len() {
        return Err(LoadError::Malformed);
    }
    let mut k: usize = 0;
    while k < data.len()
        invariant
            data@.len() == reencoded@.len(),
            k <= data@.len(),
            forall|x: int| 0 <= x < k ==> data@[x] == reencoded@[x],
            reencoded@ == spec_save(doc_view(doc)),
            doc_ok(doc_view(doc)),
            doc.well_formed(),
            forall|v: DocV| canonical_for(data@, v) ==> reencoded@ == data@,
        decreases data@.len() - k,
    {
        if data[k] != reencoded[k] {
            proof {
                assert forall|v: DocV| canonical_for(data@, v) implies false by {}
            }
            return Err(LoadError::Malformed);
        }
        k = k + 1;
    }
    proof {
        assert(data@ =~= reencoded@);
    }
    Ok(doc)
}

} // verus!
