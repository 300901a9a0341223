//! Small text utilities shared by the tokenizers and the diagnostic reporter.

use vstd::prelude::*;

verus! {

/// The characters of `s`, as a vector.
pub fn chars_vec(s: &str) -> (r: Vec<char>)
    ensures
        r@ == s@,
{
    let n = s.unicode_len();
    let mut r: Vec<char> = Vec::new();
    let mut i: usize = 0;
    while i < n
        invariant
            n == s@.len(),
            i <= n,
            r@ == s@.subrange(0, i as int),
        decreases n - i,
    {
        r.push(s.get_char(i));
        i = i + 1;
        proof {
            assert(r@ =~= s@.subrange(0, i as int));
        }
    }
    proof {
        assert(r@ =~= s@);
    }
    r
}

/// Relies on String::push: appends exactly the given character.
#[verifier::external_body]
fn push_char(s: &mut String, c: char)
    ensures
        final(s)@ == old(s)@.push(c),
{
    s.push(c);
}

/// Builds a `String` back out of a character vector.
pub fn string_from_chars(cs: &[char]) -> (r: String)
    ensures
        r@ == cs@,
{
    let mut r = String::new();
    let mut i: usize = 0;
    while i < cs.len()
        invariant
            i <= cs@.len(),
            r@ == cs@.subrange(0, i as int),
        decreases cs@.len() - i,
    {
        push_char(&mut r, cs[i]);
        i = i + 1;
        proof {
            assert(r@ =~= cs@.subrange(0, i as int));
        }
    }
    proof {
        assert(r@ =~= cs@);
    }
    r
}

/// Relies on char::from_u32: yields the character for exactly the Unicode
/// scalar values (not a surrogate, not beyond the last codepoint).
#[verifier::external_body]
pub fn char_from_u32(u: u32) -> (r: Option<char>)
    ensures
        (r matches Some(c) ==> c as u32 == u),
        r is Some <==> vstd::utf8::is_scalar(u),
{
    char::from_u32(u)
}

/// Whether two string slices hold the same characters.
pub fn str_eq(a: &str, b: &str) -> (r: bool)
    ensures
        r == (a@ == b@),
{
    let an = a.unicode_len();
    let bn = b.unicode_len();
    if an != bn {
        proof {
            assert(a@ != b@);
        }
        return false;
    }
    let mut i: usize = 0;
    while i < an
        invariant
            an == a@.len(),
            an == b@.len(),
            i <= an,
            forall|k: int| 0 <= k < i ==> a@[k] == b@[k],
        decreases an - i,
    {
        if a.get_char(i) != b.get_char(i) {
            return false;
        }
        i = i + 1;
    }
    proof {
        assert(a@ =~= b@);
    }
    true
}

/// Whether `c` is ASCII whitespace: space, tab, line feed, form feed or
/// carriage return.
pub open spec fn is_ws(c: char) -> bool {
    c == ' ' || c == '\t' || c == '\n' || c == '\r' || c == '\u{c}'
}

/// Exec mirror of [`is_ws`].
pub fn is_ws_char(c: char) -> (r: bool)
    ensures
        r == is_ws(c),
{
    c == ' ' || c == '\t' || c == '\n' || c == '\r' || c == '\u{c}'
}

/// Length of the maximal leading run of non-whitespace characters.
pub open spec fn word_len(s: Seq<char>) -> int
    decreases s.len(),
{
    if s.len() == 0 || is_ws(s[0]) {
        0
    } else {
        1 + word_len(s.drop_first())
    }
}

pub proof fn lemma_word_len_bounds(s: Seq<char>)
    ensures
        0 <= word_len(s) <= s.len(),
        s.len() > 0 && !is_ws(s[0]) ==> word_len(s) >= 1,
        forall|k: int| 0 <= k < word_len(s) ==> !is_ws(s[k]),
        word_len(s) < s.len() ==> is_ws(s[word_len(s)]),
    decreases s.len(),
{
    if s.len() == 0 || is_ws(s[0]) {
    } else {
        lemma_word_len_bounds(s.drop_first());
        assert forall|k: int| 0 <= k < word_len(s) implies !is_ws(s[k]) by {
            if k > 0 {
                assert(s.drop_first()[k - 1] == s[k]);
            }
        }
        if word_len(s) < s.len() {
            assert(s.drop_first()[word_len(s) - 1] == s[word_len(s)]);
        }
    }
}

/// The whitespace-separated words of `s`, in order, without empties.
pub open spec fn split_ws(s: Seq<char>) -> Seq<Seq<char>>
    decreases s.len(),
{
    if s.len() == 0 {
        Seq::empty()
    } else if is_ws(s[0]) {
        split_ws(s.drop_first())
    } else {
        let w = word_len(s);
        if 1 <= w <= s.len() {
            seq![s.take(w)] + split_ws(s.skip(w))
        } else {
            seq![s]
        }
    }
}

/// Splits `s` on ASCII whitespace, returning the words in order.
pub fn split_whitespace(s: &str) -> (r: Vec<String>)
    ensures
        r.deep_view() == split_ws(s@),
{
    let cs = chars_vec(s);
    let n = cs.len();
    let mut r: Vec<String> = Vec::new();
    let mut i: usize = 0;
    proof {
        assert(s@.skip(0) =~= s@);
        assert(r.deep_view() =~= Seq::<Seq<char>>::empty());
        assert(r.deep_view() + split_ws(s@) =~= split_ws(s@));
    }
    while i < n
        invariant
            n == cs@.len(),
            cs@ == s@,
            i <= n,
            r.deep_view() + split_ws(s@.skip(i as int)) == split_ws(s@),
        decreases n - i,
    {
        if is_ws_char(cs[i]) {
            proof {
                assert(s@.skip(i as int).drop_first() =~= s@.skip(i as int + 1));
            }
            i = i + 1;
        } else {
            let ghost rest = s@.skip(i as int);
            let ghost w = word_len(rest);
            proof {
                lemma_word_len_bounds(rest);
            }
            let start = i;
            let mut word = String::new();
            while i < n && !is_ws_char(cs[i])
                invariant
                    n == cs@.len(),
                    cs@ == s@,
                    start <= i <= n,
                    rest == s@.skip(start as int),
                    w == word_len(rest),
                    0 <= w <= rest.len(),
                    word@ == s@.subrange(start as int, i as int),
                    i - start <= w,
                    forall|k: int| start <= k < i ==> !is_ws(s@[k]),
                decreases n - i,
            {
                push_char(&mut word, cs[i]);
                i = i + 1;
                proof {
                    assert(word@ =~= s@.subrange(start as int, i as int));
                    lemma_word_len_bounds(rest);
                    // The word cannot run past the spec word length: the
                    // character there is whitespace.
                    if i - start > w {
                        assert(!is_ws(s@[start + w]));
                        assert(is_ws(rest[w]));
                        assert(rest[w] == s@[start + w]);
                    }
                }
            }
            proof {
                lemma_word_len_bounds(rest);
                if i - start < w {
                    assert(!is_ws(rest[i - start]));
                    assert(rest[i - start] == s@[i as int]);
                    assert(i < n);
                    assert(is_ws(s@[i as int]));
                }
                assert(i - start == w);
                assert(word@ =~= rest.take(w));
                assert(s@.skip(i as int) =~= rest.skip(w));
            }
            let ghost pre = r.deep_view();
            r.push(word);
            proof {
                assert(r.deep_view() =~= pre + seq![word@]);
                assert(split_ws(rest) == seq![rest.take(w)] + split_ws(rest.skip(w)));
                assert(r.deep_view() + split_ws(s@.skip(i as int)) =~= split_ws(s@));
            }
        }
    }
    proof {
        assert(s@.skip(i as int) =~= Seq::<char>::empty());
        assert(r.deep_view() =~= r.deep_view() + split_ws(s@.skip(i as int)));
    }
    r
}

} // verus!
