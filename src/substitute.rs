//! Replacement of every known token of a text by its value.
use vstd::prelude::*;
use crate::tokens::{token_at, has_token, is_name, is_name_char, token_text, token_len_at};
use crate::tokens::{chars_of, string_from_chars};
use vstd::slice::slice_subrange;
use crate::tokens::{lemma_same_name_at, lemma_token_chars};
use crate::vars::VarMap;

verus! {

/// A token whose name `m` knows starts at the front of `s`.
pub open spec fn known_token_at_front(s: Seq<char>, m: Map<Seq<char>, Seq<char>>) -> bool {
    exists|w: Seq<char>| token_at(s, 0, w) && m.contains_key(w)
}

/// The text `s` with each token whose name `m` knows replaced by its value, read from left to
/// right; every other character is kept as it is.
pub open spec fn substitute(s: Seq<char>, m: Map<Seq<char>, Seq<char>>) -> Seq<char>
    decreases s.len(),
{
    if s.len() == 0 {
        Seq::empty()
    } else if known_token_at_front(s, m) {
        let w = choose|w: Seq<char>| token_at(s, 0, w) && m.contains_key(w);
        m[w] + substitute(s.subrange((w.len() + 4) as int, s.len() as int), m)
    } else {
        seq![s[0]] + substitute(s.subrange(1, s.len() as int), m)
    }
}

/// Every token of `s` has a name that `m` knows.
pub open spec fn covered(s: Seq<char>, m: Map<Seq<char>, Seq<char>>) -> bool {
    forall|w: Seq<char>| has_token(s, w) ==> m.contains_key(w)
}

/// A token of `s` has a name that `m` knows.
pub open spec fn has_known_token(s: Seq<char>, m: Map<Seq<char>, Seq<char>>) -> bool {
    exists|w: Seq<char>| has_token(s, w) && m.contains_key(w)
}

/// A token seen in a tail of a text is a token of the text, and back.
pub proof fn lemma_token_in_tail(s: Seq<char>, a: int, p: int, w: Seq<char>)
    requires
        0 <= a <= s.len(),
        0 <= p,
    ensures
        token_at(s.subrange(a, s.len() as int), p, w) <==> token_at(s, a + p, w),
{
    let t = s.subrange(a, s.len() as int);
    if p + (w.len() + 4) as int <= t.len() {
        assert(t.subrange(p, p + (w.len() + 4) as int) =~= s.subrange(a + p, a + p + (w.len() + 4) as int));
    }
}

/// The front step of `substitute` when the known token named `w` starts the text.
proof fn lemma_front_known(s: Seq<char>, m: Map<Seq<char>, Seq<char>>, w: Seq<char>)
    requires
        token_at(s, 0, w),
        m.contains_key(w),
    ensures
        substitute(s, m) == m[w] + substitute(s.subrange((w.len() + 4) as int, s.len() as int), m),
{
    let v = choose|v: Seq<char>| token_at(s, 0, v) && m.contains_key(v);
    lemma_same_name_at(s, 0, v, w);
}

/// A token that starts in `a` ends in `a` when `c` opens with `{{` and a name character.
proof fn lemma_no_crossing(a: Seq<char>, c: Seq<char>, p: int, v: Seq<char>)
    requires
        c.len() >= 3,
        c[0] == '{',
        c[1] == '{',
        is_name_char(c[2]),
        0 <= p < a.len(),
        token_at(a + c, p, v),
    ensures
        p + v.len() + 4 <= a.len(),
{
    let t = a + c;
    lemma_token_chars(t, p, v);
    if p + v.len() + 4 > a.len() {
        let q = a.len() - p;
        let e = a.len() as int;
        assert(t[e] == '{');
        assert(t[e + 1] == '{');
        if q == 1 {
            assert(t[p + 2 + 0] == v[0]);
            assert(is_name_char(v[0]));
        } else if q < v.len() + 2 {
            assert(t[p + 2 + (q - 2)] == v[q - 2]);
            assert(is_name_char(v[q - 2]));
        } else if q == v.len() + 2 {
            assert(t[p + 2 + v.len()] == '}');
        } else {
            assert(t[p + 3 + v.len()] == '}');
        }
    }
}

/// Substituting in `a + c` is substituting in `a` and then in `c`, when `c` opens a token.
proof fn lemma_split_before_token(a: Seq<char>, c: Seq<char>, m: Map<Seq<char>, Seq<char>>)
    requires
        c.len() >= 3,
        c[0] == '{',
        c[1] == '{',
        is_name_char(c[2]),
    ensures
        substitute(a + c, m) == substitute(a, m) + substitute(c, m),
    decreases a.len(),
{
    let t = a + c;
    if a.len() == 0 {
        assert(t =~= c);
        assert(substitute(a, m) + substitute(c, m) =~= substitute(c, m));
    } else {
        assert forall|w: Seq<char>| token_at(t, 0, w) <==> token_at(a, 0, w) by {
            if token_at(t, 0, w) {
                lemma_no_crossing(a, c, 0, w);
                assert(t.subrange(0, (w.len() + 4) as int) =~= a.subrange(0, (w.len() + 4) as int));
            }
            if token_at(a, 0, w) {
                assert(t.subrange(0, (w.len() + 4) as int) =~= a.subrange(0, (w.len() + 4) as int));
            }
        }
        if known_token_at_front(a, m) {
            let w = choose|w: Seq<char>| token_at(a, 0, w) && m.contains_key(w);
            lemma_front_known(a, m, w);
            lemma_front_known(t, m, w);
            let l = (w.len() + 4) as int;
            let rest = a.subrange(l, a.len() as int);
            assert(t.subrange(l, t.len() as int) =~= rest + c);
            lemma_split_before_token(rest, c, m);
            assert(substitute(t, m) =~= substitute(a, m) + substitute(c, m));
        } else {
            assert(!known_token_at_front(t, m));
            let rest = a.subrange(1, a.len() as int);
            assert(t.subrange(1, t.len() as int) =~= rest + c);
            lemma_split_before_token(rest, c, m);
            assert(t[0] == a[0]);
            assert(substitute(t, m) =~= substitute(a, m) + substitute(c, m));
        }
    }
}

/// A text that holds no token of a known name is left as it is.
pub proof fn lemma_no_known_token_unchanged(s: Seq<char>, m: Map<Seq<char>, Seq<char>>)
    requires
        !has_known_token(s, m),
    ensures
        substitute(s, m) == s,
    decreases s.len(),
{
    if s.len() > 0 {
        assert(!known_token_at_front(s, m)) by {
            if known_token_at_front(s, m) {
                let w = choose|w: Seq<char>| token_at(s, 0, w) && m.contains_key(w);
                assert(has_token(s, w));
            }
        }
        let rest = s.subrange(1, s.len() as int);
        assert(!has_known_token(rest, m)) by {
            if has_known_token(rest, m) {
                let w = choose|w: Seq<char>| has_token(rest, w) && m.contains_key(w);
                let p = choose|p: int| token_at(rest, p, w);
                lemma_token_in_tail(s, 1, p, w);
                assert(has_token(s, w));
            }
        }
        lemma_no_known_token_unchanged(rest, m);
        assert(seq![s[0]] + rest =~= s);
    }
}

/// A text without any token is left as it is by substitution, whatever the mapping.
pub proof fn lemma_tokenless_text_unchanged(s: Seq<char>, m: Map<Seq<char>, Seq<char>>)
    requires
        forall|w: Seq<char>| !has_token(s, w),
    ensures
        substitute(s, m) == s,
{
    lemma_no_known_token_unchanged(s, m);
}

/// Each occurrence of a known token is replaced by its value: substituting in a text with the
/// token `{{w}}` between `a` and `b` gives the substituted `a`, the value of `w`, and the
/// substituted `b`, whatever `a` and `b` hold.
pub proof fn lemma_known_token_replaced(
    a: Seq<char>,
    w: Seq<char>,
    b: Seq<char>,
    m: Map<Seq<char>, Seq<char>>,
)
    requires
        is_name(w),
        m.contains_key(w),
    ensures
        substitute(a + token_text(w) + b, m) == substitute(a, m) + m[w] + substitute(b, m),
{
    let c = token_text(w) + b;
    assert(a + token_text(w) + b =~= a + c);
    assert(c[2] == w[0]);
    lemma_split_before_token(a, c, m);
    assert(c.subrange(0, (w.len() + 4) as int) =~= token_text(w));
    lemma_front_known(c, m, w);
    assert(c.subrange((w.len() + 4) as int, c.len() as int) =~= b);
    assert(substitute(a, m) + (m[w] + substitute(b, m)) =~= substitute(a, m) + m[w] + substitute(b, m));
}

/// Replaces in `file_content` each token whose name `token_map` holds by its value.
pub fn replace_tokens(token_map: &VarMap, file_content: &mut String)
    requires
        token_map.wf(),
    ensures
        final(file_content)@ == substitute(old(file_content)@, token_map@),
{
    let s = chars_of(file_content.as_str());
    let n = s.len();
    let mut out: Vec<char> = Vec::new();
    let mut i: usize = 0;
    proof {
        assert(s@.subrange(0, n as int) =~= s@);
    }
    while i < n
        invariant
            token_map.wf(),
            n == s@.len(),
            s@ == old(file_content)@,
            i <= n,
            out@ + substitute(s@.subrange(i as int, n as int), token_map@) == substitute(
                s@,
                token_map@,
            ),
        decreases n - i,
    {
        let ghost tail = s@.subrange(i as int, n as int);
        let found = match token_len_at(&s, i) {
            Some(k) => {
                let name = string_from_chars(slice_subrange(s.as_slice(), i + 2, i + 2 + k));
                match token_map.get(&name) {
                    Some(v) => Some((k, v)),
                    None => {
                        proof {
                            assert(!known_token_at_front(tail, token_map@)) by {
                                if known_token_at_front(tail, token_map@) {
                                    let w = choose|w: Seq<char>|
                                        token_at(tail, 0, w) && token_map@.contains_key(w);
                                    lemma_token_in_tail(s@, i as int, 0, w);
                                    lemma_same_name_at(s@, i as int, w, name@);
                                }
                            }
                        }
                        None
                    },
                }
            },
            None => {
                proof {
                    assert(!known_token_at_front(tail, token_map@)) by {
                        if known_token_at_front(tail, token_map@) {
                            let w = choose|w: Seq<char>|
                                token_at(tail, 0, w) && token_map@.contains_key(w);
                            lemma_token_in_tail(s@, i as int, 0, w);
                        }
                    }
                }
                None
            },
        };
        match found {
            Some((k, v)) => {
                let ghost w = s@.subrange(i + 2, i + 2 + k);
                proof {
                    lemma_token_in_tail(s@, i as int, 0, w);
                    lemma_front_known(tail, token_map@, w);
                    assert(tail.subrange(k + 4, tail.len() as int) =~= s@.subrange(
                        i + k + 4,
                        n as int,
                    ));
                }
                let ghost before = out@;
                let mut value = chars_of(v.as_str());
                out.append(&mut value);
                proof {
                    assert(before + (token_map@[w] + substitute(
                        s@.subrange(i + k + 4, n as int),
                        token_map@,
                    )) =~= out@ + substitute(s@.subrange(i + k + 4, n as int), token_map@));
                }
                i = i + k + 4;
            },
            None => {
                let ghost before = out@;
                out.push(s[i]);
                proof {
                    assert(tail.subrange(1, tail.len() as int) =~= s@.subrange(i + 1, n as int));
                    assert(before + (seq![tail[0]] + substitute(
                        s@.subrange(i + 1, n as int),
                        token_map@,
                    )) =~= out@ + substitute(s@.subrange(i + 1, n as int), token_map@));
                }
                i = i + 1;
            },
        }
    }
    proof {
        assert(s@.subrange(n as int, n as int) =~= Seq::<char>::empty());
        assert(out@ + Seq::<char>::empty() =~= out@);
    }
    *file_content = string_from_chars(out.as_slice());
}

} // verus!
