//! Placeholder tokens: the `{{NAME}}` grammar and its extraction from text.
use vstd::prelude::*;
use vstd::std_specs::iter::IteratorSpec;
use vstd::slice::slice_subrange;

verus! {

/// A character that may stand in a token's name: ASCII letter, digit or `_`.
pub open spec fn is_name_char(c: char) -> bool {
    ('a' <= c && c <= 'z') || ('A' <= c && c <= 'Z') || ('0' <= c && c <= '9') || c == '_'
}

/// A token name: one or more name characters.
pub open spec fn is_name(w: Seq<char>) -> bool {
    w.len() > 0 && forall|k: int| 0 <= k < w.len() ==> #[trigger] is_name_char(w[k])
}

/// The literal text of the token named `w`: `{{w}}`.
pub open spec fn token_text(w: Seq<char>) -> Seq<char> {
    seq!['{', '{'] + w + seq!['}', '}']
}

/// The token named `w` occurs in `s` at position `i`.
pub open spec fn token_at(s: Seq<char>, i: int, w: Seq<char>) -> bool {
    &&& is_name(w)
    &&& 0 <= i
    &&& i + w.len() + 4 <= s.len()
    &&& s.subrange(i, i + w.len() + 4) == token_text(w)
}

/// Some token named `w` occurs in `s`.
pub open spec fn has_token(s: Seq<char>, w: Seq<char>) -> bool {
    exists|i: int| token_at(s, i, w)
}

/// The set of distinct token names that occur in `s`.
pub open spec fn token_names(s: Seq<char>) -> Set<Seq<char>> {
    Set::new(|w: Seq<char>| has_token(s, w))
}

/// The names held by a list of strings.
pub open spec fn names_of(v: Seq<String>) -> Set<Seq<char>> {
    Set::new(|w: Seq<char>| exists|k: int| 0 <= k < v.len() && v[k]@ == w)
}

/// No two strings of the list are equal.
pub open spec fn all_distinct(v: Seq<String>) -> bool {
    forall|a: int, b: int| 0 <= a < b < v.len() ==> v[a]@ != v[b]@
}

/// What a token at position `i` reads, character by character.
pub(crate) proof fn lemma_token_chars(s: Seq<char>, i: int, w: Seq<char>)
    requires
        token_at(s, i, w),
    ensures
        s[i] == '{',
        s[i + 1] == '{',
        forall|k: int| 0 <= k < w.len() ==> s[i + 2 + k] == #[trigger] w[k],
        s[i + 2 + w.len()] == '}',
        s[i + 3 + w.len()] == '}',
{
    let t = token_text(w);
    let l = w.len() as int;
    let sub = s.subrange(i, i + l + 4);
    assert(sub == t);
    assert(t[0] == '{');
    assert(t[1] == '{');
    assert(t[l + 2] == '}');
    assert(t[l + 3] == '}');
    assert forall|k: int| 0 <= k < l implies s[i + 2 + k] == #[trigger] w[k] by {
        assert(t[k + 2] == w[k]);
        assert(sub[k + 2] == s[i + 2 + k]);
    }
    assert(sub[0] == s[i]);
    assert(sub[1] == s[i + 1]);
    assert(sub[l + 2] == s[i + l + 2]);
    assert(sub[l + 3] == s[i + l + 3]);
}

/// Tells whether `c` may stand in a token's name.
pub fn is_name_char_exec(c: char) -> (r: bool)
    ensures
        r == is_name_char(c),
{
    ('a' <= c && c <= 'z') || ('A' <= c && c <= 'Z') || ('0' <= c && c <= '9') || c == '_'
}

/// The length of the name of the token that starts at position `i` of `s`, if one does.
pub fn token_len_at(s: &Vec<char>, i: usize) -> (r: Option<usize>)
    requires
        i <= s@.len(),
    ensures
        r matches Some(k) ==> i + k + 4 <= s@.len() && token_at(s@, i as int, s@.subrange(i + 2, i + 2 + k)),
        r is None ==> forall|w: Seq<char>| !token_at(s@, i as int, w),
{
    let n = s.len();
    if n - i < 4 {
        return None;
    }
    if s[i] != '{' || s[i + 1] != '{' {
        proof {
            assert forall|w: Seq<char>| !token_at(s@, i as int, w) by {
                if token_at(s@, i as int, w) {
                    lemma_token_chars(s@, i as int, w);
                }
            }
        }
        return None;
    }
    let mut j: usize = i + 2;
    while j < n && is_name_char_exec(s[j])
        invariant
            n == s@.len(),
            i + 2 <= j <= n,
            forall|k: int| i + 2 <= k < j ==> is_name_char(#[trigger] s@[k]),
        decreases n - j,
    {
        j = j + 1;
    }
    let k: usize = j - i - 2;
    if k > 0 && n - j >= 2 && s[j] == '}' && s[j + 1] == '}' {
        proof {
            let w = s@.subrange(i + 2, i + 2 + k);
            assert(is_name(w));
            assert(s@.subrange(i as int, i + k + 4) =~= token_text(w));
        }
        Some(k)
    } else {
        proof {
            assert forall|w: Seq<char>| !token_at(s@, i as int, w) by {
                if token_at(s@, i as int, w) {
                    lemma_token_chars(s@, i as int, w);
                    let e = i + 2 + w.len();
                    if j < e {
                        assert(is_name_char(w[j - i - 2]));
                    } else if j > e {
                        assert(is_name_char(s@[e]));
                    }
                }
            }
        }
        None
    }
}

/// Whether one of the strings of `v` equals `w`.
fn contains_name(v: &Vec<String>, w: &String) -> (r: bool)
    ensures
        r == names_of(v@).contains(w@),
{
    let mut k: usize = 0;
    while k < v.len()
        invariant
            k <= v.len(),
            forall|a: int| 0 <= a < k ==> v@[a]@ != w@,
        decreases v.len() - k,
    {
        if v[k] == *w {
            return true;
        }
        k = k + 1;
    }
    false
}

/// The distinct token names that occur in `file_content`, each once.
pub fn tokens_from_string(file_content: &String) -> (r: Vec<String>)
    ensures
        names_of(r@) == token_names(file_content@),
        all_distinct(r@),
{
    let s = chars_of(file_content.as_str());
    let n = s.len();
    let mut r: Vec<String> = Vec::new();
    let mut i: usize = 0;
    while i < n
        invariant
            n == s@.len(),
            s@ == file_content@,
            i <= n,
            all_distinct(r@),
            forall|w: Seq<char>|
                #[trigger] names_of(r@).contains(w) <==> exists|p: int|
                    0 <= p < i && token_at(s@, p, w),
        decreases n - i,
    {
        let ghost before = r@;
        match token_len_at(&s, i) {
            Some(k) => {
                let name = string_from_chars(slice_subrange(s.as_slice(), i + 2, i + 2 + k));
                if !contains_name(&r, &name) {
                    r.push(name);
                    proof {
                        assert forall|w: Seq<char>|
                            #[trigger] names_of(r@).contains(w) <==> names_of(before).contains(w)
                                || w == name@ by {
                            if names_of(r@).contains(w) {
                                let a = choose|a: int| 0 <= a < r@.len() && r@[a]@ == w;
                                if a < before.len() {
                                    assert(before[a] == r@[a]);
                                }
                            }
                            if names_of(before).contains(w) {
                                let a = choose|a: int| 0 <= a < before.len() && before[a]@ == w;
                                assert(r@[a] == before[a]);
                            }
                            if w == name@ {
                                assert(r@[before.len() as int]@ == w);
                            }
                        }
                    }
                }
                proof {
                    assert forall|w: Seq<char>|
                        #[trigger] names_of(r@).contains(w) <==> exists|p: int|
                            0 <= p < i + 1 && token_at(s@, p, w) by {
                        if exists|p: int| 0 <= p < i + 1 && token_at(s@, p, w) {
                            let p = choose|p: int| 0 <= p < i + 1 && token_at(s@, p, w);
                            if p == i {
                                lemma_token_chars(s@, p, w);
                                lemma_token_chars(s@, p, name@);
                                lemma_same_name_at(s@, p, w, name@);
                            }
                        }
                    }
                }
            },
            None => {
                proof {
                    assert forall|w: Seq<char>|
                        #[trigger] names_of(r@).contains(w) <==> exists|p: int|
                            0 <= p < i + 1 && token_at(s@, p, w) by {
                        if exists|p: int| 0 <= p < i + 1 && token_at(s@, p, w) {
                            let p = choose|p: int| 0 <= p < i + 1 && token_at(s@, p, w);
                            assert(p < i);
                        }
                    }
                }
            },
        }
        i = i + 1;
    }
    proof {
        assert(names_of(r@) =~= token_names(file_content@));
    }
    r
}

/// At most one token starts at a given position.
pub proof fn lemma_same_name_at(s: Seq<char>, i: int, v: Seq<char>, w: Seq<char>)
    requires
        token_at(s, i, v),
        token_at(s, i, w),
    ensures
        v == w,
{
    lemma_token_chars(s, i, v);
    lemma_token_chars(s, i, w);
    if v.len() < w.len() {
        assert(is_name_char(w[v.len() as int]));
    } else if w.len() < v.len() {
        assert(is_name_char(v[w.len() as int]));
    }
    assert(v =~= w);
}

/// The names of `tokens_from_file` that are not among `env_var_names`.
pub fn unknown_tokens(
    tokens_from_file: &Vec<String>,
    env_var_names: &Vec<String>,
) -> (r: Vec<String>)
    ensures
        names_of(r@) == names_of(tokens_from_file@).difference(names_of(env_var_names@)),
        all_distinct(tokens_from_file@) ==> all_distinct(r@),
{
    let mut r: Vec<String> = Vec::new();
    let mut i: usize = 0;
    while i < tokens_from_file.len()
        invariant
            i <= tokens_from_file.len(),
            forall|k: int|
                0 <= k < r.len() ==> exists|j: int|
                    0 <= j < i && #[trigger] r@[k]@ == tokens_from_file@[j]@,
            forall|w: Seq<char>|
                #[trigger] names_of(r@).contains(w) <==> (exists|j: int|
                    0 <= j < i && tokens_from_file@[j]@ == w) && !names_of(
                    env_var_names@,
                ).contains(w),
            all_distinct(tokens_from_file@) ==> all_distinct(r@),
        decreases tokens_from_file.len() - i,
    {
        let ghost before = r@;
        let t = &tokens_from_file[i];
        if !contains_name(env_var_names, t) {
            r.push(t.clone());
            proof {
                assert(r@[before.len() as int]@ == tokens_from_file@[i as int]@);
                if all_distinct(tokens_from_file@) {
                    assert forall|a: int, b: int| 0 <= a < b < r@.len() implies r@[a]@
                        != r@[b]@ by {
                        if b == before.len() {
                            assert(r@[a] == before[a]);
                            let j = choose|j: int| 0 <= j < i && before[a]@ == tokens_from_file@[j]@;
                        }
                    }
                }
            }
        }
        proof {
            assert forall|k: int| 0 <= k < r.len() implies exists|j: int|
                0 <= j < i + 1 && #[trigger] r@[k]@ == tokens_from_file@[j]@ by {
                if k < before.len() {
                    assert(r@[k] == before[k]);
                    let j = choose|j: int| 0 <= j < i && before[k]@ == tokens_from_file@[j]@;
                    assert(r@[k]@ == tokens_from_file@[j]@);
                } else {
                    assert(r@[k]@ == tokens_from_file@[i as int]@);
                }
            }
            assert forall|w: Seq<char>|
                #[trigger] names_of(r@).contains(w) <==> (exists|j: int|
                    0 <= j < i + 1 && tokens_from_file@[j]@ == w) && !names_of(
                    env_var_names@,
                ).contains(w) by {
                if names_of(r@).contains(w) {
                    let a = choose|a: int| 0 <= a < r@.len() && r@[a]@ == w;
                    if a < before.len() {
                        assert(before[a] == r@[a]);
                        assert(names_of(before).contains(w));
                    }
                }
                if names_of(before).contains(w) {
                    let a = choose|a: int| 0 <= a < before.len() && before[a]@ == w;
                    assert(r@[a] == before[a]);
                }
                if exists|j: int| 0 <= j < i + 1 && tokens_from_file@[j]@ == w {
                    let j = choose|j: int| 0 <= j < i + 1 && tokens_from_file@[j]@ == w;
                    if j == i && !names_of(env_var_names@).contains(w) {
                        assert(r@[before.len() as int]@ == w);
                    }
                }
            }
        }
        i = i + 1;
    }
    proof {
        assert(names_of(r@) =~= names_of(tokens_from_file@).difference(names_of(env_var_names@)));
    }
    r
}

/// Relies on `<String as FromIterator<char>>::from_iter` (through `collect`): the string of
/// those characters, in order.
#[verifier::external_body]
pub(crate) fn string_from_chars(c: &[char]) -> (r: String)
    ensures
        r@ == c@,
{
    c.iter().collect()
}

/// The characters of `s`, in order.
pub fn chars_of(s: &str) -> (r: Vec<char>)
    ensures
        r@ == s@,
{
    let mut it = s.chars();
    let mut v: Vec<char> = Vec::new();
    proof {
        vstd::string::axiom_spec_iter(s);
    }
    loop
        invariant
            v@ + it.remaining() == s@,
            it.decrease() is Some,
        ensures
            v@ == s@,
        decreases it.decrease()->0,
    {
        match it.next() {
            Some(c) => {
                v.push(c);
            },
            None => {
                proof {
                    assert(v@ + Seq::<char>::empty() =~= v@);
                }
                break;
            },
        }
    }
    v
}

} // verus!
