use vstd::prelude::*;
use vstd::std_specs::iter::IteratorSpec;

verus! {

/// The characters of `s`, in order.
pub fn chars_of(s: &str) -> (v: Vec<char>)
    ensures
        v@ == s@,
{
    let mut v: Vec<char> = Vec::new();
    let mut it = s.chars();
    proof {
        broadcast use vstd::string::group_string_axioms;
    }
    loop
        invariant
            it.remaining() == s@.skip(v@.len() as int),
            v@ == s@.take(v@.len() as int),
            v@.len() <= s@.len(),
        ensures
            v@ == s@,
        decreases s@.len() - v@.len(),
    {
        match it.next() {
            Some(c) => {
                proof { broadcast use vstd::string::group_string_axioms; }
                v.push(c);
            }
            None => {
                assert(v@ =~= s@);
                break;
            }
        }
    }
    v
}

/// `c` with an ASCII capital letter mapped to its small letter.
pub open spec fn lower_char(c: char) -> char {
    if 'A' <= c && c <= 'Z' {
        ((c as u32) + 32) as char
    } else {
        c
    }
}

/// `s` with every ASCII capital letter mapped to its small letter; other
/// characters are kept.
pub open spec fn ascii_lower(s: Seq<char>) -> Seq<char> {
    s.map_values(|c: char| lower_char(c))
}

/// Maps an ASCII capital letter to its small letter.
pub fn to_lower_char(c: char) -> (r: char)
    ensures
        r == lower_char(c),
{
    if 'A' <= c && c <= 'Z' {
        let b: u8 = c as u8;
        (b + 32) as char
    } else {
        c
    }
}

/// The characters of `s`, ASCII letters made small.
pub fn lower_chars(s: &str) -> (v: Vec<char>)
    ensures
        v@ == ascii_lower(s@),
{
    let cs = chars_of(s);
    let mut v: Vec<char> = Vec::new();
    let mut i: usize = 0;
    while i < cs.len()
        invariant
            i <= cs@.len(),
            cs@ == s@,
            v@ == ascii_lower(cs@.take(i as int)),
        decreases cs@.len() - i,
    {
        let c = to_lower_char(cs[i]);
        assert(ascii_lower(cs@.take(i + 1)) =~= ascii_lower(cs@.take(i as int)).push(c));
        v.push(c);
        i = i + 1;
    }
    assert(cs@.take(cs@.len() as int) =~= cs@);
    v
}

/// Whether the characters `v` spell out `word`.
pub fn spells(v: &Vec<char>, word: &str) -> (r: bool)
    ensures
        r == (v@ == word@),
{
    let w = chars_of(word);
    if v.len() != w.len() {
        return false;
    }
    let mut i: usize = 0;
    while i < v.len()
        invariant
            v@.len() == w@.len(),
            w@ == word@,
            i <= v@.len(),
            forall|k: int| 0 <= k < i ==> v@[k] == w@[k],
        decreases v@.len() - i,
    {
        if v[i] != w[i] {
            return false;
        }
        i = i + 1;
    }
    assert(v@ =~= w@);
    true
}

/// The ASCII digit for `d` (below 10).
pub open spec fn digit_char(d: nat) -> char {
    (48 + d) as char
}

/// The decimal digits of `n`, most significant first, without leading zeros
/// ("0" for zero).
pub open spec fn decimal(n: nat) -> Seq<char>
    decreases n,
{
    if n < 10 {
        seq![digit_char(n)]
    } else {
        decimal(n / 10).push(digit_char(n % 10))
    }
}

/// Appends the decimal digits of `n`.
pub fn push_decimal(out: &mut Vec<char>, n: u32)
    ensures
        final(out)@ == old(out)@ + decimal(n as nat),
    decreases n,
{
    if n >= 10 {
        push_decimal(out, n / 10);
    }
    let d: u8 = (n % 10) as u8;
    let c: char = (48u8 + d) as char;
    out.push(c);
    assert(final(out)@ =~= old(out)@ + decimal(n as nat)) by {
        if n >= 10 {
            assert(decimal(n as nat) == decimal((n / 10) as nat).push(digit_char((n % 10) as nat)));
        }
    }
}

/// Appends `c` with `String::push`. Trusted: the string gets `c` at its end.
#[verifier::external_body]
fn push_char(s: &mut String, c: char)
    ensures
        final(s)@ == old(s)@.push(c),
{
    s.push(c);
}

/// A `String` of the characters `chars`.
pub fn string_of(chars: &Vec<char>) -> (s: String)
    ensures
        s@ == chars@,
{
    let mut s = String::new();
    let mut i: usize = 0;
    while i < chars.len()
        invariant
            i <= chars@.len(),
            s@ == chars@.take(i as int),
        decreases chars@.len() - i,
    {
        push_char(&mut s, chars[i]);
        assert(chars@.take(i + 1) =~= chars@.take(i as int).push(chars@[i as int]));
        i = i + 1;
    }
    assert(chars@.take(chars@.len() as int) =~= chars@);
    s
}

/// `word` occurs in `s` at some position.
pub open spec fn has_substring(s: Seq<char>, word: Seq<char>) -> bool {
    exists|i: int| 0 <= i && i + word.len() <= s.len() && #[trigger] s.subrange(i, i + word.len()) == word
}

/// Whether `word` occurs in `s`.
pub fn contains_str(s: &str, word: &str) -> (r: bool)
    ensures
        r == has_substring(s@, word@),
{
    let v = chars_of(s);
    let w = chars_of(word);
    if w.len() > v.len() {
        return false;
    }
    let vn = v.len();
    let wn = w.len();
    let mut i: usize = 0;
    while i <= vn - wn
        invariant
            vn == v@.len(),
            wn == w@.len(),
            v@ == s@,
            w@ == word@,
            w@.len() <= v@.len(),
            i <= v@.len() - w@.len() + 1,
            forall|k: int| 0 <= k < i ==> #[trigger] v@.subrange(k, k + w@.len()) != w@,
        decreases v@.len() - i,
    {
        let mut j: usize = 0;
        let mut same = true;
        while j < wn
            invariant
                vn == v@.len(),
                wn == w@.len(),
                i + w@.len() <= v@.len(),
                j <= w@.len(),
                same == (forall|t: int| 0 <= t < j ==> v@[i + t] == w@[t]),
            decreases w@.len() - j,
        {
            if v[i + j] != w[j] {
                same = false;
            }
            j = j + 1;
        }
        if same {
            assert(v@.subrange(i as int, i + w@.len()) =~= w@);
            return true;
        }
        assert(v@.subrange(i as int, i + w@.len()) != w@) by {
            let t = choose|t: int| 0 <= t < w@.len() && v@[i + t] != w@[t];
            assert(v@.subrange(i as int, i + w@.len())[t] != w@[t]);
        }
        i = i + 1;
    }
    assert(!has_substring(s@, word@)) by {
        if has_substring(s@, word@) {
            let k = choose|k: int| 0 <= k && k + word@.len() <= s@.len() && #[trigger] s@.subrange(k, k + word@.len()) == word@;
            assert(k < i);
        }
    }
    false
}

} // verus!
