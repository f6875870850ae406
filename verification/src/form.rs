use crate::text::chars_of;
use vstd::prelude::*;

verus! {

/// Unicode `White_Space`, the characters that `char::is_whitespace` accepts.
pub open spec fn is_white_space(c: char) -> bool {
    ||| ('\u{9}' <= c && c <= '\u{d}')
    ||| c == ' '
    ||| c == '\u{85}'
    ||| c == '\u{a0}'
    ||| c == '\u{1680}'
    ||| ('\u{2000}' <= c && c <= '\u{200a}')
    ||| c == '\u{2028}'
    ||| c == '\u{2029}'
    ||| c == '\u{202f}'
    ||| c == '\u{205f}'
    ||| c == '\u{3000}'
}

fn white_space(c: char) -> (r: bool)
    ensures
        r == is_white_space(c),
{
    ('\u{9}' <= c && c <= '\u{d}') || c == ' ' || c == '\u{85}' || c == '\u{a0}' || c == '\u{1680}'
        || ('\u{2000}' <= c && c <= '\u{200a}') || c == '\u{2028}' || c == '\u{2029}' || c == '\u{202f}'
        || c == '\u{205f}' || c == '\u{3000}'
}

/// `s` without its leading white space.
pub open spec fn trim_start(s: Seq<char>) -> Seq<char>
    decreases s.len(),
{
    if s.len() > 0 && is_white_space(s[0]) {
        trim_start(s.drop_first())
    } else {
        s
    }
}

/// `s` without its trailing white space.
pub open spec fn trim_end(s: Seq<char>) -> Seq<char>
    decreases s.len(),
{
    if s.len() > 0 && is_white_space(s.last()) {
        trim_end(s.drop_last())
    } else {
        s
    }
}

/// `s` without leading and trailing white space, as `str::trim` gives it.
pub open spec fn trimmed(s: Seq<char>) -> Seq<char> {
    trim_end(trim_start(s))
}

proof fn lemma_trim_start_at(s: Seq<char>, i: int)
    requires
        0 <= i <= s.len(),
        forall|k: int| 0 <= k < i ==> is_white_space(#[trigger] s[k]),
        i == s.len() || !is_white_space(s[i]),
    ensures
        trim_start(s) == s.skip(i),
    decreases i,
{
    if i == 0 {
        assert(s.skip(0) =~= s);
    } else {
        assert forall|k: int| 0 <= k < i - 1 implies is_white_space(#[trigger] s.drop_first()[k]) by {
            assert(s.drop_first()[k] == s[k + 1]);
        }
        if i - 1 < s.drop_first().len() {
            assert(s.drop_first()[i - 1] == s[i]);
        }
        lemma_trim_start_at(s.drop_first(), i - 1);
        assert(s.drop_first().skip(i - 1) =~= s.skip(i));
    }
}

proof fn lemma_trim_end_at(s: Seq<char>, j: int)
    requires
        0 <= j <= s.len(),
        forall|k: int| j <= k < s.len() ==> is_white_space(#[trigger] s[k]),
        j == 0 || !is_white_space(s[j - 1]),
    ensures
        trim_end(s) == s.take(j),
    decreases s.len() - j,
{
    if j == s.len() {
        assert(s.take(j) =~= s);
    } else {
        assert forall|k: int| j <= k < s.len() - 1 implies is_white_space(#[trigger] s.drop_last()[k]) by {
            assert(s.drop_last()[k] == s[k]);
        }
        if j > 0 {
            assert(s.drop_last()[j - 1] == s[j - 1]);
        }
        assert(is_white_space(s[s.len() - 1]));
        lemma_trim_end_at(s.drop_last(), j);
        assert(s.drop_last().take(j) =~= s.take(j));
    }
}

proof fn lemma_trim_start_shape(s: Seq<char>)
    ensures
        exists|i: int|
            0 <= i <= s.len() && trim_start(s) == s.skip(i) && forall|k: int| 0 <= k < i ==> is_white_space(#[trigger] s[k]),
        trim_start(s).len() > 0 ==> !is_white_space(trim_start(s)[0]),
    decreases s.len(),
{
    if s.len() > 0 && is_white_space(s[0]) {
        let t = s.drop_first();
        lemma_trim_start_shape(t);
        let i = choose|i: int|
            0 <= i <= t.len() && trim_start(t) == t.skip(i) && forall|k: int| 0 <= k < i ==> is_white_space(#[trigger] t[k]);
        assert(t.skip(i) =~= s.skip(i + 1));
        assert forall|k: int| 0 <= k < i + 1 implies is_white_space(#[trigger] s[k]) by {
            if k > 0 {
                assert(s[k] == t[k - 1]);
            }
        }
    } else {
        assert(s.skip(0) =~= s);
    }
}

proof fn lemma_trim_end_shape(s: Seq<char>)
    ensures
        exists|j: int|
            0 <= j <= s.len() && trim_end(s) == s.take(j) && forall|k: int| j <= k < s.len() ==> is_white_space(
                #[trigger] s[k],
            ),
        trim_end(s).len() > 0 ==> !is_white_space(trim_end(s).last()),
    decreases s.len(),
{
    if s.len() > 0 && is_white_space(s.last()) {
        let t = s.drop_last();
        lemma_trim_end_shape(t);
        let j = choose|j: int|
            0 <= j <= t.len() && trim_end(t) == t.take(j) && forall|k: int| j <= k < t.len() ==> is_white_space(#[trigger] t[k]);
        assert(t.take(j) =~= s.take(j));
        assert forall|k: int| j <= k < s.len() implies is_white_space(#[trigger] s[k]) by {
            if k < s.len() - 1 {
                assert(s[k] == t[k]);
            }
        }
    } else {
        assert(s.take(s.len() as int) =~= s);
    }
}

/// Trimming cuts a run of white space from each end and nothing else: what
/// is left is a contiguous part of `s`, everything before and after it is
/// white space, and it neither starts nor ends with white space.
pub proof fn lemma_trimmed_shape(s: Seq<char>)
    ensures
        exists|i: int, j: int|
            0 <= i <= j <= s.len() && trimmed(s) == s.subrange(i, j) && (forall|k: int|
                0 <= k < i ==> is_white_space(#[trigger] s[k])) && (forall|k: int|
                j <= k < s.len() ==> is_white_space(#[trigger] s[k])),
        trimmed(s).len() > 0 ==> !is_white_space(trimmed(s)[0]) && !is_white_space(trimmed(s).last()),
{
    lemma_trim_start_shape(s);
    let i = choose|i: int|
        0 <= i <= s.len() && trim_start(s) == s.skip(i) && forall|k: int| 0 <= k < i ==> is_white_space(#[trigger] s[k]);
    let t = s.skip(i);
    lemma_trim_end_shape(t);
    let j = choose|j: int|
        0 <= j <= t.len() && trim_end(t) == t.take(j) && forall|k: int| j <= k < t.len() ==> is_white_space(#[trigger] t[k]);
    assert(t.take(j) =~= s.subrange(i, i + j));
    assert forall|k: int| i + j <= k < s.len() implies is_white_space(#[trigger] s[k]) by {
        assert(s[k] == t[k - i]);
    }
    if trimmed(s).len() > 0 {
        assert(trimmed(s)[0] == trim_start(s)[0]);
    }
}

/// A form field's text with surrounding white space removed, or `None` when
/// nothing is left.
pub fn nonempty(s: &str) -> (r: Option<String>)
    ensures
        match r {
            Some(t) => t@ == trimmed(s@) && t@.len() > 0,
            None => trimmed(s@).len() == 0,
        },
{
    let v = chars_of(s);
    let n = v.len();
    let mut i: usize = 0;
    while i < n && white_space(v[i])
        invariant
            n == v@.len(),
            v@ == s@,
            i <= n,
            forall|k: int| 0 <= k < i ==> is_white_space(#[trigger] v@[k]),
        decreases n - i,
    {
        i = i + 1;
    }
    proof {
        lemma_trim_start_at(v@, i as int);
    }
    let ghost t = v@.skip(i as int);
    let mut j: usize = n;
    while j > i && white_space(v[j - 1])
        invariant
            n == v@.len(),
            v@ == s@,
            i <= j <= n,
            t == v@.skip(i as int),
            forall|k: int| j <= k < n ==> is_white_space(#[trigger] v@[k]),
        decreases j,
    {
        j = j - 1;
    }
    proof {
        assert forall|k: int| j - i <= k < t.len() implies is_white_space(#[trigger] t[k]) by {
            assert(t[k] == v@[k + i]);
        }
        if j > i {
            assert(t[j - i - 1] == v@[j - 1]);
        }
        lemma_trim_end_at(t, j - i);
        assert(t.take(j - i) =~= v@.subrange(i as int, j as int));
    }
    if i == j {
        None
    } else {
        let part = s.substring_char(i, j);
        Some(String::from_str(part))
    }
}

} // verus!
