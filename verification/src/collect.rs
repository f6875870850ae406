use std::cmp::Ordering;
use crate::cli::Sort;
use crate::text::{ascii_lower, decimal, digit_char, lower_chars, spells};
use vstd::prelude::*;

verus! {

/// An ASCII decimal digit.
pub open spec fn is_digit(c: char) -> bool {
    '0' <= c && c <= '9'
}

/// The numeric value of an ASCII digit.
pub open spec fn digit_value(c: char) -> nat {
    (c as int - '0' as int) as nat
}

/// Length of the run of digits that `s` starts with.
pub open spec fn digit_run_len(s: Seq<char>) -> nat
    decreases s.len(),
{
    if s.len() > 0 && is_digit(s[0]) {
        1 + digit_run_len(s.drop_first())
    } else {
        0
    }
}

/// The decimal number that a run of digits spells.
pub open spec fn decimal_value(s: Seq<char>) -> nat
    decreases s.len(),
{
    if s.len() == 0 {
        0
    } else {
        decimal_value(s.drop_last()) * 10 + digit_value(s.last())
    }
}

/// The number at the start of `s`, saturated at `u128::MAX`.
pub open spec fn leading_number(s: Seq<char>) -> nat {
    let v = decimal_value(s.take(digit_run_len(s) as int));
    if v <= u128::MAX { v } else { u128::MAX as nat }
}

/// What follows the number at the start of `s`.
pub open spec fn after_number(s: Seq<char>) -> Seq<char> {
    s.skip(digit_run_len(s) as int)
}

pub proof fn lemma_digit_run_len_bound(s: Seq<char>)
    ensures
        digit_run_len(s) <= s.len(),
        s.len() > 0 && is_digit(s[0]) ==> digit_run_len(s) >= 1,
    decreases s.len(),
{
    if s.len() > 0 && is_digit(s[0]) {
        lemma_digit_run_len_bound(s.drop_first());
    }
}

/// Natural order of two strings: runs of digits compare by their numeric
/// value, every other character by its code point, and a string that is a
/// prefix of the other comes first.
pub open spec fn natural_order(a: Seq<char>, b: Seq<char>) -> Ordering
    decreases a.len() + b.len(),
{
    if a.len() == 0 {
        if b.len() == 0 { Ordering::Equal } else { Ordering::Less }
    } else if b.len() == 0 {
        Ordering::Greater
    } else if is_digit(a[0]) && is_digit(b[0]) {
        proof {
            lemma_digit_run_len_bound(a);
            lemma_digit_run_len_bound(b);
        }
        let na = leading_number(a);
        let nb = leading_number(b);
        if na < nb {
            Ordering::Less
        } else if na > nb {
            Ordering::Greater
        } else {
            natural_order(after_number(a), after_number(b))
        }
    } else if a[0] < b[0] {
        Ordering::Less
    } else if a[0] > b[0] {
        Ordering::Greater
    } else {
        natural_order(a.drop_first(), b.drop_first())
    }
}

pub proof fn lemma_digit_run_len_chars(s: Seq<char>)
    ensures
        forall|k: int| 0 <= k < digit_run_len(s) ==> #[trigger] is_digit(s[k]),
        digit_run_len(s) < s.len() ==> !is_digit(s[digit_run_len(s) as int]),
        digit_run_len(s) <= s.len(),
    decreases s.len(),
{
    if s.len() > 0 && is_digit(s[0]) {
        lemma_digit_run_len_chars(s.drop_first());
        assert forall|k: int| 0 <= k < digit_run_len(s) implies #[trigger] is_digit(s[k]) by {
            if k > 0 {
                assert(s[k] == s.drop_first()[k - 1]);
            }
        }
    }
}

pub proof fn lemma_decimal_value_push(s: Seq<char>, k: int)
    requires
        0 <= k < s.len(),
    ensures
        decimal_value(s.take(k + 1)) == decimal_value(s.take(k)) * 10 + digit_value(s[k]),
{
    assert(s.take(k + 1).drop_last() =~= s.take(k));
}

/// Reads the run of digits that starts at `start`, saturating at `u128::MAX`,
/// and returns its value with the index just past it.
fn take_number(s: &Vec<char>, start: usize) -> (res: (u128, usize))
    requires
        start <= s@.len(),
    ensures
        res.0 == leading_number(s@.skip(start as int)),
        res.1 == start + digit_run_len(s@.skip(start as int)),
{
    let ghost t = s@.skip(start as int);
    proof {
        lemma_digit_run_len_chars(t);
    }
    let mut n: u128 = 0;
    let mut i: usize = start;
    while i < s.len() && '0' <= s[i] && s[i] <= '9'
        invariant
            start <= i <= s@.len(),
            t == s@.skip(start as int),
            i - start <= digit_run_len(t),
            forall|k: int| 0 <= k < digit_run_len(t) ==> #[trigger] is_digit(t[k]),
            digit_run_len(t) < t.len() ==> !is_digit(t[digit_run_len(t) as int]),
            digit_run_len(t) <= t.len(),
            n as int == (if decimal_value(t.take(i - start)) <= u128::MAX {
                decimal_value(t.take(i - start)) as int
            } else {
                u128::MAX as int
            }),
        decreases s@.len() - i,
    {
        let c = s[i];
        let d: u128 = (c as u32 - '0' as u32) as u128;
        proof {
            lemma_decimal_value_push(t, i - start);
            assert(t[i - start] == c);
            if i - start == digit_run_len(t) {
                assert(!is_digit(t[i - start]));
            }
        }
        if n > (u128::MAX - d) / 10 {
            n = u128::MAX;
        } else {
            n = n * 10 + d;
        }
        i = i + 1;
    }
    proof {
        if i - start < digit_run_len(t) {
            assert(is_digit(t[i - start]));
            assert(t[i - start] == s@[i as int]);
        }
    }
    (n, i)
}

/// The part of `s` from index `i` on.
pub open spec fn suffix_from(s: Seq<char>, i: usize) -> Seq<char> {
    s.skip(i as int)
}

/// Compares two strings in natural order (see `natural_order`).
fn natural_cmp(a: &Vec<char>, b: &Vec<char>) -> (res: Ordering)
    ensures
        res == natural_order(a@, b@),
{
    let mut i: usize = 0;
    let mut j: usize = 0;
    assert(a@.skip(0) =~= a@);
    assert(b@.skip(0) =~= b@);
    loop
        invariant
            i <= a@.len(),
            j <= b@.len(),
            natural_order(a@, b@) == natural_order(suffix_from(a@, i), suffix_from(b@, j)),
        decreases a@.len() - i + b@.len() - j,
    {
        let ghost sa = suffix_from(a@, i);
        let ghost sb = suffix_from(b@, j);
        if i == a.len() {
            assert(sa.len() == 0);
            if j == b.len() {
                return Ordering::Equal;
            } else {
                return Ordering::Less;
            }
        }
        if j == b.len() {
            assert(sb.len() == 0);
            return Ordering::Greater;
        }
        let ca = a[i];
        let cb = b[j];
        assert(sa[0] == ca);
        assert(sb[0] == cb);
        if '0' <= ca && ca <= '9' && '0' <= cb && cb <= '9' {
            let (na, ni) = take_number(a, i);
            let (nb, nj) = take_number(b, j);
            proof {
                lemma_digit_run_len_bound(sa);
                lemma_digit_run_len_bound(sb);
                assert(after_number(sa) =~= suffix_from(a@, ni));
                assert(after_number(sb) =~= suffix_from(b@, nj));
            }
            if na < nb {
                return Ordering::Less;
            } else if na > nb {
                return Ordering::Greater;
            }
            i = ni;
            j = nj;
        } else if ca < cb {
            return Ordering::Less;
        } else if ca > cb {
            return Ordering::Greater;
        } else {
            assert(sa.drop_first() =~= a@.skip(i + 1));
            assert(sb.drop_first() =~= b@.skip(j + 1));
            i = i + 1;
            j = j + 1;
        }
    }
}

/// `o` seen from the other side.
pub open spec fn flipped(o: Ordering) -> Ordering {
    match o {
        Ordering::Less => Ordering::Greater,
        Ordering::Equal => Ordering::Equal,
        Ordering::Greater => Ordering::Less,
    }
}

/// Every string is equal to itself in natural order.
pub proof fn lemma_natural_order_reflexive(a: Seq<char>)
    ensures
        natural_order(a, a) == Ordering::Equal,
    decreases a.len(),
{
    if a.len() > 0 {
        lemma_digit_run_len_bound(a);
        if is_digit(a[0]) {
            lemma_natural_order_reflexive(after_number(a));
        } else {
            lemma_natural_order_reflexive(a.drop_first());
        }
    }
}

/// Swapping the two strings flips the natural order.
pub proof fn lemma_natural_order_antisymmetric(a: Seq<char>, b: Seq<char>)
    ensures
        natural_order(b, a) == flipped(natural_order(a, b)),
    decreases a.len() + b.len(),
{
    if a.len() > 0 && b.len() > 0 {
        lemma_digit_run_len_bound(a);
        lemma_digit_run_len_bound(b);
        if is_digit(a[0]) && is_digit(b[0]) {
            lemma_natural_order_antisymmetric(after_number(a), after_number(b));
        } else if a[0] == b[0] {
            lemma_natural_order_antisymmetric(a.drop_first(), b.drop_first());
        }
    }
}

/// Natural order is transitive, and two steps that are not both `Equal`
/// give a strict result.
pub proof fn lemma_natural_order_transitive(a: Seq<char>, b: Seq<char>, c: Seq<char>)
    requires
        natural_order(a, b) != Ordering::Greater,
        natural_order(b, c) != Ordering::Greater,
    ensures
        natural_order(a, c) != Ordering::Greater,
        natural_order(a, c) == Ordering::Equal ==> natural_order(a, b) == Ordering::Equal
            && natural_order(b, c) == Ordering::Equal,
    decreases a.len() + b.len() + c.len(),
{
    if a.len() > 0 && b.len() > 0 && c.len() > 0 {
        lemma_digit_run_len_bound(a);
        lemma_digit_run_len_bound(b);
        lemma_digit_run_len_bound(c);
        if is_digit(a[0]) && is_digit(b[0]) && is_digit(c[0]) {
            if leading_number(a) == leading_number(b) && leading_number(b) == leading_number(c) {
                lemma_natural_order_transitive(after_number(a), after_number(b), after_number(c));
            }
        } else if !is_digit(a[0]) && !is_digit(b[0]) && !is_digit(c[0]) {
            if a[0] == b[0] && b[0] == c[0] {
                lemma_natural_order_transitive(a.drop_first(), b.drop_first(), c.drop_first());
            }
        }
    }
}

/// Whether file `i` goes strictly before file `j` when ordering by `sort`:
/// by natural order of the ASCII-lowercased path, by modification time, or
/// never (the given order is kept).
pub open spec fn goes_before(sort: Sort, files: Seq<String>, mtimes: Seq<i128>, i: int, j: int) -> bool {
    match sort {
        Sort::Name => natural_order(ascii_lower(files[i]@), ascii_lower(files[j]@)) == Ordering::Less,
        Sort::Time => mtimes[i] < mtimes[j],
        Sort::Given => false,
    }
}

/// `p` lists each index below `n` exactly once.
pub open spec fn is_index_permutation(p: Seq<int>, n: int) -> bool {
    &&& p.len() == n
    &&& forall|k: int| 0 <= k < n ==> 0 <= #[trigger] p[k] < n
    &&& forall|k1: int, k2: int| 0 <= k1 < k2 < n ==> #[trigger] p[k1] != #[trigger] p[k2]
    &&& forall|v: int| 0 <= v < n ==> #[trigger] p.contains(v)
}

/// Taking the files in the order of the indices `p` sorts them by `sort`,
/// and files that neither goes before the other keep their given order.
pub open spec fn is_stable_order(sort: Sort, files: Seq<String>, mtimes: Seq<i128>, p: Seq<int>) -> bool {
    forall|k1: int, k2: int|
        0 <= k1 < k2 < p.len() ==> {
            &&& !goes_before(sort, files, mtimes, #[trigger] p[k2], #[trigger] p[k1])
            &&& (!goes_before(sort, files, mtimes, p[k1], p[k2]) ==> p[k1] < p[k2])
        }
}

/// `result` is `files` taken in the order `p`, back to front when `reverse`.
pub open spec fn is_arranged(result: Seq<String>, files: Seq<String>, p: Seq<int>, reverse: bool) -> bool {
    &&& result.len() == p.len()
    &&& forall|k: int|
        0 <= k < p.len() ==> #[trigger] result[k] == files[if reverse {
            p[p.len() - 1 - k]
        } else {
            p[k]
        }]
}

/// `result` is `files` put in frame order: stably sorted by `sort`, and back
/// to front when `reverse`.
pub open spec fn is_ordered(result: Seq<String>, files: Seq<String>, mtimes: Seq<i128>, sort: Sort, reverse: bool) -> bool {
    exists|p: Seq<int>|
        {
            &&& is_index_permutation(p, files.len() as int)
            &&& is_stable_order(sort, files, mtimes, p)
            &&& is_arranged(result, files, p, reverse)
        }
}

/// `goes_before` is a strict order: never both ways.
pub proof fn lemma_goes_before_asymmetric(sort: Sort, files: Seq<String>, mtimes: Seq<i128>, i: int, j: int)
    ensures
        goes_before(sort, files, mtimes, i, j) ==> !goes_before(sort, files, mtimes, j, i),
{
    if sort == Sort::Name {
        lemma_natural_order_antisymmetric(ascii_lower(files[i]@), ascii_lower(files[j]@));
    }
}

/// If `y` does not go before `x` and `y` goes before `z`, then `x` goes
/// before `z`.
pub proof fn lemma_goes_before_chain(sort: Sort, files: Seq<String>, mtimes: Seq<i128>, x: int, y: int, z: int)
    requires
        !goes_before(sort, files, mtimes, y, x),
        goes_before(sort, files, mtimes, y, z),
    ensures
        goes_before(sort, files, mtimes, x, z),
{
    if sort == Sort::Name {
        let lx = ascii_lower(files[x]@);
        let ly = ascii_lower(files[y]@);
        let lz = ascii_lower(files[z]@);
        lemma_natural_order_antisymmetric(ly, lx);
        lemma_natural_order_transitive(lx, ly, lz);
    }
}

/// A file together with what it is ordered by.
struct Entry {
    path: String,
    key: Vec<char>,
    time: i128,
}

/// `e` stands for file `idx`.
spec fn entry_matches(sort: Sort, e: Entry, files: Seq<String>, mtimes: Seq<i128>, idx: int) -> bool {
    &&& e.path == files[idx]
    &&& (sort == Sort::Name ==> e.key@ == ascii_lower(files[idx]@))
    &&& (sort == Sort::Time ==> e.time == mtimes[idx])
}

fn entry_before(
    a: &Entry,
    b: &Entry,
    sort: Sort,
    Ghost(files): Ghost<Seq<String>>,
    Ghost(mtimes): Ghost<Seq<i128>>,
    Ghost(i): Ghost<int>,
    Ghost(j): Ghost<int>,
) -> (r: bool)
    requires
        entry_matches(sort, *a, files, mtimes, i),
        entry_matches(sort, *b, files, mtimes, j),
    ensures
        r == goes_before(sort, files, mtimes, i, j),
{
    match sort {
        Sort::Name => match natural_cmp(&a.key, &b.key) {
            Ordering::Less => true,
            _ => false,
        },
        Sort::Time => a.time < b.time,
        Sort::Given => false,
    }
}

/// The number of leading entries of `sorted` that go before `e`.
fn lower_bound(
    sorted: &Vec<Entry>,
    e: &Entry,
    sort: Sort,
    Ghost(files): Ghost<Seq<String>>,
    Ghost(mtimes): Ghost<Seq<i128>>,
    Ghost(p): Ghost<Seq<int>>,
    Ghost(i): Ghost<int>,
) -> (pos: usize)
    requires
        sorted@.len() == p.len(),
        forall|k: int| 0 <= k < p.len() ==> entry_matches(sort, #[trigger] sorted@[k], files, mtimes, p[k]),
        entry_matches(sort, *e, files, mtimes, i),
        forall|k1: int, k2: int|
            0 <= k1 < k2 < p.len() ==> !goes_before(sort, files, mtimes, #[trigger] p[k2], #[trigger] p[k1]),
    ensures
        pos <= p.len(),
        forall|k: int| 0 <= k < pos ==> goes_before(sort, files, mtimes, #[trigger] p[k], i),
        forall|k: int| pos <= k < p.len() ==> !goes_before(sort, files, mtimes, #[trigger] p[k], i),
{
    let mut lo: usize = 0;
    let mut hi: usize = sorted.len();
    while lo < hi
        invariant
            0 <= lo <= hi <= p.len(),
            sorted@.len() == p.len(),
            forall|k: int| 0 <= k < p.len() ==> entry_matches(sort, #[trigger] sorted@[k], files, mtimes, p[k]),
            entry_matches(sort, *e, files, mtimes, i),
            forall|k1: int, k2: int|
                0 <= k1 < k2 < p.len() ==> !goes_before(sort, files, mtimes, #[trigger] p[k2], #[trigger] p[k1]),
            forall|k: int| 0 <= k < lo ==> goes_before(sort, files, mtimes, #[trigger] p[k], i),
            forall|k: int| hi <= k < p.len() ==> !goes_before(sort, files, mtimes, #[trigger] p[k], i),
        decreases hi - lo,
    {
        let mid = lo + (hi - lo) / 2;
        assert(entry_matches(sort, sorted@[mid as int], files, mtimes, p[mid as int]));
        if entry_before(&sorted[mid], e, sort, Ghost(files), Ghost(mtimes), Ghost(p[mid as int]), Ghost(i)) {
            assert forall|k: int| 0 <= k < mid + 1 implies goes_before(sort, files, mtimes, #[trigger] p[k], i) by {
                if k < mid {
                    assert(!goes_before(sort, files, mtimes, p[mid as int], p[k]));
                    lemma_goes_before_chain(sort, files, mtimes, p[k], p[mid as int], i);
                }
            }
            lo = mid + 1;
        } else {
            assert forall|k: int| mid <= k < p.len() implies !goes_before(sort, files, mtimes, #[trigger] p[k], i) by {
                if mid < k && goes_before(sort, files, mtimes, p[k], i) {
                    assert(!goes_before(sort, files, mtimes, p[k], p[mid as int]));
                    lemma_goes_before_chain(sort, files, mtimes, p[mid as int], p[k], i);
                }
            }
            hi = mid;
        }
    }
    lo
}

/// What a path is ordered by under `Sort::Name`: the path with ASCII
/// letters made small.
fn key(path: &str) -> (k: Vec<char>)
    ensures
        k@ == ascii_lower(path@),
{
    lower_chars(path)
}

/// The paths of `entries`, back to front.
fn paths_reversed(entries: Vec<Entry>) -> (out: Vec<String>)
    ensures
        out@.len() == entries@.len(),
        forall|k: int| 0 <= k < out@.len() ==> #[trigger] out@[k] == entries@[entries@.len() - 1 - k].path,
{
    let ghost orig = entries@;
    let mut rest = entries;
    let mut out: Vec<String> = Vec::new();
    while rest.len() > 0
        invariant
            rest@ == orig.take(rest@.len() as int),
            out@.len() + rest@.len() == orig.len(),
            forall|k: int| 0 <= k < out@.len() ==> #[trigger] out@[k] == orig[orig.len() - 1 - k].path,
        decreases rest@.len(),
    {
        let e = rest.pop().unwrap();
        out.push(e.path);
    }
    out
}

/// `v` back to front.
fn strings_reversed(v: Vec<String>) -> (out: Vec<String>)
    ensures
        out@ == v@.reverse(),
{
    let ghost orig = v@;
    let mut rest = v;
    let mut out: Vec<String> = Vec::new();
    while rest.len() > 0
        invariant
            rest@ == orig.take(rest@.len() as int),
            out@.len() + rest@.len() == orig.len(),
            forall|k: int| 0 <= k < out@.len() ==> #[trigger] out@[k] == orig[orig.len() - 1 - k],
        decreases rest@.len(),
    {
        let x = rest.pop().unwrap();
        out.push(x);
    }
    assert(out@ =~= orig.reverse());
    out
}

/// Puts `files` in frame order: by natural order of the lowercased path
/// (`Sort::Name`), by modification time (`Sort::Time`, where `mtimes[i]` is
/// the time of `files[i]`), or as given (`Sort::Given`). The sort is stable.
/// With `reverse` the result is then turned back to front.
pub fn order(files: &mut Vec<String>, mtimes: &[i128], sort: Sort, reverse: bool)
    requires
        sort == Sort::Time ==> mtimes@.len() == old(files)@.len(),
    ensures
        is_ordered(final(files)@, old(files)@, mtimes@, sort, reverse),
{
    let ghost old_files = files@;
    let ghost n = old_files.len() as int;
    let mut input: Vec<String> = Vec::new();
    std::mem::swap(files, &mut input);
    if sort == Sort::Given {
        let ghost id = Seq::new(n as nat, |k: int| k);
        if reverse {
            let out = strings_reversed(input);
            *files = out;
        } else {
            *files = input;
        }
        assert(is_arranged(files@, old_files, id, reverse));
        assert forall|v: int| 0 <= v < n implies #[trigger] id.contains(v) by {
            assert(id[v] == v);
        }
        assert(is_index_permutation(id, n));
        assert(is_stable_order(sort, old_files, mtimes@, id));
        assert(is_ordered(files@, old_files, mtimes@, sort, reverse));
        return;
    }
    let mut sorted: Vec<Entry> = Vec::new();
    let ghost mut p: Seq<int> = Seq::empty();
    while input.len() > 0
        invariant
            input@ == old_files.take(input@.len() as int),
            input@.len() <= n,
            n == old_files.len(),
            sort == Sort::Time ==> mtimes@.len() == n,
            sorted@.len() == p.len(),
            p.len() == n - input@.len(),
            forall|k: int| 0 <= k < p.len() ==> input@.len() <= #[trigger] p[k] < n,
            forall|k1: int, k2: int| 0 <= k1 < k2 < p.len() ==> #[trigger] p[k1] != #[trigger] p[k2],
            forall|v: int| input@.len() <= v < n ==> #[trigger] p.contains(v),
            forall|k: int| 0 <= k < p.len() ==> entry_matches(sort, #[trigger] sorted@[k], old_files, mtimes@, p[k]),
            is_stable_order(sort, old_files, mtimes@, p),
        decreases input@.len(),
    {
        let i = input.len() - 1;
        let path = input.pop().unwrap();
        assert(path == old_files[i as int]);
        let name_key = if sort == Sort::Name {
            key(path.as_str())
        } else {
            Vec::new()
        };
        let time: i128 = if sort == Sort::Time {
            mtimes[i]
        } else {
            0
        };
        let e = Entry { path, key: name_key, time };
        assert(entry_matches(sort, e, old_files, mtimes@, i as int));
        assert forall|k1: int, k2: int| 0 <= k1 < k2 < p.len() implies
            !goes_before(sort, old_files, mtimes@, #[trigger] p[k2], #[trigger] p[k1]) by {
            assert(is_stable_order(sort, old_files, mtimes@, p));
        }
        let pos = lower_bound(&sorted, &e, sort, Ghost(old_files), Ghost(mtimes@), Ghost(p), Ghost(i as int));
        let ghost q = p.insert(pos as int, i as int);
        proof {
            assert forall|k1: int, k2: int| 0 <= k1 < k2 < q.len() implies {
                &&& !goes_before(sort, old_files, mtimes@, #[trigger] q[k2], #[trigger] q[k1])
                &&& (!goes_before(sort, old_files, mtimes@, q[k1], q[k2]) ==> q[k1] < q[k2])
            } by {
                let a = if k1 < pos { k1 } else { k1 - 1 };
                let b = if k2 < pos { k2 } else { k2 - 1 };
                if k2 == pos {
                    assert(q[k1] == p[k1]);
                    assert(goes_before(sort, old_files, mtimes@, p[k1], i as int));
                    lemma_goes_before_asymmetric(sort, old_files, mtimes@, p[k1], i as int);
                } else if k1 == pos {
                    assert(q[k2] == p[k2 - 1]);
                    assert(!goes_before(sort, old_files, mtimes@, p[k2 - 1], i as int));
                } else {
                    assert(q[k1] == p[a]);
                    assert(q[k2] == p[b]);
                    assert(a < b);
                }
            }
        }
        proof {
            assert forall|v: int| i <= v < n implies #[trigger] q.contains(v) by {
                if v == i {
                    assert(q[pos as int] == v);
                } else {
                    assert(p.contains(v));
                    let k = choose|k: int| 0 <= k < p.len() && p[k] == v;
                    if k < pos {
                        assert(q[k] == v);
                    } else {
                        assert(q[k + 1] == v);
                    }
                }
            }
        }
        sorted.insert(pos, e);
        proof {
            p = q;
        }
    }
    assert(is_index_permutation(p, n));
    let tmp = paths_reversed(sorted);
    if reverse {
        *files = tmp;
    } else {
        let out = strings_reversed(tmp);
        *files = out;
    }
    assert(is_arranged(files@, old_files, p, reverse));
    assert(is_ordered(files@, old_files, mtimes@, sort, reverse));
}

proof fn lemma_stable_orders_agree_upto(
    sort: Sort,
    files: Seq<String>,
    mtimes: Seq<i128>,
    p: Seq<int>,
    q: Seq<int>,
    i: int,
)
    requires
        is_index_permutation(p, p.len() as int),
        is_index_permutation(q, p.len() as int),
        is_stable_order(sort, files, mtimes, p),
        is_stable_order(sort, files, mtimes, q),
        0 <= i <= p.len(),
    ensures
        forall|j: int| 0 <= j < i ==> p[j] == q[j],
    decreases i,
{
    if i > 0 {
        lemma_stable_orders_agree_upto(sort, files, mtimes, p, q, i - 1);
        let n = p.len() as int;
        let k = i - 1;
        let a = p[k];
        let b = q[k];
        if a != b {
            assert(q.contains(a));
            let m = choose|m: int| 0 <= m < q.len() && q[m] == a;
            if m < k {
                assert(p[m] == q[m]);
            }
            assert(m > k);
            assert(p.contains(b));
            let m2 = choose|m2: int| 0 <= m2 < p.len() && p[m2] == b;
            if m2 < k {
                assert(p[m2] == q[m2]);
                assert(q[m2] != q[k]);
            }
            assert(m2 > k);
            assert(!goes_before(sort, files, mtimes, p[m2], p[k]));
            assert(!goes_before(sort, files, mtimes, q[m], q[k]));
            assert(false);
        }
    }
}

/// A stable sort is unique: two orders of the same files by `sort` that both
/// are stable are the same order.
pub proof fn lemma_stable_order_unique(sort: Sort, files: Seq<String>, mtimes: Seq<i128>, p: Seq<int>, q: Seq<int>)
    requires
        is_index_permutation(p, files.len() as int),
        is_index_permutation(q, files.len() as int),
        is_stable_order(sort, files, mtimes, p),
        is_stable_order(sort, files, mtimes, q),
    ensures
        p == q,
{
    lemma_stable_orders_agree_upto(sort, files, mtimes, p, q, p.len() as int);
    assert(p =~= q);
}

/// A stable order sorts: by time, modification times never go down; by
/// name, no path comes after one that goes after it in natural order of the
/// lowercased paths; as given, the indices only go up.
pub proof fn lemma_stable_order_sorted(sort: Sort, files: Seq<String>, mtimes: Seq<i128>, p: Seq<int>)
    requires
        is_stable_order(sort, files, mtimes, p),
    ensures
        sort == Sort::Time ==> forall|k1: int, k2: int|
            0 <= k1 < k2 < p.len() ==> mtimes[#[trigger] p[k1]] <= mtimes[#[trigger] p[k2]],
        sort == Sort::Name ==> forall|k1: int, k2: int|
            0 <= k1 < k2 < p.len() ==> natural_order(ascii_lower(files[#[trigger] p[k1]]@), ascii_lower(files[#[trigger] p[k2]]@))
                != Ordering::Greater,
        sort == Sort::Given ==> forall|k1: int, k2: int| 0 <= k1 < k2 < p.len() ==> #[trigger] p[k1] < #[trigger] p[k2],
{
    if sort == Sort::Name {
        assert forall|k1: int, k2: int| 0 <= k1 < k2 < p.len() implies natural_order(
            ascii_lower(files[#[trigger] p[k1]]@),
            ascii_lower(files[#[trigger] p[k2]]@),
        ) != Ordering::Greater by {
            assert(!goes_before(sort, files, mtimes, p[k2], p[k1]));
            lemma_natural_order_antisymmetric(ascii_lower(files[p[k1]]@), ascii_lower(files[p[k2]]@));
        }
    }
    if sort == Sort::Time {
        assert forall|k1: int, k2: int| 0 <= k1 < k2 < p.len() implies mtimes[#[trigger] p[k1]] <= mtimes[#[trigger] p[k2]] by {
            assert(!goes_before(sort, files, mtimes, p[k2], p[k1]));
        }
    }
    if sort == Sort::Given {
        assert forall|k1: int, k2: int| 0 <= k1 < k2 < p.len() implies #[trigger] p[k1] < #[trigger] p[k2] by {
            assert(!goes_before(sort, files, mtimes, p[k1], p[k2]));
        }
    }
}

/// Ordering by name ignores ASCII case: two paths that differ only in the
/// case of their letters stand in the same place relative to every other
/// path.
pub proof fn lemma_name_order_ignores_case(files: Seq<String>, mtimes: Seq<i128>, i: int, k: int, j: int)
    requires
        ascii_lower(files[i]@) == ascii_lower(files[k]@),
    ensures
        goes_before(Sort::Name, files, mtimes, i, j) == goes_before(Sort::Name, files, mtimes, k, j),
        goes_before(Sort::Name, files, mtimes, j, i) == goes_before(Sort::Name, files, mtimes, j, k),
{
}

/// Ordering as given keeps the files as they are, or turns them back to
/// front with `reverse`.
pub proof fn lemma_given_order_kept(result: Seq<String>, files: Seq<String>, mtimes: Seq<i128>, reverse: bool)
    requires
        is_ordered(result, files, mtimes, Sort::Given, reverse),
    ensures
        result == (if reverse { files.reverse() } else { files }),
{
    let n = files.len() as int;
    let p = choose|p: Seq<int>|
        {
            &&& is_index_permutation(p, n)
            &&& is_stable_order(Sort::Given, files, mtimes, p)
            &&& is_arranged(result, files, p, reverse)
        };
    let id = Seq::new(n as nat, |k: int| k);
    assert forall|v: int| 0 <= v < n implies #[trigger] id.contains(v) by {
        assert(id[v] == v);
    }
    assert(is_index_permutation(id, n));
    assert(is_stable_order(Sort::Given, files, mtimes, id));
    lemma_stable_order_unique(Sort::Given, files, mtimes, p, id);
    if reverse {
        assert(result =~= files.reverse());
    } else {
        assert(result =~= files);
    }
}

/// Ordering with `reverse` gives exactly the reverse of ordering without it.
pub proof fn lemma_reverse_order(
    files: Seq<String>,
    mtimes: Seq<i128>,
    sort: Sort,
    forward: Seq<String>,
    backward: Seq<String>,
)
    requires
        is_ordered(forward, files, mtimes, sort, false),
        is_ordered(backward, files, mtimes, sort, true),
    ensures
        backward == forward.reverse(),
{
    let p = choose|p: Seq<int>|
        {
            &&& is_index_permutation(p, files.len() as int)
            &&& is_stable_order(sort, files, mtimes, p)
            &&& is_arranged(forward, files, p, false)
        };
    let q = choose|q: Seq<int>|
        {
            &&& is_index_permutation(q, files.len() as int)
            &&& is_stable_order(sort, files, mtimes, q)
            &&& is_arranged(backward, files, q, true)
        };
    lemma_stable_order_unique(sort, files, mtimes, p, q);
    assert(backward =~= forward.reverse());
}

/// Ordering files that are already in name order changes nothing.
pub proof fn lemma_name_order_idempotent(files: Seq<String>, once: Seq<String>, twice: Seq<String>)
    requires
        is_ordered(once, files, Seq::empty(), Sort::Name, false),
        is_ordered(twice, once, Seq::empty(), Sort::Name, false),
    ensures
        twice == once,
{
    let mt = Seq::<i128>::empty();
    let p = choose|p: Seq<int>|
        {
            &&& is_index_permutation(p, files.len() as int)
            &&& is_stable_order(Sort::Name, files, mt, p)
            &&& is_arranged(once, files, p, false)
        };
    let q = choose|q: Seq<int>|
        {
            &&& is_index_permutation(q, once.len() as int)
            &&& is_stable_order(Sort::Name, once, mt, q)
            &&& is_arranged(twice, once, q, false)
        };
    let n = once.len() as int;
    let id = Seq::new(n as nat, |k: int| k);
    assert forall|v: int| 0 <= v < n implies #[trigger] id.contains(v) by {
        assert(id[v] == v);
    }
    assert forall|k1: int, k2: int| 0 <= k1 < k2 < id.len() implies {
        &&& !goes_before(Sort::Name, once, mt, #[trigger] id[k2], #[trigger] id[k1])
        &&& (!goes_before(Sort::Name, once, mt, id[k1], id[k2]) ==> id[k1] < id[k2])
    } by {
        assert(once[k1] == files[p[k1]]);
        assert(once[k2] == files[p[k2]]);
        assert(!goes_before(Sort::Name, files, mt, p[k2], p[k1]));
    }
    lemma_stable_order_unique(Sort::Name, once, mt, q, id);
    assert(twice =~= once);
}

/// Lowercase extensions of the still-image formats that are read directly.
pub open spec fn is_standard_extension(e: Seq<char>) -> bool {
    ||| e == "png"@
    ||| e == "jpg"@
    ||| e == "jpeg"@
    ||| e == "webp"@
}

/// Lowercase extensions of camera RAW formats.
pub open spec fn is_raw_extension(e: Seq<char>) -> bool {
    ||| e == "raw"@
    ||| e == "dng"@
    ||| e == "cr2"@
    ||| e == "cr3"@
    ||| e == "nef"@
    ||| e == "arw"@
    ||| e == "raf"@
    ||| e == "rw2"@
    ||| e == "orf"@
    ||| e == "srw"@
    ||| e == "pef"@
    ||| e == "mrw"@
    ||| e == "dcr"@
    ||| e == "kdc"@
    ||| e == "3fr"@
    ||| e == "mef"@
    ||| e == "mos"@
    ||| e == "nrw"@
    ||| e == "x3f"@
    ||| e == "iiq"@
    ||| e == "rwl"@
    ||| e == "erf"@
}

/// The still-image extensions that are read directly, in lowercase.
pub open spec fn standard_extensions() -> Set<Seq<char>> {
    set!["png"@, "jpg"@, "jpeg"@, "webp"@]
}

/// The camera RAW extensions that are read, in lowercase.
pub open spec fn raw_extensions() -> Set<Seq<char>> {
    set![
        "raw"@, "dng"@, "cr2"@, "cr3"@, "nef"@, "arw"@, "raf"@, "rw2"@, "orf"@, "srw"@, "pef"@,
        "mrw"@, "dcr"@, "kdc"@, "3fr"@, "mef"@, "mos"@, "nrw"@, "x3f"@, "iiq"@, "rwl"@, "erf"@,
    ]
}

/// An extension is a still-image extension exactly when it is one of png,
/// jpg, jpeg and webp, and a RAW extension exactly when it is one of raw,
/// dng, cr2, cr3, nef, arw, raf, rw2, orf, srw, pef, mrw, dcr, kdc, 3fr,
/// mef, mos, nrw, x3f, iiq, rwl and erf.
pub proof fn lemma_extension_lists(e: Seq<char>)
    ensures
        is_standard_extension(e) <==> standard_extensions().contains(e),
        is_raw_extension(e) <==> raw_extensions().contains(e),
{
}

/// A path whose extension, in any ASCII case, is a listed RAW extension
/// (such as `IMG_0001.CR3`) is a supported frame and a RAW file; one whose
/// extension is a listed still-image extension is a supported frame.
pub proof fn lemma_listed_paths(path: Seq<char>, e: Seq<char>)
    requires
        std_path_extension(path) == Some(e),
    ensures
        raw_extensions().contains(ascii_lower(e)) ==> is_raw_path(path) && is_supported_path(path),
        standard_extensions().contains(ascii_lower(e)) ==> is_supported_path(path),
{
    lemma_extension_lists(ascii_lower(e));
}

/// Whether `e` is a still-image extension.
fn standard_extension(e: &Vec<char>) -> (r: bool)
    ensures
        r == is_standard_extension(e@),
{
    spells(e, "png") ||
        spells(e, "jpg") ||
        spells(e, "jpeg") ||
        spells(e, "webp")
}

/// Whether `e` is a camera RAW extension.
fn raw_extension(e: &Vec<char>) -> (r: bool)
    ensures
        r == is_raw_extension(e@),
{
    spells(e, "raw") ||
        spells(e, "dng") ||
        spells(e, "cr2") ||
        spells(e, "cr3") ||
        spells(e, "nef") ||
        spells(e, "arw") ||
        spells(e, "raf") ||
        spells(e, "rw2") ||
        spells(e, "orf") ||
        spells(e, "srw") ||
        spells(e, "pef") ||
        spells(e, "mrw") ||
        spells(e, "dcr") ||
        spells(e, "kdc") ||
        spells(e, "3fr") ||
        spells(e, "mef") ||
        spells(e, "mos") ||
        spells(e, "nrw") ||
        spells(e, "x3f") ||
        spells(e, "iiq") ||
        spells(e, "rwl") ||
        spells(e, "erf")
}

/// The extension that std's `Path::extension` finds in `path`, under the
/// path rules of the target that the crate is built for.
pub uninterp spec fn std_path_extension(path: Seq<char>) -> Option<Seq<char>>;

/// Calls `std::path::Path::extension` on `path` and converts the result to a
/// `String`. Trusted: the result is `std_path_extension(path)`, and, as the
/// std documentation says, an extension is the part of the file name after
/// its final `.`, so it holds no `.`.
#[verifier::external_body]
fn path_extension(path: &str) -> (r: Option<String>)
    ensures
        match r {
            Some(e) => std_path_extension(path@) == Some(e@),
            None => std_path_extension(path@) is None,
        },
        r matches Some(e) ==> !e@.contains('.'),
{
    match std::path::Path::new(path).extension() {
        Some(ext) => ext.to_str().map(String::from),
        None => None,
    }
}

/// The lowercased extension of a path, when it has one.
pub open spec fn lowered_extension(path: Seq<char>) -> Option<Seq<char>> {
    match std_path_extension(path) {
        Some(e) => Some(ascii_lower(e)),
        None => None,
    }
}

/// The extension of `path`, ASCII letters made small.
fn ext_lower(path: &str) -> (r: Option<Vec<char>>)
    ensures
        match r {
            Some(e) => lowered_extension(path@) == Some(e@),
            None => lowered_extension(path@) is None,
        },
{
    match path_extension(path) {
        Some(e) => Some(lower_chars(e.as_str())),
        None => None,
    }
}

/// Whether a file of this path is read as a frame: its lowercased extension
/// is a still-image or a RAW extension.
pub open spec fn is_supported_path(path: Seq<char>) -> bool {
    match lowered_extension(path) {
        Some(e) => is_standard_extension(e) || is_raw_extension(e),
        None => false,
    }
}

/// Whether a file of this path is a camera RAW file.
pub open spec fn is_raw_path(path: Seq<char>) -> bool {
    match lowered_extension(path) {
        Some(e) => is_raw_extension(e),
        None => false,
    }
}

/// Every RAW file is a supported frame file.
pub proof fn lemma_raw_is_supported(path: Seq<char>)
    ensures
        is_raw_path(path) ==> is_supported_path(path),
{
}

/// Whether a file with extension `ext` (any case) is read as a frame.
pub fn extension_is_supported(ext: &str) -> (r: bool)
    ensures
        r == (is_standard_extension(ascii_lower(ext@)) || is_raw_extension(ascii_lower(ext@))),
        r == (standard_extensions().contains(ascii_lower(ext@)) || raw_extensions().contains(ascii_lower(ext@))),
{
    proof {
        lemma_extension_lists(ascii_lower(ext@));
    }
    let e = lower_chars(ext);
    standard_extension(&e) || raw_extension(&e)
}

/// Whether a file with extension `ext` (any case) is a camera RAW file.
pub fn extension_is_raw(ext: &str) -> (r: bool)
    ensures
        r == is_raw_extension(ascii_lower(ext@)),
        r == raw_extensions().contains(ascii_lower(ext@)),
{
    proof {
        lemma_extension_lists(ascii_lower(ext@));
    }
    let e = lower_chars(ext);
    raw_extension(&e)
}

/// Whether the file at `path` is read as a frame.
pub fn is_supported(path: &str) -> (r: bool)
    ensures
        r == is_supported_path(path@),
{
    match ext_lower(path) {
        Some(e) => standard_extension(&e) || raw_extension(&e),
        None => false,
    }
}

/// Whether the file at `path` is a camera RAW file.
pub fn is_raw(path: &str) -> (r: bool)
    ensures
        r == is_raw_path(path@),
{
    match ext_lower(path) {
        Some(e) => raw_extension(&e),
        None => false,
    }
}


/// One input path as the file system shows it.
pub enum Input {
    /// The path does not exist.
    Missing(String),
    /// A directory, with the regular files that walking it found, in walk
    /// order.
    Directory(Vec<String>),
    /// Any other existing path.
    File(String),
}

/// Why the inputs cannot be collected.
#[derive(Debug, PartialEq, Eq)]
pub enum GatherError {
    /// An input does not exist.
    Missing(String),
    /// An input file is not an image the builder reads.
    Unsupported(String),
}

/// The paths in `paths` that are read as frames, in their order.
pub open spec fn supported_only(paths: Seq<String>) -> Seq<String>
    decreases paths.len(),
{
    if paths.len() == 0 {
        Seq::empty()
    } else {
        let rest = supported_only(paths.drop_last());
        if is_supported_path(paths.last()@) {
            rest.push(paths.last())
        } else {
            rest
        }
    }
}

/// The frames that `inputs` name, in order: the supported files of each
/// directory and each input file; the first missing input, or the first input
/// file that is not supported, is an error.
pub open spec fn gathered(inputs: Seq<Input>) -> Result<Seq<String>, GatherError>
    decreases inputs.len(),
{
    if inputs.len() == 0 {
        Ok(Seq::empty())
    } else {
        match gathered(inputs.drop_last()) {
            Err(e) => Err(e),
            Ok(prev) => match inputs.last() {
                Input::Missing(p) => Err(GatherError::Missing(p)),
                Input::Directory(entries) => Ok(prev + supported_only(entries@)),
                Input::File(p) => if is_supported_path(p@) {
                    Ok(prev.push(p))
                } else {
                    Err(GatherError::Unsupported(p))
                },
            },
        }
    }
}

/// Collects the frame paths that `inputs` name (see `gathered`).
pub fn gather(inputs: &Vec<Input>) -> (r: Result<Vec<String>, GatherError>)
    ensures
        match r {
            Ok(v) => gathered(inputs@) == Ok::<Seq<String>, GatherError>(v@),
            Err(e) => gathered(inputs@) == Err::<Seq<String>, GatherError>(e),
        },
        r is Ok <==> forall|i: int| 0 <= i < inputs@.len() ==> !is_refused(#[trigger] inputs@[i]),
{
    proof {
        lemma_gathered_fails_on_refused(inputs@);
    }
    let mut out: Vec<String> = Vec::new();
    let mut i: usize = 0;
    while i < inputs.len()
        invariant
            gathered(inputs@) is Ok <==> forall|i: int| 0 <= i < inputs@.len() ==> !is_refused(#[trigger] inputs@[i]),
            i <= inputs@.len(),
            gathered(inputs@.take(i as int)) == Ok::<Seq<String>, GatherError>(out@),
        decreases inputs@.len() - i,
    {
        assert(inputs@.take(i + 1).drop_last() =~= inputs@.take(i as int));
        match &inputs[i] {
            Input::Missing(p) => {
                let e = GatherError::Missing(p.clone());
                proof {
                    lemma_gathered_error_stays(inputs@, i as int + 1);
                }
                return Err(e);
            },
            Input::Directory(entries) => {
                let ghost before = out@;
                let mut j: usize = 0;
                while j < entries.len()
                    invariant
                        j <= entries@.len(),
                        out@ == before + supported_only(entries@.take(j as int)),
                    decreases entries@.len() - j,
                {
                    assert(entries@.take(j + 1).drop_last() =~= entries@.take(j as int));
                    if is_supported(entries[j].as_str()) {
                        out.push(entries[j].clone());
                        assert(out@ =~= before + supported_only(entries@.take(j + 1)));
                    }
                    j = j + 1;
                }
                assert(entries@.take(entries@.len() as int) =~= entries@);
            },
            Input::File(p) => {
                if is_supported(p.as_str()) {
                    out.push(p.clone());
                } else {
                    let e = GatherError::Unsupported(p.clone());
                    proof {
                        lemma_gathered_error_stays(inputs@, i as int + 1);
                    }
                    return Err(e);
                }
            },
        }
        i = i + 1;
    }
    assert(inputs@.take(inputs@.len() as int) =~= inputs@);
    Ok(out)
}

/// An input that stops the collection: a missing path, or a file that is not
/// read as a frame.
pub open spec fn is_refused(input: Input) -> bool {
    match input {
        Input::Missing(_) => true,
        Input::Directory(_) => false,
        Input::File(p) => !is_supported_path(p@),
    }
}

/// Collecting succeeds exactly when no input is refused. When it fails, the
/// error names a refused input: `Missing(p)` an input `p` that does not
/// exist, and `Unsupported(p)` an input file `p` that is not read as a frame,
/// so a supported file (RAW ones included) is never reported.
pub proof fn lemma_gathered_fails_on_refused(inputs: Seq<Input>)
    ensures
        gathered(inputs) is Ok <==> forall|i: int| 0 <= i < inputs.len() ==> !is_refused(#[trigger] inputs[i]),
        gathered(inputs) matches Err(GatherError::Missing(p)) ==> exists|i: int|
            0 <= i < inputs.len() && #[trigger] inputs[i] == Input::Missing(p),
        gathered(inputs) matches Err(GatherError::Unsupported(p)) ==> !is_supported_path(p@) && exists|i: int|
            0 <= i < inputs.len() && #[trigger] inputs[i] == Input::File(p),
    decreases inputs.len(),
{
    if inputs.len() > 0 {
        let init = inputs.drop_last();
        lemma_gathered_fails_on_refused(init);
        assert forall|i: int| 0 <= i < init.len() implies #[trigger] init[i] == inputs[i] by {}
        let last = inputs.len() - 1;
        assert(inputs[last] == inputs.last());
        if gathered(init) is Ok && !is_refused(inputs.last()) {
            assert forall|i: int| 0 <= i < inputs.len() implies !is_refused(#[trigger] inputs[i]) by {
                if i < last {
                    assert(init[i] == inputs[i]);
                }
            }
        }
        if gathered(init) is Err {
            let j = choose|j: int| 0 <= j < init.len() && is_refused(#[trigger] init[j]);
            assert(init[j] == inputs[j]);
        }
    }
}

/// When every input is a file that is read as a frame (a RAW file as much as
/// a still image), collecting gives exactly those paths, in input order.
pub proof fn lemma_gathered_supported_files(inputs: Seq<Input>, paths: Seq<String>)
    requires
        inputs.len() == paths.len(),
        forall|i: int| 0 <= i < inputs.len() ==> #[trigger] inputs[i] == Input::File(paths[i]),
        forall|i: int| 0 <= i < paths.len() ==> is_supported_path(#[trigger] paths[i]@),
    ensures
        gathered(inputs) == Ok::<Seq<String>, GatherError>(paths),
    decreases inputs.len(),
{
    if inputs.len() > 0 {
        let n = inputs.len() - 1;
        assert forall|i: int| 0 <= i < n implies #[trigger] inputs.drop_last()[i] == Input::File(paths.drop_last()[i]) by {
            assert(inputs[i] == Input::File(paths[i]));
        }
        assert forall|i: int| 0 <= i < n implies is_supported_path(#[trigger] paths.drop_last()[i]@) by {
            assert(is_supported_path(paths[i]@));
        }
        lemma_gathered_supported_files(inputs.drop_last(), paths.drop_last());
        assert(inputs.last() == Input::File(paths[n]));
        assert(is_supported_path(paths[n]@));
        assert(paths.drop_last().push(paths[n]) =~= paths);
    } else {
        assert(paths =~= Seq::<String>::empty());
    }
}

/// Once a prefix of the inputs fails, so do all the inputs.
proof fn lemma_gathered_error_stays(inputs: Seq<Input>, k: int)
    requires
        0 <= k <= inputs.len(),
        gathered(inputs.take(k)) is Err,
    ensures
        gathered(inputs) == gathered(inputs.take(k)),
    decreases inputs.len() - k,
{
    if k < inputs.len() {
        assert(inputs.take(k + 1).drop_last() =~= inputs.take(k));
        lemma_gathered_error_stays(inputs, k + 1);
    } else {
        assert(inputs.take(k) =~= inputs);
    }
}


proof fn lemma_digit_char(d: nat)
    requires
        d < 10,
    ensures
        is_digit(digit_char(d)),
        digit_value(digit_char(d)) == d,
{
    assert(digit_char(d) as int == 48 + d);
}

/// Writing a number in decimal gives at least one digit, only digits, and
/// reading those digits back gives the number.
pub proof fn lemma_decimal_digits(n: nat)
    ensures
        decimal(n).len() >= 1,
        forall|k: int| 0 <= k < decimal(n).len() ==> is_digit(#[trigger] decimal(n)[k]),
        decimal_value(decimal(n)) == n,
    decreases n,
{
    lemma_digit_char(n % 10);
    if n >= 10 {
        lemma_decimal_digits(n / 10);
        let d = decimal(n);
        assert(d.drop_last() =~= decimal(n / 10));
        assert(d.last() == digit_char(n % 10));
        assert forall|k: int| 0 <= k < d.len() implies is_digit(#[trigger] d[k]) by {
            if k < d.len() - 1 {
                assert(d[k] == decimal(n / 10)[k]);
            }
        }
        assert((n / 10) * 10 + n % 10 == n) by (nonlinear_arith);
        assert(decimal_value(d) == decimal_value(decimal(n / 10)) * 10 + digit_value(digit_char(n % 10)));
    } else {
        assert(decimal(n)[0] == digit_char(n));
        assert(decimal(n).drop_last() =~= Seq::<char>::empty());
        assert(n % 10 == n);
        assert(decimal_value(decimal(n)) == decimal_value(Seq::<char>::empty()) * 10 + digit_value(digit_char(n)));
    }
}

proof fn lemma_run_of_digits(s: Seq<char>, x: Seq<char>)
    requires
        forall|k: int| 0 <= k < s.len() ==> is_digit(#[trigger] s[k]),
        x.len() == 0 || !is_digit(x[0]),
    ensures
        digit_run_len(s + x) == s.len(),
    decreases s.len(),
{
    if s.len() > 0 {
        assert((s + x).drop_first() =~= s.drop_first() + x);
        lemma_run_of_digits(s.drop_first(), x);
    } else {
        assert(s + x =~= x);
    }
}

proof fn lemma_run_inside(p: Seq<char>, x: Seq<char>)
    requires
        p.len() > 0,
        !is_digit(p.last()),
    ensures
        digit_run_len(p + x) == digit_run_len(p),
        digit_run_len(p) < p.len(),
    decreases p.len(),
{
    if is_digit(p[0]) {
        assert((p + x).drop_first() =~= p.drop_first() + x);
        lemma_run_inside(p.drop_first(), x);
    }
}

proof fn lemma_after_number_prefix(p: Seq<char>, x: Seq<char>)
    requires
        p.len() > 0,
        is_digit(p[0]),
        !is_digit(p.last()),
    ensures
        after_number(p + x) == after_number(p) + x,
        leading_number(p + x) == leading_number(p),
        after_number(p).len() < p.len(),
        after_number(p).len() > 0,
        after_number(p).last() == p.last(),
{
    lemma_run_inside(p, x);
    lemma_digit_run_len_bound(p);
    let r = digit_run_len(p) as int;
    assert((p + x).take(r) =~= p.take(r));
    assert(after_number(p + x) =~= p.skip(r) + x);
}

proof fn lemma_number_then(d: Seq<char>, x: Seq<char>)
    requires
        d.len() > 0,
        forall|k: int| 0 <= k < d.len() ==> is_digit(#[trigger] d[k]),
        x.len() == 0 || !is_digit(x[0]),
    ensures
        after_number(d + x) == x,
        leading_number(d + x) == (if decimal_value(d) <= u128::MAX { decimal_value(d) } else { u128::MAX as nat }),
        is_digit((d + x)[0]),
{
    lemma_run_of_digits(d, x);
    assert((d + x).take(d.len() as int) =~= d);
    assert((d + x).skip(d.len() as int) =~= x);
}

/// A common start that does not end in a digit does not change the natural
/// order.
proof fn lemma_common_prefix(p: Seq<char>, x: Seq<char>, y: Seq<char>)
    requires
        p.len() == 0 || !is_digit(p.last()),
    ensures
        natural_order(p + x, p + y) == natural_order(x, y),
    decreases p.len(),
{
    if p.len() == 0 {
        assert(p + x =~= x);
        assert(p + y =~= y);
    } else if is_digit(p[0]) {
        lemma_after_number_prefix(p, x);
        lemma_after_number_prefix(p, y);
        assert((p + x)[0] == p[0]);
        assert((p + y)[0] == p[0]);
        lemma_common_prefix(after_number(p), x, y);
    } else {
        assert((p + x).drop_first() =~= p.drop_first() + x);
        assert((p + y).drop_first() =~= p.drop_first() + y);
        lemma_common_prefix(p.drop_first(), x, y);
    }
}

/// Numbers in names sort by value: after the same start (one that does not
/// end in a digit), the name with the smaller number comes first, whatever
/// follows the numbers ("img2" before "img10").
pub proof fn lemma_numbers_sort_by_value(p: Seq<char>, m: nat, n: nat, x: Seq<char>, y: Seq<char>)
    requires
        p.len() == 0 || !is_digit(p.last()),
        x.len() == 0 || !is_digit(x[0]),
        y.len() == 0 || !is_digit(y[0]),
        m < n <= u128::MAX,
    ensures
        natural_order(p + decimal(m) + x, p + decimal(n) + y) == Ordering::Less,
{
    lemma_decimal_digits(m);
    lemma_decimal_digits(n);
    assert(p + decimal(m) + x =~= p + (decimal(m) + x));
    assert(p + decimal(n) + y =~= p + (decimal(n) + y));
    lemma_common_prefix(p, decimal(m) + x, decimal(n) + y);
    lemma_number_then(decimal(m), x);
    lemma_number_then(decimal(n), y);
}

} // verus!
