//! Text primitives over sequences of characters: the searching, splitting,
//! trimming and case mapping that the catalogue rules are written in.
use vstd::prelude::*;
use vstd::slice::slice_subrange;
use vstd::slice::slice_to_vec;

verus! {

// ---------------------------------------------------------------------------
// Specification
// ---------------------------------------------------------------------------

/// `p` stands in `s` from position `i` on.
pub open spec fn occurs_at(s: Seq<char>, p: Seq<char>, i: int) -> bool {
    0 <= i && i + p.len() <= s.len() && s.subrange(i, i + p.len()) == p
}

/// `p` stands somewhere in `s` (`str::contains`).
pub open spec fn has_substring(s: Seq<char>, p: Seq<char>) -> bool {
    exists|i: int| occurs_at(s, p, i)
}

/// `s` begins with `p` (`str::starts_with`).
pub open spec fn starts_with(s: Seq<char>, p: Seq<char>) -> bool {
    occurs_at(s, p, 0)
}

/// `s` ends with `p` (`str::ends_with`).
pub open spec fn ends_with(s: Seq<char>, p: Seq<char>) -> bool {
    occurs_at(s, p, s.len() - p.len())
}

/// The leftmost position at or after `i` where `p` stands in `s`.
pub open spec fn find_from(s: Seq<char>, p: Seq<char>, i: int) -> Option<int>
    decreases s.len() + 1 - i,
{
    if i + p.len() > s.len() {
        None
    } else if occurs_at(s, p, i) {
        Some(i)
    } else {
        find_from(s, p, i + 1)
    }
}

/// The leftmost position where `p` stands in `s` (`str::find`).
pub open spec fn find(s: Seq<char>, p: Seq<char>) -> Option<int> {
    find_from(s, p, 0)
}

/// The last piece of `s` split at the non-overlapping occurrences of `p`,
/// taken from left to right (`s.split(p).last()`, for a non-empty `p`).
pub open spec fn split_last(s: Seq<char>, p: Seq<char>) -> Seq<char>
    decreases s.len(),
{
    if p.len() == 0 {
        s
    } else {
        match find(s, p) {
            Some(i) => {
                proof {
                    lemma_find_from(s, p, 0);
                }
                split_last(s.skip(i + p.len()), p)
            },
            None => s,
        }
    }
}

/// The first piece of `s` split at `c` (`s.split(c).next()`): all of `s`
/// before the first `c`, or all of `s` when there is none.
pub open spec fn before_char(s: Seq<char>, c: char) -> Seq<char>
    decreases s.len(),
{
    if s.len() == 0 {
        s
    } else if s[0] == c {
        Seq::empty()
    } else {
        seq![s[0]] + before_char(s.drop_first(), c)
    }
}

/// `s` with every non-overlapping occurrence of `p`, taken from left to
/// right, replaced by `r` (`str::replace`, for a non-empty `p`).
pub open spec fn replace_all(s: Seq<char>, p: Seq<char>, r: Seq<char>) -> Seq<char>
    decreases s.len(),
{
    if p.len() == 0 {
        s
    } else {
        match find(s, p) {
            Some(i) => {
                proof {
                    lemma_find_from(s, p, 0);
                }
                s.take(i) + r + replace_all(s.skip(i + p.len()), p, r)
            },
            None => s,
        }
    }
}

/// The characters with the Unicode property White_Space (`char::is_whitespace`).
pub open spec fn is_white_space(c: char) -> bool {
    ||| '\u{9}' <= c <= '\u{d}'
    ||| c == ' '
    ||| c == '\u{85}'
    ||| c == '\u{a0}'
    ||| c == '\u{1680}'
    ||| '\u{2000}' <= c <= '\u{200a}'
    ||| c == '\u{2028}'
    ||| c == '\u{2029}'
    ||| c == '\u{202f}'
    ||| c == '\u{205f}'
    ||| c == '\u{3000}'
}

/// `s` without its leading white space.
pub open spec fn trim_start(s: Seq<char>) -> Seq<char>
    decreases s.len(),
{
    if s.len() > 0 && is_white_space(s[0]) {
        trim_start(s.drop_first())
    } else {
        s
    }
}

/// `s` without its trailing white space.
pub open spec fn trim_end(s: Seq<char>) -> Seq<char>
    decreases s.len(),
{
    if s.len() > 0 && is_white_space(s.last()) {
        trim_end(s.drop_last())
    } else {
        s
    }
}

/// `s` without leading and trailing white space (`str::trim`).
pub open spec fn trim(s: Seq<char>) -> Seq<char> {
    trim_end(trim_start(s))
}

/// `s` without the copies of `c` it begins with (`str::trim_start_matches`).
pub open spec fn trim_start_char(s: Seq<char>, c: char) -> Seq<char>
    decreases s.len(),
{
    if s.len() > 0 && s[0] == c {
        trim_start_char(s.drop_first(), c)
    } else {
        s
    }
}

/// `c` with an ASCII capital letter mapped to its small letter.
pub open spec fn lower_char(c: char) -> char {
    if 'A' <= c <= 'Z' {
        ((c as u32) + 32) as char
    } else {
        c
    }
}

/// `s` with every ASCII capital letter mapped to its small letter
/// (`str::to_ascii_lowercase`).
pub open spec fn ascii_lower(s: Seq<char>) -> Seq<char> {
    s.map_values(|c: char| lower_char(c))
}

/// The decimal digit for `d < 10`.
pub open spec fn digit_char(d: nat) -> char {
    ((d + 48) as u32) as char
}

/// The decimal numeral of `n`, without leading zeros.
pub open spec fn numeral(n: nat) -> Seq<char>
    decreases n,
{
    if n < 10 {
        seq![digit_char(n)]
    } else {
        numeral(n / 10).push(digit_char(n % 10))
    }
}

/// The decimal form of `n` as `Display` writes an integer.
pub open spec fn decimal(n: int) -> Seq<char> {
    if n < 0 {
        seq!['-'] + numeral((-n) as nat)
    } else {
        numeral(n as nat)
    }
}

// ---------------------------------------------------------------------------
// Lemmas
// ---------------------------------------------------------------------------

/// What `find_from` returns: the leftmost occurrence at or after `i`, if any.
pub proof fn lemma_find_from(s: Seq<char>, p: Seq<char>, i: int)
    requires
        0 <= i,
    ensures
        find_from(s, p, i) matches Some(k) ==> {
            &&& i <= k
            &&& occurs_at(s, p, k)
            &&& forall|j: int| i <= j < k ==> !occurs_at(s, p, j)
        },
        find_from(s, p, i) is None ==> forall|j: int| i <= j ==> !occurs_at(s, p, j),
    decreases s.len() + 1 - i,
{
    if i + p.len() > s.len() {
    } else if occurs_at(s, p, i) {
    } else {
        lemma_find_from(s, p, i + 1);
    }
}

/// `find` is `Some` exactly when the pattern occurs.
pub proof fn lemma_find_some_iff(s: Seq<char>, p: Seq<char>)
    ensures
        find(s, p) is Some <==> has_substring(s, p),
        find(s, p) matches Some(k) ==> occurs_at(s, p, k),
{
    lemma_find_from(s, p, 0);
    if has_substring(s, p) {
        let j = choose|j: int| occurs_at(s, p, j);
        assert(0 <= j);
    }
}

/// The first piece of `s` split at `c` holds no `c`.
pub proof fn lemma_before_char_excludes(s: Seq<char>, c: char)
    ensures
        !before_char(s, c).contains(c),
    decreases s.len(),
{
    if s.len() > 0 && s[0] != c {
        lemma_before_char_excludes(s.drop_first(), c);
        let rest = before_char(s.drop_first(), c);
        assert forall|i: int| 0 <= i < before_char(s, c).len() implies before_char(s, c)[i] != c by {
            if i > 0 {
                assert(before_char(s, c)[i] == rest[i - 1]);
            }
        }
    }
}

/// Replacing pieces of text free of `c` by text free of `c` leaves no `c`.
pub proof fn lemma_replace_all_excludes(s: Seq<char>, p: Seq<char>, r: Seq<char>, c: char)
    requires
        !s.contains(c),
        !r.contains(c),
    ensures
        !replace_all(s, p, r).contains(c),
    decreases s.len(),
{
    if p.len() > 0 {
        lemma_find_from(s, p, 0);
        if let Some(i) = find(s, p) {
            let tail = s.skip(i + p.len());
            assert forall|j: int| 0 <= j < tail.len() implies tail[j] != c by {
                assert(tail[j] == s[i + p.len() + j]);
            }
            lemma_replace_all_excludes(tail, p, r, c);
            let rest = replace_all(tail, p, r);
            let whole = s.take(i) + r + rest;
            assert forall|j: int| 0 <= j < whole.len() implies whole[j] != c by {
                if j < i {
                    assert(whole[j] == s[j]);
                } else if j < i + r.len() {
                    assert(whole[j] == r[j - i]);
                } else {
                    assert(whole[j] == rest[j - i - r.len()]);
                }
            }
        }
    }
}

/// `p + q` stands at `i` exactly when `p` stands at `i` and `q` right after it.
pub proof fn lemma_occurs_at_concat(s: Seq<char>, p: Seq<char>, q: Seq<char>, i: int)
    ensures
        occurs_at(s, p + q, i) <==> occurs_at(s, p, i) && occurs_at(s, q, i + p.len()),
{
    if occurs_at(s, p + q, i) {
        assert(s.subrange(i, i + p.len()) =~= (p + q).subrange(0, p.len() as int));
        assert(s.subrange(i + p.len(), i + p.len() + q.len()) =~= (p + q).subrange(
            p.len() as int,
            (p + q).len() as int,
        ));
        assert((p + q).subrange(0, p.len() as int) =~= p);
        assert((p + q).subrange(p.len() as int, (p + q).len() as int) =~= q);
    }
    if occurs_at(s, p, i) && occurs_at(s, q, i + p.len()) {
        assert forall|j: int| 0 <= j < (p + q).len() implies s.subrange(i, i + (p + q).len())[j]
            == (p + q)[j] by {
            if j < p.len() {
                assert(s.subrange(i, i + p.len())[j] == p[j]);
            } else {
                assert(s.subrange(i + p.len(), i + p.len() + q.len())[j - p.len()] == q[j
                    - p.len()]);
            }
        }
        assert(s.subrange(i, i + (p + q).len()) =~= p + q);
    }
}

/// Where the leading white space of `s` ends.
pub proof fn lemma_trim_start_bound(s: Seq<char>) -> (a: int)
    ensures
        0 <= a <= s.len(),
        trim_start(s) == s.skip(a),
        forall|j: int| 0 <= j < a ==> is_white_space(#[trigger] s[j]),
        a < s.len() ==> !is_white_space(s[a]),
    decreases s.len(),
{
    if s.len() > 0 && is_white_space(s[0]) {
        let a0 = lemma_trim_start_bound(s.drop_first());
        assert(s.drop_first().skip(a0) =~= s.skip(a0 + 1));
        assert forall|j: int| 0 <= j < a0 + 1 implies is_white_space(#[trigger] s[j]) by {
            if j > 0 {
                assert(s[j] == s.drop_first()[j - 1]);
            }
        }
        a0 + 1
    } else {
        assert(s.skip(0) =~= s);
        0
    }
}

/// Where the trailing white space of `s` begins.
pub proof fn lemma_trim_end_bound(s: Seq<char>) -> (b: int)
    ensures
        0 <= b <= s.len(),
        trim_end(s) == s.take(b),
        forall|j: int| b <= j < s.len() ==> is_white_space(#[trigger] s[j]),
        b > 0 ==> !is_white_space(s[b - 1]),
    decreases s.len(),
{
    if s.len() > 0 && is_white_space(s.last()) {
        let b0 = lemma_trim_end_bound(s.drop_last());
        assert(s.drop_last().take(b0) =~= s.take(b0));
        assert forall|j: int| b0 <= j < s.len() implies is_white_space(#[trigger] s[j]) by {
            if j < s.len() - 1 {
                assert(s[j] == s.drop_last()[j]);
            }
        }
        b0
    } else {
        assert(s.take(s.len() as int) =~= s);
        s.len() as int
    }
}

/// Trimming keeps one unbroken piece `s[a..b]` of the text, every
/// character inside it included: all before `a` and all from `b` on is
/// white space, and the piece, where not empty, begins and ends with a
/// character that is not.
pub proof fn lemma_trim_bounds(s: Seq<char>) -> (r: (int, int))
    ensures
        0 <= r.0 <= r.1 <= s.len(),
        trim(s) == s.subrange(r.0, r.1),
        forall|j: int| 0 <= j < r.0 ==> is_white_space(#[trigger] s[j]),
        forall|j: int| r.1 <= j < s.len() ==> is_white_space(#[trigger] s[j]),
        r.0 < r.1 ==> !is_white_space(s[r.0]) && !is_white_space(s[r.1 - 1]),
{
    let a = lemma_trim_start_bound(s);
    let t = s.skip(a);
    let b = lemma_trim_end_bound(t);
    assert(t.take(b) =~= s.subrange(a, a + b));
    assert forall|j: int| a + b <= j < s.len() implies is_white_space(#[trigger] s[j]) by {
        assert(s[j] == t[j - a]);
    }
    if b > 0 {
        assert(s[a + b - 1] == t[b - 1]);
    }
    (a, a + b)
}

/// The leftmost occurrence at or after `i` is the first one found.
pub proof fn lemma_find_from_first(s: Seq<char>, p: Seq<char>, i: int, k: int)
    requires
        0 <= i <= k,
        occurs_at(s, p, k),
        forall|j: int| i <= j < k ==> !occurs_at(s, p, j),
    ensures
        find_from(s, p, i) == Some(k),
    decreases k - i,
{
    if i < k {
        assert(!occurs_at(s, p, i));
        lemma_find_from_first(s, p, i + 1, k);
    }
}

/// Text free of `c`, followed by nothing or by `c`, is what comes before
/// the first `c`.
pub proof fn lemma_before_char_of_piece(id: Seq<char>, rest: Seq<char>, c: char)
    requires
        !id.contains(c),
        rest.len() == 0 || rest[0] == c,
    ensures
        before_char(id + rest, c) == id,
    decreases id.len(),
{
    if id.len() == 0 {
        assert(id + rest =~= rest);
    } else {
        assert(id[0] != c);
        assert((id + rest).drop_first() =~= id.drop_first() + rest);
        assert(!id.drop_first().contains(c)) by {
            assert forall|j: int| 0 <= j < id.drop_first().len() implies id.drop_first()[j] != c by {
                assert(id.drop_first()[j] == id[j + 1]);
            }
        }
        lemma_before_char_of_piece(id.drop_first(), rest, c);
        assert(seq![id[0]] + id.drop_first() =~= id);
    }
}

/// ASCII lower-casing changes only the capitals `A` to `Z`, each to the
/// letter 32 code points above it, and keeps the length.
pub proof fn ascii_lower_maps_capitals(s: Seq<char>)
    ensures
        ascii_lower(s).len() == s.len(),
        forall|j: int|
            0 <= j < s.len() ==> (if 'A' <= s[j] <= 'Z' {
                #[trigger] ascii_lower(s)[j] as int == s[j] as int + 32
            } else {
                ascii_lower(s)[j] == s[j]
            }),
{
    assert forall|j: int| 0 <= j < s.len() && 'A' <= s[j] <= 'Z' implies #[trigger] ascii_lower(
        s,
    )[j] as int == s[j] as int + 32 by {
        assert(ascii_lower(s)[j] == lower_char(s[j]));
    }
}

/// Where `m` first stands right after `prefix` and never in `tail`, the
/// last piece of `prefix + m + tail` split at `m` is `tail`.
pub proof fn lemma_split_last_at_first(prefix: Seq<char>, m: Seq<char>, tail: Seq<char>)
    requires
        m.len() > 0,
        !has_substring(tail, m),
        forall|j: int| 0 <= j < prefix.len() ==> !occurs_at(prefix + m + tail, m, j),
    ensures
        split_last(prefix + m + tail, m) == tail,
{
    let href = prefix + m + tail;
    let k = prefix.len() as int;
    assert(href.subrange(k, k + m.len()) =~= m);
    lemma_find_from_first(href, m, 0, k);
    assert(href.skip(k + m.len()) =~= tail);
    lemma_find_some_iff(tail, m);
    assert(find(href, m) == Some(k));
    assert(split_last(href, m) == split_last(href.skip(k + m.len()), m));
    assert(find(tail, m) is None);
    assert(split_last(tail, m) == tail);
}

/// Where the first character of `h` is not in `name`, taking every `h` out
/// of `name + h` leaves `name`.
pub proof fn lemma_replace_final(name: Seq<char>, h: Seq<char>)
    requires
        h.len() > 0,
        !name.contains(h[0]),
    ensures
        replace_all(name + h, h, Seq::empty()) == name,
{
    let page = name + h;
    let n = name.len() as int;
    assert(page.subrange(n, n + h.len()) =~= h);
    assert forall|j: int| 0 <= j < n implies !occurs_at(page, h, j) by {
        if occurs_at(page, h, j) {
            assert(page.subrange(j, j + h.len())[0] == page[j]);
            assert(page[j] == name[j]);
        }
    }
    lemma_find_from_first(page, h, 0, n);
    assert(page.skip(n + h.len()) =~= Seq::<char>::empty());
    assert(page.take(n) =~= name);
    assert(find(Seq::<char>::empty(), h) is None);
    assert(replace_all(Seq::<char>::empty(), h, Seq::empty()) == Seq::<char>::empty());
    assert(replace_all(page, h, Seq::empty()) =~= name);
}

/// The number that a string of decimal digits writes.
pub open spec fn digits_value(s: Seq<char>) -> int
    decreases s.len(),
{
    if s.len() == 0 {
        0
    } else {
        10 * digits_value(s.drop_last()) + ((s.last() as int) - 48)
    }
}

/// A numeral is a string of decimal digits without leading zero that
/// writes its number back.
pub proof fn numeral_writes_its_number(n: nat)
    ensures
        digits_value(numeral(n)) == n,
        numeral(n).len() >= 1,
        forall|k: int| 0 <= k < numeral(n).len() ==> '0' <= #[trigger] numeral(n)[k] <= '9',
        n > 0 ==> numeral(n)[0] != '0',
    decreases n,
{
    if n >= 10 {
        numeral_writes_its_number(n / 10);
        let init = numeral(n / 10);
        assert(numeral(n).drop_last() =~= init);
        assert(digit_char((n % 10) as nat) as int == n % 10 + 48);
        assert(numeral(n).last() == digit_char((n % 10) as nat));
        assert(digits_value(numeral(n)) == 10 * digits_value(init) + n % 10);
        assert(n == 10 * (n / 10) + n % 10);
        assert forall|k: int| 0 <= k < numeral(n).len() implies '0' <= #[trigger] numeral(n)[k]
            <= '9' by {
            if k < init.len() {
                assert(numeral(n)[k] == init[k]);
            }
        }
        assert(numeral(n)[0] == init[0]);
    } else {
        assert(digit_char(n) as int == n + 48);
        assert(numeral(n).drop_last() =~= Seq::<char>::empty());
        assert(digits_value(Seq::<char>::empty()) == 0);
        assert(digits_value(numeral(n)) == 10 * digits_value(numeral(n).drop_last()) + (
        numeral(n).last() as int - 48));
    }
}

/// Text without its leading copies of `c` does not begin with `c`.
pub proof fn lemma_trim_start_char_head(s: Seq<char>, c: char)
    ensures
        trim_start_char(s, c).len() > 0 ==> trim_start_char(s, c)[0] != c,
    decreases s.len(),
{
    if s.len() > 0 && s[0] == c {
        lemma_trim_start_char_head(s.drop_first(), c);
    }
}

// ---------------------------------------------------------------------------
// Executable code
// ---------------------------------------------------------------------------

/// The characters of `s`, in order.
pub fn chars_of(s: &str) -> (v: Vec<char>)
    ensures
        v@ == s@,
{
    let mut v: Vec<char> = Vec::new();
    for c in it: s.chars()
        invariant
            v@ == it.seq().take(it.index() as int),
            it.seq() == s@,
    {
        v.push(c);
    }
    v
}

/// Appends `c` at the end of `s` (`String::push`).
#[verifier::external_body]
fn push_char(s: &mut String, c: char)
    ensures
        final(s)@ == old(s)@.push(c),
{
    s.push(c);
}

/// A string holding exactly the characters of `v`.
pub fn string_of(v: &[char]) -> (s: String)
    ensures
        s@ == v@,
{
    let mut s = String::new();
    let mut i: usize = 0;
    while i < v.len()
        invariant
            i <= v@.len(),
            s@ == v@.take(i as int),
        decreases v@.len() - i,
    {
        push_char(&mut s, v[i]);
        assert(v@.take(i + 1) == v@.take(i as int).push(v@[i as int]));
        i = i + 1;
    }
    assert(v@.take(v@.len() as int) == v@);
    s
}

/// `a` followed by `b`.
pub fn join(a: &[char], b: &[char]) -> (r: Vec<char>)
    ensures
        r@ == a@ + b@,
{
    let mut r = slice_to_vec(a);
    r.extend_from_slice(b);
    assert(r@ =~= a@ + b@);
    r
}

/// Whether `p` stands in `s` from position `i` on.
pub fn occurs_at_exec(s: &[char], p: &[char], i: usize) -> (b: bool)
    ensures
        b == occurs_at(s@, p@, i as int),
{
    if i > s.len() || p.len() > s.len() - i {
        return false;
    }
    let n = s.len();
    let mut k: usize = 0;
    while k < p.len()
        invariant
            n == s@.len(),
            i + p@.len() <= s@.len(),
            k <= p@.len(),
            forall|j: int| 0 <= j < k ==> s@[i + j] == p@[j],
        decreases p@.len() - k,
    {
        if s[i + k] != p[k] {
            assert(s@.subrange(i as int, i + p@.len())[k as int] != p@[k as int]);
            return false;
        }
        k = k + 1;
    }
    assert(s@.subrange(i as int, i + p@.len()) =~= p@);
    true
}

/// The leftmost position at or after `start` where `p` stands in `s`.
pub fn find_from_exec(s: &[char], p: &[char], start: usize) -> (r: Option<usize>)
    ensures
        r matches Some(k) ==> find_from(s@, p@, start as int) == Some(k as int),
        r is None ==> find_from(s@, p@, start as int) is None,
{
    if p.len() > s.len() {
        return None;
    }
    let last = s.len() - p.len();
    let mut i = start;
    while i <= last
        invariant
            last + p@.len() == s@.len(),
            start <= i,
            find_from(s@, p@, start as int) == find_from(s@, p@, i as int),
        decreases last + 1 - i,
    {
        if occurs_at_exec(s, p, i) {
            return Some(i);
        }
        if i == last {
            assert(find_from(s@, p@, i + 1) is None);
            return None;
        }
        i = i + 1;
    }
    None
}

/// Whether `p` stands somewhere in `s` (`str::contains`).
pub fn contains_exec(s: &[char], p: &[char]) -> (b: bool)
    ensures
        b == has_substring(s@, p@),
{
    proof {
        lemma_find_some_iff(s@, p@);
    }
    find_from_exec(s, p, 0).is_some()
}

/// Whether `s` begins with `p` (`str::starts_with`).
pub fn starts_with_exec(s: &[char], p: &[char]) -> (b: bool)
    ensures
        b == starts_with(s@, p@),
{
    occurs_at_exec(s, p, 0)
}

/// Whether `s` ends with `p` (`str::ends_with`).
pub fn ends_with_exec(s: &[char], p: &[char]) -> (b: bool)
    ensures
        b == ends_with(s@, p@),
{
    if p.len() > s.len() {
        false
    } else {
        occurs_at_exec(s, p, s.len() - p.len())
    }
}

/// The last piece of `s` split at `p` (`s.split(p).last()`).
pub fn split_last_exec(s: &[char], p: &[char]) -> (r: Vec<char>)
    requires
        p@.len() > 0,
    ensures
        r@ == split_last(s@, p@),
{
    let mut rest: &[char] = s;
    loop
        invariant
            p@.len() > 0,
            split_last(s@, p@) == split_last(rest@, p@),
        ensures
            split_last(s@, p@) == rest@,
        decreases rest@.len(),
    {
        match find_from_exec(rest, p, 0) {
            Some(k) => {
                proof {
                    lemma_find_from(rest@, p@, 0);
                    assert(occurs_at(rest@, p@, k as int));
                }
                let rl = rest.len();
                assert(k + p@.len() <= rl);
                let next = slice_subrange(rest, k + p.len(), rest.len());
                assert(next@ =~= rest@.skip(k + p@.len()));
                rest = next;
            },
            None => {
                break;
            },
        }
    }
    slice_to_vec(rest)
}

/// The first piece of `s` split at `c` (`s.split(c).next()`).
pub fn before_char_exec(s: &[char], c: char) -> (r: Vec<char>)
    ensures
        r@ == before_char(s@, c),
{
    let mut i: usize = 0;
    assert(s@.skip(0) =~= s@);
    while i < s.len() && s[i] != c
        invariant
            i <= s@.len(),
            forall|j: int| 0 <= j < i ==> s@[j] != c,
            before_char(s@, c) == s@.take(i as int) + before_char(s@.skip(i as int), c),
        decreases s@.len() - i,
    {
        assert(s@.skip(i as int).drop_first() =~= s@.skip(i + 1));
        assert(s@.take(i + 1) =~= s@.take(i as int) + seq![s@[i as int]]);
        i = i + 1;
    }
    assert(before_char(s@.skip(i as int), c) =~= Seq::<char>::empty());
    let r = slice_to_vec(slice_subrange(s, 0, i));
    assert(r@ =~= s@.take(i as int));
    r
}

/// `s` with every occurrence of `p` replaced by `with` (`str::replace`).
pub fn replace_all_exec(s: &[char], p: &[char], with: &[char]) -> (r: Vec<char>)
    requires
        p@.len() > 0,
    ensures
        r@ == replace_all(s@, p@, with@),
{
    let mut out: Vec<char> = Vec::new();
    let mut rest: &[char] = s;
    loop
        invariant
            p@.len() > 0,
            replace_all(s@, p@, with@) == out@ + replace_all(rest@, p@, with@),
        ensures
            replace_all(s@, p@, with@) == out@ + rest@,
        decreases rest@.len(),
    {
        match find_from_exec(rest, p, 0) {
            Some(k) => {
                proof {
                    lemma_find_from(rest@, p@, 0);
                    assert(occurs_at(rest@, p@, k as int));
                }
                let rl = rest.len();
                assert(k + p@.len() <= rl);
                let ghost old_out = out@;
                let head = slice_subrange(rest, 0, k);
                out.extend_from_slice(head);
                out.extend_from_slice(with);
                let next = slice_subrange(rest, k + p.len(), rest.len());
                assert(next@ =~= rest@.skip(k + p@.len()));
                assert(head@ =~= rest@.take(k as int));
                assert(out@ =~= old_out + (rest@.take(k as int) + with@));
                rest = next;
            },
            None => {
                break;
            },
        }
    }
    out.extend_from_slice(rest);
    out
}

/// Whether `c` is white space (`char::is_whitespace`).
pub fn is_white_space_exec(c: char) -> (b: bool)
    ensures
        b == is_white_space(c),
{
    ('\u{9}' <= c && c <= '\u{d}') || c == ' ' || c == '\u{85}' || c == '\u{a0}' || c
        == '\u{1680}' || ('\u{2000}' <= c && c <= '\u{200a}') || c == '\u{2028}' || c
        == '\u{2029}' || c == '\u{202f}' || c == '\u{205f}' || c == '\u{3000}'
}

/// `s` without leading and trailing white space (`str::trim`).
pub fn trim_exec(s: &[char]) -> (r: Vec<char>)
    ensures
        r@ == trim(s@),
{
    let mut i: usize = 0;
    assert(s@.skip(0) =~= s@);
    while i < s.len() && is_white_space_exec(s[i])
        invariant
            i <= s@.len(),
            trim_start(s@) == trim_start(s@.skip(i as int)),
        decreases s@.len() - i,
    {
        assert(s@.skip(i as int).drop_first() =~= s@.skip(i + 1));
        i = i + 1;
    }
    let mut j: usize = s.len();
    while j > i && is_white_space_exec(s[j - 1])
        invariant
            i <= j <= s@.len(),
            trim_start(s@.skip(i as int)) == s@.skip(i as int),
            trim_end(s@.skip(i as int)) == trim_end(s@.subrange(i as int, j as int)),
        decreases j - i,
    {
        assert(s@.subrange(i as int, j as int).drop_last() =~= s@.subrange(i as int, j - 1));
        j = j - 1;
    }
    assert(s@.subrange(i as int, s@.len() as int) =~= s@.skip(i as int));
    slice_to_vec(slice_subrange(s, i, j))
}

/// `s` without the copies of `c` it begins with (`str::trim_start_matches`).
pub fn trim_start_char_exec(s: &[char], c: char) -> (r: Vec<char>)
    ensures
        r@ == trim_start_char(s@, c),
{
    let mut i: usize = 0;
    assert(s@.skip(0) =~= s@);
    while i < s.len() && s[i] == c
        invariant
            i <= s@.len(),
            trim_start_char(s@, c) == trim_start_char(s@.skip(i as int), c),
        decreases s@.len() - i,
    {
        assert(s@.skip(i as int).drop_first() =~= s@.skip(i + 1));
        i = i + 1;
    }
    let r = slice_to_vec(slice_subrange(s, i, s.len()));
    assert(r@ =~= s@.skip(i as int));
    r
}

/// `c` with an ASCII capital letter mapped to its small letter.
pub fn lower_char_exec(c: char) -> (r: char)
    ensures
        r == lower_char(c),
{
    if 'A' <= c && c <= 'Z' {
        ((c as u8) + 32) as char
    } else {
        c
    }
}

/// `s` with ASCII capital letters mapped to small ones (`str::to_ascii_lowercase`).
pub fn ascii_lower_exec(s: &[char]) -> (r: Vec<char>)
    ensures
        r@ == ascii_lower(s@),
{
    let mut r: Vec<char> = Vec::new();
    let mut i: usize = 0;
    while i < s.len()
        invariant
            i <= s@.len(),
            r@ =~= ascii_lower(s@.take(i as int)),
        decreases s@.len() - i,
    {
        r.push(lower_char_exec(s[i]));
        assert(ascii_lower(s@.take(i + 1)) =~= ascii_lower(s@.take(i as int)).push(
            lower_char(s@[i as int]),
        ));
        i = i + 1;
    }
    assert(s@.take(s@.len() as int) =~= s@);
    r
}

/// The decimal digit for `d < 10`.
fn digit_char_exec(d: u64) -> (c: char)
    requires
        d < 10,
    ensures
        c == digit_char(d as nat),
{
    ((d as u8) + 48) as char
}

/// The decimal numeral of `n`.
pub fn numeral_exec(n: u64) -> (r: Vec<char>)
    ensures
        r@ == numeral(n as nat),
    decreases n,
{
    if n < 10 {
        let mut r: Vec<char> = Vec::new();
        r.push(digit_char_exec(n));
        assert(r@ =~= seq![digit_char(n as nat)]);
        r
    } else {
        let mut r = numeral_exec(n / 10);
        r.push(digit_char_exec(n % 10));
        r
    }
}

/// The decimal form of `n` (`n.to_string()`).
pub fn decimal_exec(n: i64) -> (r: Vec<char>)
    requires
        n > i64::MIN,
    ensures
        r@ == decimal(n as int),
{
    if n < 0 {
        let digits = numeral_exec((-n) as u64);
        let mut r: Vec<char> = Vec::new();
        r.push('-');
        r.extend_from_slice(digits.as_slice());
        assert(r@ =~= seq!['-'] + numeral((-n) as nat));
        r
    } else {
        numeral_exec(n as u64)
    }
}

} // verus!
