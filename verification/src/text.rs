//! Character-sequence operations on text: search, splitting, prefixes,
//! decimal numbers, and conversion between `str`, `String` and `Vec<char>`.
use vstd::prelude::*;
use vstd::std_specs::iter::IteratorSpec;

verus! {

/// Appends one character to a `String` (`String::push`).
#[verifier::external_body]
fn push_char(s: &mut String, c: char)
    ensures
        final(s)@ == old(s)@.push(c),
{
    s.push(c);
}

/// The characters of `s`, in order.
pub fn chars_of(s: &str) -> (r: Vec<char>)
    ensures
        r@ == s@,
{
    let mut r: Vec<char> = Vec::new();
    let mut it = s.chars();
    proof {
        broadcast use vstd::string::group_string_axioms;
        assert(IteratorSpec::remaining(&it) == s@);
    }
    loop
        invariant
            r@ + IteratorSpec::remaining(&it) == s@,
            it.obeys_prophetic_iter_laws(),
            IteratorSpec::decrease(&it) is Some,
        ensures
            r@ == s@,
        decreases IteratorSpec::decrease(&it)->0,
    {
        let ghost before = IteratorSpec::remaining(&it);
        match it.next() {
            Some(c) => {
                proof { broadcast use vstd::string::group_string_axioms; }
                r.push(c);
                assert(r@ + IteratorSpec::remaining(&it) == s@) by {
                    assert(before == seq![c] + IteratorSpec::remaining(&it));
                }
            },
            None => {
                proof { broadcast use vstd::string::group_string_axioms; }
                assert(r@ == s@);
                break;
            },
        }
    }
    r
}

/// The `String` holding the characters of `v`, in order.
pub fn string_of(v: &[char]) -> (r: String)
    ensures
        r@ == v@,
{
    let mut r = String::new();
    let mut i: usize = 0;
    while i < v.len()
        invariant
            i <= v.len(),
            r@ == v@.take(i as int),
        decreases v.len() - i,
    {
        push_char(&mut r, v[i]);
        assert(v@.take(i + 1) == v@.take(i as int).push(v@[i as int]));
        i = i + 1;
    }
    assert(v@.take(v.len() as int) == v@);
    r
}

/// `pat` occurs in `s` starting at position `i`.
pub open spec fn is_match_at(s: Seq<char>, pat: Seq<char>, i: int) -> bool {
    0 <= i && i + pat.len() <= s.len() && s.subrange(i, i + pat.len()) == pat
}

/// `pat` occurs somewhere in `s` (`str::contains`).
pub open spec fn contains_seq(s: Seq<char>, pat: Seq<char>) -> bool {
    exists|i: int| is_match_at(s, pat, i)
}

/// `s` begins with `pat` (`str::starts_with`).
pub open spec fn starts_with_seq(s: Seq<char>, pat: Seq<char>) -> bool {
    is_match_at(s, pat, 0)
}

/// Adds `front` at the start of the first piece.
pub open spec fn extend_first(front: Seq<char>, pieces: Seq<Seq<char>>) -> Seq<Seq<char>> {
    pieces.update(0, front + pieces[0])
}

/// The pieces of `s` between the non-overlapping occurrences of `sep`, found
/// from left to right (`str::split` with a non-empty separator): where `s`
/// starts with `sep` an empty piece ends there; otherwise the first character
/// belongs to the first piece of the rest.
pub open spec fn split_seq(s: Seq<char>, sep: Seq<char>) -> Seq<Seq<char>>
    decreases s.len(),
{
    if sep.len() == 0 || s.len() < sep.len() {
        seq![s]
    } else if s.take(sep.len() as int) == sep {
        seq![Seq::<char>::empty()] + split_seq(s.skip(sep.len() as int), sep)
    } else {
        extend_first(seq![s[0]], split_seq(s.skip(1), sep))
    }
}

/// The character sequences held by a sequence of vectors.
pub open spec fn views(v: Seq<Vec<char>>) -> Seq<Seq<char>> {
    v.map_values(|x: Vec<char>| x@)
}

/// `s` with every `'-'` turned into `'_'` (`str::replace("-", "_")`).
pub open spec fn dashes_to_underscores(s: Seq<char>) -> Seq<char> {
    s.map_values(|c: char| if c == '-' { '_' } else { c })
}

/// The decimal digit for `d < 10`.
pub open spec fn digit_char(d: nat) -> char {
    (d + 48) as char
}

/// The decimal representation of `n`, as `Display` writes an integer.
pub open spec fn decimal(n: nat) -> Seq<char>
    decreases n,
{
    if n < 10 {
        seq![digit_char(n)]
    } else {
        decimal(n / 10).push(digit_char(n % 10))
    }
}

pub open spec fn is_digit(c: char) -> bool {
    '0' <= c <= '9'
}

pub open spec fn all_digits(d: Seq<char>) -> bool {
    forall|i: int| 0 <= i < d.len() ==> is_digit(#[trigger] d[i])
}

/// The value of a string of decimal digits.
pub open spec fn digits_value(d: Seq<char>) -> nat
    decreases d.len(),
{
    if d.len() == 0 {
        0
    } else {
        digits_value(d.drop_last()) * 10 + (d.last() as nat - 48) as nat
    }
}

/// The digits of an unsigned number: one leading `'+'` is allowed.
pub open spec fn unsigned_digits(s: Seq<char>) -> Seq<char> {
    if s.len() > 0 && s[0] == '+' {
        s.skip(1)
    } else {
        s
    }
}

/// What `usize::from_str` gives: the value of a non-empty run of decimal
/// digits after an optional `'+'`, when it fits in a `usize`.
pub open spec fn parse_usize_spec(s: Seq<char>) -> Option<nat> {
    let d = unsigned_digits(s);
    if d.len() > 0 && all_digits(d) && digits_value(d) <= usize::MAX {
        Some(digits_value(d))
    } else {
        None
    }
}

pub proof fn lemma_split_nonempty(s: Seq<char>, sep: Seq<char>)
    ensures
        split_seq(s, sep).len() >= 1,
    decreases s.len(),
{
    if sep.len() == 0 || s.len() < sep.len() {
    } else if s.take(sep.len() as int) == sep {
        lemma_split_nonempty(s.skip(sep.len() as int), sep);
    } else {
        lemma_split_nonempty(s.skip(1), sep);
    }
}

/// The pieces joined back together with `sep` between them.
pub open spec fn join_seq(pieces: Seq<Seq<char>>, sep: Seq<char>) -> Seq<char>
    decreases pieces.len(),
{
    if pieces.len() == 0 {
        Seq::empty()
    } else if pieces.len() == 1 {
        pieces[0]
    } else {
        pieces[0] + sep + join_seq(pieces.drop_first(), sep)
    }
}

proof fn lemma_join_extend_first(front: Seq<char>, r: Seq<Seq<char>>, sep: Seq<char>)
    requires
        r.len() >= 1,
    ensures
        join_seq(extend_first(front, r), sep) == front + join_seq(r, sep),
{
    let e = extend_first(front, r);
    if r.len() == 1 {
        assert(e.len() == 1);
    } else {
        assert(e.drop_first() =~= r.drop_first());
        assert(front + (r[0] + sep + join_seq(r.drop_first(), sep)) =~= (front + r[0]) + sep + join_seq(
            r.drop_first(),
            sep,
        ));
    }
}

/// Splitting loses nothing: joining the pieces with the separator gives the
/// text back.
pub proof fn lemma_split_join(s: Seq<char>, sep: Seq<char>)
    requires
        sep.len() > 0,
    ensures
        join_seq(split_seq(s, sep), sep) == s,
    decreases s.len(),
{
    if s.len() < sep.len() {
    } else if s.take(sep.len() as int) == sep {
        let rest = s.skip(sep.len() as int);
        lemma_split_join(rest, sep);
        lemma_split_nonempty(rest, sep);
        let r = split_seq(rest, sep);
        let pieces = seq![Seq::<char>::empty()] + r;
        assert(pieces.drop_first() =~= r);
        assert(pieces[0] =~= Seq::<char>::empty());
        assert(Seq::<char>::empty() + sep + rest =~= s);
    } else {
        let rest = s.skip(1);
        lemma_split_join(rest, sep);
        lemma_split_nonempty(rest, sep);
        lemma_join_extend_first(seq![s[0]], split_seq(rest, sep), sep);
        assert(seq![s[0]] + rest =~= s);
    }
}

/// Reading back a number written in decimal gives the number.
pub proof fn lemma_decimal_parses_back(n: nat)
    requires
        n <= usize::MAX,
    ensures
        parse_usize_spec(decimal(n)) == Some(n),
{
    lemma_decimal_digits(n);
    assert(decimal(n)[0] != '+') by {
        assert(is_digit(decimal(n)[0]));
    }
    assert(unsigned_digits(decimal(n)) == decimal(n));
}

proof fn lemma_decimal_digits(n: nat)
    ensures
        decimal(n).len() > 0,
        all_digits(decimal(n)),
        digits_value(decimal(n)) == n,
    decreases n,
{
    let d: nat = (n % 10) as nat;
    assert(digit_char(d) as nat == d + 48);
    if n < 10 {
        assert(decimal(n).drop_last() =~= Seq::<char>::empty());
        assert(d == n);
        assert(decimal(n).last() == digit_char(d));
        assert(digits_value(decimal(n)) == digits_value(Seq::<char>::empty()) * 10 + (decimal(n).last() as nat - 48) as nat);
    } else {
        lemma_decimal_digits(n / 10);
        let x = decimal(n / 10);
        assert(decimal(n).drop_last() =~= x);
        assert(decimal(n).last() == digit_char(d));
        assert(digits_value(decimal(n)) == digits_value(x) * 10 + (decimal(n).last() as nat - 48) as nat);
        assert((n / 10) * 10 + d == n);
        assert forall|i: int| 0 <= i < decimal(n).len() implies is_digit(#[trigger] decimal(n)[i]) by {
            if i < x.len() {
                assert(decimal(n)[i] == x[i]);
            }
        }
    }
}

/// Whether `pat` occurs in `s` at position `i`.
pub fn matches_at(s: &[char], pat: &[char], i: usize) -> (r: bool)
    ensures
        r == is_match_at(s@, pat@, i as int),
{
    if i > s.len() || pat.len() > s.len() - i {
        return false;
    }
    let mut j: usize = 0;
    while j < pat.len()
        invariant
            i + pat.len() <= s.len(),
            j <= pat.len(),
            forall|k: int| 0 <= k < j ==> s@[i + k] == pat@[k],
        decreases pat.len() - j,
    {
        if s[i + j] != pat[j] {
            assert(s@.subrange(i as int, i + pat.len())[j as int] != pat@[j as int]);
            return false;
        }
        j = j + 1;
    }
    assert(s@.subrange(i as int, i + pat.len()) =~= pat@);
    true
}

/// Whether `pat` occurs anywhere in `s`.
pub fn contains(s: &[char], pat: &[char]) -> (r: bool)
    ensures
        r == contains_seq(s@, pat@),
{
    if pat.len() > s.len() {
        assert forall|i: int| !is_match_at(s@, pat@, i) by {}
        return false;
    }
    let last: usize = s.len() - pat.len();
    let mut i: usize = 0;
    loop
        invariant
            pat.len() <= s.len(),
            last == s.len() - pat.len(),
            i <= last,
            forall|k: int| 0 <= k < i ==> !is_match_at(s@, pat@, k),
        ensures
            forall|k: int| 0 <= k <= last ==> !is_match_at(s@, pat@, k),
        decreases last - i,
    {
        if matches_at(s, pat, i) {
            return true;
        }
        if i == last {
            break;
        }
        i = i + 1;
    }
    assert forall|k: int| !is_match_at(s@, pat@, k) by {}
    false
}

/// Whether `a` and `b` hold the same characters.
pub fn chars_equal(a: &[char], b: &[char]) -> (r: bool)
    ensures
        r == (a@ == b@),
{
    if a.len() != b.len() {
        return false;
    }
    let r = matches_at(a, b, 0);
    assert(a@.subrange(0, b@.len() as int) =~= a@);
    r
}

/// A copy of the characters of `a`.
pub fn copy_chars(a: &[char]) -> (r: Vec<char>)
    ensures
        r@ == a@,
{
    let mut r: Vec<char> = Vec::new();
    push_all(&mut r, a);
    assert(r@ =~= a@);
    r
}

/// The first position at which `pat` occurs in `s` (`str::find`), if any.
#[verifier::opaque]
pub open spec fn first_match(s: Seq<char>, pat: Seq<char>) -> Option<int> {
    if contains_seq(s, pat) {
        Some(
            choose|i: int|
                is_match_at(s, pat, i) && forall|j: int| 0 <= j < i ==> !is_match_at(s, pat, j),
        )
    } else {
        None
    }
}

/// The first position at which `pat` occurs in `s`, if any.
pub fn find(s: &[char], pat: &[char]) -> (r: Option<usize>)
    ensures
        r matches Some(i) ==> first_match(s@, pat@) == Some(i as int) && is_match_at(s@, pat@, i as int),
        r is None ==> first_match(s@, pat@) is None,
{
    reveal(first_match);
    if pat.len() > s.len() {
        assert forall|i: int| !is_match_at(s@, pat@, i) by {}
        return None;
    }
    let last: usize = s.len() - pat.len();
    let mut i: usize = 0;
    loop
        invariant
            pat.len() <= s.len(),
            last == s.len() - pat.len(),
            i <= last,
            forall|k: int| 0 <= k < i ==> !is_match_at(s@, pat@, k),
        ensures
            forall|k: int| 0 <= k <= last ==> !is_match_at(s@, pat@, k),
        decreases last - i,
    {
        if matches_at(s, pat, i) {
            proof {
                reveal(first_match);
                let c = choose|c: int|
                    is_match_at(s@, pat@, c) && forall|j: int| 0 <= j < c ==> !is_match_at(s@, pat@, j);
                assert(contains_seq(s@, pat@));
                assert(is_match_at(s@, pat@, c) && forall|j: int| 0 <= j < c ==> !is_match_at(s@, pat@, j));
                if c < i {
                } else if c > i {
                    assert(!is_match_at(s@, pat@, i as int));
                }
            }
            return Some(i);
        }
        if i == last {
            break;
        }
        i = i + 1;
    }
    assert forall|k: int| !is_match_at(s@, pat@, k) by {}
    None
}

/// `s` with `ins` inserted at position `p`.
pub fn insert_at(s: &[char], p: usize, ins: &[char]) -> (r: Vec<char>)
    requires
        p <= s@.len(),
    ensures
        r@ == s@.take(p as int) + ins@ + s@.skip(p as int),
{
    let mut v: Vec<char> = Vec::new();
    let mut i: usize = 0;
    while i < p
        invariant
            p <= s@.len(),
            i <= p,
            v@ == s@.take(i as int),
        decreases p - i,
    {
        v.push(s[i]);
        assert(s@.take(i + 1) =~= s@.take(i as int).push(s@[i as int]));
        i = i + 1;
    }
    push_all(&mut v, ins);
    let mut j: usize = p;
    while j < s.len()
        invariant
            p <= j <= s@.len(),
            v@ == s@.take(p as int) + ins@ + s@.subrange(p as int, j as int),
        decreases s.len() - j,
    {
        v.push(s[j]);
        assert(s@.subrange(p as int, j + 1) =~= s@.subrange(p as int, j as int).push(s@[j as int]));
        j = j + 1;
    }
    assert(s@.subrange(p as int, s@.len() as int) =~= s@.skip(p as int));
    v
}

/// Whether `s` begins with `pat`.
pub fn starts_with(s: &[char], pat: &[char]) -> (r: bool)
    ensures
        r == starts_with_seq(s@, pat@),
{
    matches_at(s, pat, 0)
}

/// Appends the characters of `w` to `v`.
pub fn push_all(v: &mut Vec<char>, w: &[char])
    ensures
        final(v)@ == old(v)@ + w@,
{
    let mut i: usize = 0;
    while i < w.len()
        invariant
            i <= w.len(),
            v@ == old(v)@ + w@.take(i as int),
        decreases w.len() - i,
    {
        v.push(w[i]);
        assert(w@.take(i + 1) == w@.take(i as int).push(w@[i as int]));
        i = i + 1;
    }
    assert(w@.take(w.len() as int) == w@);
}

/// The concatenation of `a` and `b`.
pub fn concat(a: &[char], b: &[char]) -> (r: Vec<char>)
    ensures
        r@ == a@ + b@,
{
    let mut r: Vec<char> = Vec::new();
    push_all(&mut r, a);
    push_all(&mut r, b);
    assert(r@ == a@ + b@);
    r
}

/// The pieces of `s` between the occurrences of `sep`.
pub fn split(s: &[char], sep: &[char]) -> (r: Vec<Vec<char>>)
    requires
        sep@.len() > 0,
    ensures
        views(r@) == split_seq(s@, sep@),
{
    let k: usize = sep.len();
    let n: usize = s.len();
    let mut pieces: Vec<Vec<char>> = Vec::new();
    let mut cur: Vec<char> = Vec::new();
    let mut i: usize = 0;
    proof {
        assert(s@.skip(0) == s@);
        lemma_split_nonempty(s@, sep@);
        assert(extend_first(Seq::<char>::empty(), split_seq(s@, sep@)) =~= split_seq(s@, sep@));
    }
    while k <= n - i
        invariant
            k == sep@.len(),
            k > 0,
            n == s@.len(),
            i <= n,
            views(pieces@) + extend_first(cur@, split_seq(s@.skip(i as int), sep@))
                == split_seq(s@, sep@),
        decreases n - i,
    {
        let ghost t = s@.skip(i as int);
        proof {
            lemma_split_nonempty(t.skip(1), sep@);
            lemma_split_nonempty(t.skip(k as int), sep@);
        }
        if matches_at(s, sep, i) {
            assert(t.take(k as int) =~= sep@);
            assert(t.skip(k as int) =~= s@.skip(i + k));
            let ghost rest = split_seq(s@.skip(i + k), sep@);
            assert(extend_first(cur@, split_seq(t, sep@)) =~= seq![cur@] + rest);
            let ghost old_pieces = views(pieces@);
            let ghost old_cur = cur@;
            pieces.push(cur);
            assert(views(pieces@) =~= old_pieces.push(old_cur));
            cur = Vec::new();
            assert(extend_first(cur@, rest) =~= rest) by {
                assert(Seq::<char>::empty() + rest[0] =~= rest[0]);
            }
            assert(old_pieces.push(old_cur) + rest =~= old_pieces + (seq![old_cur] + rest));
            i = i + k;
        } else {
            assert(t.take(k as int) != sep@) by {
                if t.take(k as int) == sep@ {
                    assert(s@.subrange(i as int, i + k) =~= t.take(k as int));
                }
            }
            assert(t.skip(1) =~= s@.skip(i + 1));
            let ghost rest = split_seq(s@.skip(i + 1), sep@);
            assert(t[0] == s@[i as int]);
            assert(split_seq(t, sep@) == extend_first(seq![t[0]], rest));
            assert(rest.len() >= 1);
            assert(cur@ + (seq![t[0]] + rest[0]) =~= cur@.push(s@[i as int]) + rest[0]);
            assert(extend_first(cur@, split_seq(t, sep@)) =~= extend_first(cur@.push(s@[i as int]), rest));
            cur.push(s[i]);
            i = i + 1;
        }
    }
    let ghost t = s@.skip(i as int);
    assert(split_seq(t, sep@) == seq![t]);
    let ghost old_pieces = views(pieces@);
    let ghost cur_v = cur@;
    let mut last = cur;
    let mut j: usize = i;
    while j < n
        invariant
            i <= j <= n,
            n == s@.len(),
            last@ == cur_v + s@.subrange(i as int, j as int),
        decreases n - j,
    {
        last.push(s[j]);
        assert(s@.subrange(i as int, j + 1) == s@.subrange(i as int, j as int).push(s@[j as int]));
        j = j + 1;
    }
    assert(s@.subrange(i as int, n as int) =~= t);
    pieces.push(last);
    assert(views(pieces@) =~= old_pieces.push(cur_v + t));
    assert(extend_first(cur_v, seq![t]) =~= seq![cur_v + t]);
    pieces
}

/// `s` with every `'-'` turned into `'_'`.
pub fn dashes_to_underscores_of(s: &[char]) -> (r: Vec<char>)
    ensures
        r@ == dashes_to_underscores(s@),
{
    let mut r: Vec<char> = Vec::new();
    let mut i: usize = 0;
    while i < s.len()
        invariant
            i <= s.len(),
            r@ == dashes_to_underscores(s@.take(i as int)),
        decreases s.len() - i,
    {
        let c = s[i];
        if c == '-' {
            r.push('_');
        } else {
            r.push(c);
        }
        assert(dashes_to_underscores(s@.take(i + 1)) =~= dashes_to_underscores(s@.take(i as int)).push(
            if c == '-' { '_' } else { c },
        ));
        i = i + 1;
    }
    assert(s@.take(s.len() as int) == s@);
    r
}

/// The decimal representation of `n`.
pub fn decimal_of(n: usize) -> (r: Vec<char>)
    ensures
        r@ == decimal(n as nat),
    decreases n,
{
    let d: u8 = (n % 10) as u8;
    let c = (48u8 + d) as char;
    assert(c == digit_char((n % 10) as nat));
    if n < 10 {
        let mut r: Vec<char> = Vec::new();
        r.push(c);
        assert(r@ =~= seq![c]);
        r
    } else {
        let mut r = decimal_of(n / 10);
        r.push(c);
        r
    }
}

proof fn lemma_digits_value_grows(d: Seq<char>, j: int)
    requires
        all_digits(d),
        0 <= j <= d.len(),
    ensures
        digits_value(d.take(j)) <= digits_value(d),
    decreases d.len() - j,
{
    if j < d.len() {
        lemma_digits_value_grows(d, j + 1);
        assert(d.take(j + 1).drop_last() =~= d.take(j));
        assert(is_digit(d[j]));
    } else {
        assert(d.take(j) =~= d);
    }
}

/// `usize::from_str`: the value of `s` when it is an unsigned decimal number
/// that fits in a `usize`.
pub fn parse_usize(s: &[char]) -> (r: Option<usize>)
    ensures
        r matches Some(v) ==> parse_usize_spec(s@) == Some(v as nat),
        r is None ==> parse_usize_spec(s@) is None,
{
    let start: usize = if s.len() > 0 && s[0] == '+' { 1 } else { 0 };
    let ghost d = unsigned_digits(s@);
    assert(d =~= s@.skip(start as int));
    if start >= s.len() {
        return None;
    }
    let mut acc: usize = 0;
    let mut i: usize = start;
    assert(d.take(0) =~= Seq::<char>::empty());
    while i < s.len()
        invariant
            start <= i <= s.len(),
            d == s@.skip(start as int),
            d == unsigned_digits(s@),
            all_digits(d.take(i - start)),
            acc as nat == digits_value(d.take(i - start)),
        decreases s.len() - i,
    {
        let c = s[i];
        let ghost p = d.take(i - start + 1);
        assert(p.drop_last() =~= d.take(i - start));
        assert(p.last() == c);
        if !('0' <= c && c <= '9') {
            assert(d[i - start] == c);
            assert(!is_digit(d[i - start]));
            assert(!all_digits(d));
            return None;
        }
        assert(all_digits(p));
        let digit: usize = (c as u32 - 48) as usize;
        assert(digits_value(p) == acc as nat * 10 + digit as nat);
        match acc.checked_mul(10) {
            Some(m) => match m.checked_add(digit) {
                Some(v) => {
                    acc = v;
                },
                None => {
                    proof {
                        if all_digits(d) {
                            lemma_digits_value_grows(d, i - start + 1);
                        }
                    }
                    return None;
                },
            },
            None => {
                proof {
                    if all_digits(d) {
                        lemma_digits_value_grows(d, i - start + 1);
                    }
                }
                return None;
            },
        }
        i = i + 1;
    }
    assert(d.take(s.len() - start) =~= d);
    Some(acc)
}

} // verus!
