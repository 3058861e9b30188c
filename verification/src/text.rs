//! Character-sequence helpers: conversions between strings and `Vec<char>`,
//! searching, and the lexicographic order that `String`'s `Ord` uses.
use vstd::prelude::*;

verus! {

/// Lexicographic "less than" on character sequences, by code point. UTF-8
/// preserves code point order, so this is the order of `str`'s `Ord`.
pub open spec fn seq_lt(a: Seq<char>, b: Seq<char>) -> bool
    decreases a.len(),
{
    if b.len() == 0 {
        false
    } else if a.len() == 0 {
        true
    } else if a[0] != b[0] {
        a[0] < b[0]
    } else {
        seq_lt(a.drop_first(), b.drop_first())
    }
}

pub proof fn lemma_lt_irreflexive(a: Seq<char>)
    ensures
        !seq_lt(a, a),
    decreases a.len(),
{
    if a.len() > 0 {
        lemma_lt_irreflexive(a.drop_first());
    }
}

pub proof fn lemma_lt_asymmetric(a: Seq<char>, b: Seq<char>)
    ensures
        !(seq_lt(a, b) && seq_lt(b, a)),
    decreases a.len(),
{
    if a.len() > 0 && b.len() > 0 && a[0] == b[0] {
        lemma_lt_asymmetric(a.drop_first(), b.drop_first());
    }
}

pub proof fn lemma_lt_transitive(a: Seq<char>, b: Seq<char>, c: Seq<char>)
    requires
        seq_lt(a, b),
        seq_lt(b, c),
    ensures
        seq_lt(a, c),
    decreases a.len(),
{
    if a.len() > 0 && a[0] == b[0] && b[0] == c[0] {
        lemma_lt_transitive(a.drop_first(), b.drop_first(), c.drop_first());
    }
}

pub proof fn lemma_lt_total(a: Seq<char>, b: Seq<char>)
    ensures
        a == b || seq_lt(a, b) || seq_lt(b, a),
    decreases a.len(),
{
    if a.len() > 0 && b.len() > 0 {
        if a[0] == b[0] {
            lemma_lt_total(a.drop_first(), b.drop_first());
            if a.drop_first() == b.drop_first() {
                assert(a =~= seq![a[0]] + a.drop_first());
                assert(b =~= seq![b[0]] + b.drop_first());
            }
        }
    } else if a.len() == 0 && b.len() == 0 {
        assert(a =~= b);
    }
}

/// The outcome of comparing two values.
#[derive(PartialEq, Eq, Structural, Clone, Copy, Debug)]
pub enum Order {
    Less,
    Equal,
    Greater,
}

/// The characters of `s`, in order.
pub fn chars_of(s: &str) -> (v: Vec<char>)
    ensures
        v@ == s@,
{
    let mut v: Vec<char> = Vec::new();
    for c in it: s.chars()
        invariant
            v@ == it.seq().take(it.index() as int),
    {
        v.push(c);
    }
    v
}

/// `std`'s `String::from_iter`: the string made of the given characters.
#[verifier::external_body]
pub(crate) fn string_from(v: &[char]) -> (s: String)
    ensures
        s@ == v@,
{
    String::from_iter(v.iter())
}

/// The string made of the characters `v[start..end]`.
pub fn substring(v: &Vec<char>, start: usize, end: usize) -> (s: String)
    requires
        start <= end <= v.len(),
    ensures
        s@ == v@.subrange(start as int, end as int),
{
    let w = slice(v, start, end);
    string_from(w.as_slice())
}

/// Compares two character sequences in the order of [`seq_lt`].
pub fn compare_chars(a: &Vec<char>, b: &Vec<char>) -> (r: Order)
    ensures
        r == Order::Equal <==> a@ == b@,
        r == Order::Less <==> seq_lt(a@, b@),
        r == Order::Greater <==> seq_lt(b@, a@),
{
    proof {
        lemma_lt_total(a@, b@);
        lemma_lt_asymmetric(a@, b@);
        lemma_lt_irreflexive(a@);
    }
    let mut i: usize = 0;
    assert(a@.skip(0) =~= a@);
    assert(b@.skip(0) =~= b@);
    while i < a.len() && i < b.len()
        invariant
            i <= a.len(),
            i <= b.len(),
            a@.take(i as int) == b@.take(i as int),
            seq_lt(a@, b@) == seq_lt(a@.skip(i as int), b@.skip(i as int)),
            seq_lt(b@, a@) == seq_lt(b@.skip(i as int), a@.skip(i as int)),
        decreases a.len() - i,
    {
        assert(a@.skip(i as int).drop_first() =~= a@.skip(i + 1));
        assert(b@.skip(i as int).drop_first() =~= b@.skip(i + 1));
        if a[i] != b[i] {
            assert(a@[i as int] != b@[i as int]);
            if a[i] < b[i] {
                return Order::Less;
            } else {
                return Order::Greater;
            }
        }
        assert(a@.take(i + 1) =~= a@.take(i as int).push(a@[i as int]));
        assert(b@.take(i + 1) =~= b@.take(i as int).push(b@[i as int]));
        i += 1;
    }
    if a.len() == b.len() {
        assert(a@ =~= a@.take(i as int));
        assert(b@ =~= b@.take(i as int));
        Order::Equal
    } else if a.len() < b.len() {
        assert(a@ != b@);
        Order::Less
    } else {
        assert(a@ != b@);
        Order::Greater
    }
}

/// Compares two strings in the order of [`seq_lt`], the order of `str`'s `Ord`.
pub fn compare_str(a: &str, b: &str) -> (r: Order)
    ensures
        r == Order::Equal <==> a@ == b@,
        r == Order::Less <==> seq_lt(a@, b@),
        r == Order::Greater <==> seq_lt(b@, a@),
{
    let va = chars_of(a);
    let vb = chars_of(b);
    compare_chars(&va, &vb)
}

/// Whether two strings hold the same characters.
pub fn str_eq(a: &str, b: &str) -> (r: bool)
    ensures
        r == (a@ == b@),
{
    compare_str(a, b) == Order::Equal
}

} // verus!

verus! {

/// The character sequences of a sequence of strings.
pub open spec fn strs(v: Seq<String>) -> Seq<Seq<char>> {
    v.map_values(|x: String| x@)
}

/// The string made of `a` followed by `b`.
pub fn concat(a: &str, b: &str) -> (r: String)
    ensures
        r@ == a@ + b@,
{
    let mut va = chars_of(a);
    let mut vb = chars_of(b);
    va.append(&mut vb);
    string_from(va.as_slice())
}

/// The strings of `s` one after the other, with `sep` between each two.
pub open spec fn join(s: Seq<Seq<char>>, sep: Seq<char>) -> Seq<char>
    decreases s.len(),
{
    if s.len() == 0 {
        Seq::empty()
    } else if s.len() == 1 {
        s[0]
    } else {
        join(s.drop_last(), sep) + sep + s.last()
    }
}

/// The strings of `v` one after the other, with `sep` between each two.
pub fn join_strs(v: &Vec<String>, sep: &str) -> (r: String)
    ensures
        r@ == join(strs(v@), sep@),
{
    let mut acc = String::new();
    let mut i: usize = 0;
    proof {
        assert(strs(v@).take(0) =~= Seq::<Seq<char>>::empty());
    }
    while i < v.len()
        invariant
            i <= v@.len(),
            acc@ == join(strs(v@).take(i as int), sep@),
        decreases v.len() - i,
    {
        proof {
            assert(strs(v@).take(i + 1).drop_last() =~= strs(v@).take(i as int));
        }
        if i == 0 {
            acc = v[0].clone();
        } else {
            let with_sep = concat(acc.as_str(), sep);
            acc = concat(with_sep.as_str(), v[i].as_str());
        }
        i += 1;
    }
    proof {
        assert(strs(v@).take(i as int) =~= strs(v@));
    }
    acc
}

/// Whether one of the strings of `v` holds the characters of `s`.
pub fn contains_str(v: &Vec<String>, s: &str) -> (r: bool)
    ensures
        r == strs(v@).contains(s@),
{
    let mut i: usize = 0;
    while i < v.len()
        invariant
            i <= v.len(),
            forall|j: int| 0 <= j < i ==> v@[j]@ != s@,
        decreases v.len() - i,
    {
        if str_eq(v[i].as_str(), s) {
            assert(strs(v@)[i as int] == s@);
            return true;
        }
        i += 1;
    }
    assert(!strs(v@).contains(s@)) by {
        if strs(v@).contains(s@) {
            let j = choose|j: int| 0 <= j < strs(v@).len() && strs(v@)[j] == s@;
            assert(v@[j]@ == s@);
        }
    }
    false
}

} // verus!

verus! {

/// `pat` occurs in `s` at position `i`.
pub open spec fn occurs_at(s: Seq<char>, pat: Seq<char>, i: int) -> bool {
    0 <= i && i + pat.len() <= s.len() && s.subrange(i, i + pat.len()) == pat
}

/// `i` is the first position where `pat` occurs in `s`.
pub open spec fn is_first_occurrence(s: Seq<char>, pat: Seq<char>, i: int) -> bool {
    occurs_at(s, pat, i) && forall|j: int| 0 <= j < i ==> !occurs_at(s, pat, j)
}

/// `i` is the last position where `pat` occurs in `s`.
pub open spec fn is_last_occurrence(s: Seq<char>, pat: Seq<char>, i: int) -> bool {
    occurs_at(s, pat, i) && forall|j: int| i < j <= s.len() ==> !occurs_at(s, pat, j)
}

/// The first position where `pat` occurs in `s`, as `str::find` gives it.
pub open spec fn find(s: Seq<char>, pat: Seq<char>) -> Option<int> {
    if exists|i: int| occurs_at(s, pat, i) {
        Some(choose|i: int| is_first_occurrence(s, pat, i))
    } else {
        None
    }
}

/// The last position where `pat` occurs in `s`, as `str::rfind` gives it.
pub open spec fn rfind(s: Seq<char>, pat: Seq<char>) -> Option<int> {
    if exists|i: int| occurs_at(s, pat, i) {
        Some(choose|i: int| is_last_occurrence(s, pat, i))
    } else {
        None
    }
}

/// `s` begins with `pat`.
pub open spec fn starts_with(s: Seq<char>, pat: Seq<char>) -> bool {
    pat.len() <= s.len() && s.take(pat.len() as int) == pat
}

/// `s` ends with `pat`.
pub open spec fn ends_with(s: Seq<char>, pat: Seq<char>) -> bool {
    pat.len() <= s.len() && s.skip(s.len() - pat.len()) == pat
}

proof fn lemma_find_some(s: Seq<char>, pat: Seq<char>, i: int)
    requires
        is_first_occurrence(s, pat, i),
    ensures
        find(s, pat) == Some(i),
{
    let j = choose|j: int| is_first_occurrence(s, pat, j);
    assert(is_first_occurrence(s, pat, j));
}

proof fn lemma_rfind_some(s: Seq<char>, pat: Seq<char>, i: int)
    requires
        is_last_occurrence(s, pat, i),
    ensures
        rfind(s, pat) == Some(i),
{
    let j = choose|j: int| is_last_occurrence(s, pat, j);
    assert(is_last_occurrence(s, pat, j));
    assert(occurs_at(s, pat, j));
    if j < i {
        assert(j <= s.len());
    } else if j > i {
        assert(i + pat.len() <= s.len());
    }
}

/// Whether `pat` occurs in `v` at position `i`.
fn matches_here(v: &Vec<char>, pat: &Vec<char>, i: usize) -> (r: bool)
    requires
        i <= v.len(),
    ensures
        r == occurs_at(v@, pat@, i as int),
{
    if pat.len() > v.len() - i {
        return false;
    }
    let mut k: usize = 0;
    while k < pat.len()
        invariant
            i + pat.len() <= v.len(),
            k <= pat.len(),
            forall|m: int| 0 <= m < k ==> v@[i + m] == pat@[m],
        decreases pat.len() - k,
    {
        if v[i + k] != pat[k] {
            assert(v@.subrange(i as int, i + pat.len())[k as int] != pat@[k as int]);
            return false;
        }
        k += 1;
    }
    assert(v@.subrange(i as int, i + pat.len()) =~= pat@);
    true
}

/// The first position where `pat` occurs in `v`.
pub fn find_chars(v: &Vec<char>, pat: &Vec<char>) -> (r: Option<usize>)
    ensures
        match r {
            Some(i) => find(v@, pat@) == Some(i as int) && is_first_occurrence(v@, pat@, i as int),
            None => find(v@, pat@) is None && forall|j: int| !occurs_at(v@, pat@, j),
        },
{
    let mut i: usize = 0;
    while i < v.len()
        invariant
            i <= v.len(),
            forall|j: int| 0 <= j < i ==> !occurs_at(v@, pat@, j),
        decreases v.len() - i,
    {
        if matches_here(v, pat, i) {
            proof {
                lemma_find_some(v@, pat@, i as int);
            }
            return Some(i);
        }
        i += 1;
    }
    if matches_here(v, pat, i) {
        proof {
            lemma_find_some(v@, pat@, i as int);
        }
        return Some(i);
    }
    None
}

/// The last position where `pat` occurs in `v`.
pub fn rfind_chars(v: &Vec<char>, pat: &Vec<char>) -> (r: Option<usize>)
    ensures
        match r {
            Some(i) => rfind(v@, pat@) == Some(i as int) && is_last_occurrence(v@, pat@, i as int),
            None => rfind(v@, pat@) is None && forall|j: int| !occurs_at(v@, pat@, j),
        },
{
    let mut i: usize = v.len();
    if matches_here(v, pat, i) {
        proof {
            lemma_rfind_some(v@, pat@, i as int);
        }
        return Some(i);
    }
    while i > 0
        invariant
            i <= v.len(),
            forall|j: int| i <= j <= v.len() ==> !occurs_at(v@, pat@, j),
        decreases i,
    {
        i -= 1;
        if matches_here(v, pat, i) {
            proof {
                lemma_rfind_some(v@, pat@, i as int);
            }
            return Some(i);
        }
    }
    None
}

/// The characters of `s`, each in a sequence of one, for searching.
pub fn pattern(s: &str) -> (v: Vec<char>)
    ensures
        v@ == s@,
{
    chars_of(s)
}

/// Whether `v` begins with `pat`.
pub fn starts_with_chars(v: &Vec<char>, pat: &Vec<char>) -> (r: bool)
    ensures
        r == starts_with(v@, pat@),
{
    let r = matches_here(v, pat, 0);
    proof {
        if pat@.len() <= v@.len() {
            assert(v@.subrange(0, pat@.len() as int) =~= v@.take(pat@.len() as int));
        }
    }
    r
}

/// Whether `v` ends with `pat`.
pub fn ends_with_chars(v: &Vec<char>, pat: &Vec<char>) -> (r: bool)
    ensures
        r == ends_with(v@, pat@),
{
    if pat.len() > v.len() {
        return false;
    }
    let r = matches_here(v, pat, v.len() - pat.len());
    proof {
        assert(v@.subrange(v@.len() - pat@.len(), v@.len() as int) =~= v@.skip(v@.len() - pat@.len()));
    }
    r
}

/// The characters `v[start..end]`.
pub fn slice(v: &Vec<char>, start: usize, end: usize) -> (w: Vec<char>)
    requires
        start <= end <= v.len(),
    ensures
        w@ == v@.subrange(start as int, end as int),
{
    let mut w: Vec<char> = Vec::new();
    let mut i = start;
    while i < end
        invariant
            start <= i <= end <= v.len(),
            w@ == v@.subrange(start as int, i as int),
        decreases end - i,
    {
        w.push(v[i]);
        i += 1;
    }
    w
}

} // verus!
