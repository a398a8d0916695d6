//! Character-level helpers over string slices: splitting and trimming.
use vstd::prelude::*;

verus! {

/// The index of the first occurrence of `c` in `t`, if any.
pub open spec fn find_char(t: Seq<char>, c: char) -> Option<int>
    decreases t.len(),
{
    if t.len() == 0 {
        None
    } else {
        match find_char(t.drop_last(), c) {
            Some(i) => Some(i),
            None => if t.last() == c {
                Some(t.len() - 1)
            } else {
                None
            },
        }
    }
}

/// `t` split at the first `c`: the part before it and the part after it.
pub open spec fn split_once(t: Seq<char>, c: char) -> Option<(Seq<char>, Seq<char>)> {
    match find_char(t, c) {
        Some(i) => Some((t.take(i), t.skip(i + 1))),
        None => None,
    }
}

/// `t` split at every `c`; always at least one piece.
pub open spec fn split_all(t: Seq<char>, c: char) -> Seq<Seq<char>>
    decreases t.len(),
{
    if t.len() == 0 {
        seq![Seq::empty()]
    } else {
        let rest = split_all(t.drop_last(), c);
        if t.last() == c {
            rest.push(Seq::empty())
        } else {
            rest.update(rest.len() - 1, rest.last().push(t.last()))
        }
    }
}

/// The characters with the Unicode `White_Space` property.
pub open spec fn is_white(c: char) -> bool {
    let u = c as u32;
    (0x9 <= u <= 0xd) || u == 0x20 || u == 0x85 || u == 0xa0 || u == 0x1680 || (0x2000 <= u
        <= 0x200a) || u == 0x2028 || u == 0x2029 || u == 0x202f || u == 0x205f || u == 0x3000
}

/// `t` without leading and trailing white space.
pub open spec fn trim(t: Seq<char>) -> Seq<char>
    decreases t.len(),
{
    if t.len() > 0 && is_white(t[0]) {
        trim(t.drop_first())
    } else if t.len() > 0 && is_white(t.last()) {
        trim(t.drop_last())
    } else {
        t
    }
}

proof fn lemma_find_extend(t: Seq<char>, c: char, n: int, m: int)
    requires
        0 <= n <= m <= t.len(),
        find_char(t.take(n), c) is Some,
    ensures
        find_char(t.take(m), c) == find_char(t.take(n), c),
    decreases m - n,
{
    if m > n {
        lemma_find_extend(t, c, n, m - 1);
        assert(t.take(m).drop_last() =~= t.take(m - 1));
    }
}

/// `find_char` gives the first occurrence.
pub proof fn lemma_find_char(t: Seq<char>, c: char)
    ensures
        find_char(t, c) matches Some(i) ==> 0 <= i < t.len() && t[i] == c && forall|j: int|
            0 <= j < i ==> t[j] != c,
        find_char(t, c) is None ==> forall|j: int| 0 <= j < t.len() ==> t[j] != c,
    decreases t.len(),
{
    if t.len() > 0 {
        let u = t.drop_last();
        lemma_find_char(u, c);
        assert(forall|j: int| 0 <= j < u.len() ==> u[j] == t[j]);
        if find_char(u, c) is None {
            assert forall|j: int| 0 <= j < t.len() - 1 implies t[j] != c by {
                assert(u[j] == t[j]);
            }
        }
    }
}

/// Split at the first `c` of `a + [c] + b`, where `a` holds no `c`.
pub proof fn lemma_split_once_at(a: Seq<char>, b: Seq<char>, c: char)
    requires
        forall|j: int| 0 <= j < a.len() ==> a[j] != c,
    ensures
        split_once(a + seq![c] + b, c) == Some((a, b)),
{
    let t = a + seq![c] + b;
    lemma_find_char(t, c);
    assert(t[a.len() as int] == c);
    match find_char(t, c) {
        Some(i) => {
            assert(i == a.len());
        },
        None => {},
    }
    assert(t.take(a.len() as int) =~= a);
    assert(t.skip(a.len() as int + 1) =~= b);
}

pub proof fn lemma_split_all_nonempty(t: Seq<char>, c: char)
    ensures
        split_all(t, c).len() >= 1,
    decreases t.len(),
{
    if t.len() > 0 {
        lemma_split_all_nonempty(t.drop_last(), c);
    }
}

/// Whether `c` is white space.
pub fn is_white_char(c: char) -> (r: bool)
    ensures
        r == is_white(c),
{
    let u = c as u32;
    (0x9 <= u && u <= 0xd) || u == 0x20 || u == 0x85 || u == 0xa0 || u == 0x1680 || (0x2000 <= u
        && u <= 0x200a) || u == 0x2028 || u == 0x2029 || u == 0x202f || u == 0x205f || u == 0x3000
}

/// The characters of `s`, one per element.
pub fn chars_of(s: &str) -> (r: Vec<char>)
    ensures
        r@ == s@,
{
    let n = s.unicode_len();
    let mut r: Vec<char> = Vec::new();
    let mut i: usize = 0;
    while i < n
        invariant
            n == s@.len(),
            i <= n,
            r@ == s@.take(i as int),
        decreases n - i,
    {
        r.push(s.get_char(i));
        i = i + 1;
        assert(r@ =~= s@.take(i as int));
    }
    assert(r@ =~= s@);
    r
}

/// Whether `s` is exactly `word`.
pub fn is_word(s: &[char], word: &str) -> (r: bool)
    ensures
        r == (s@ == word@),
{
    let n = word.unicode_len();
    if s.len() != n {
        return false;
    }
    let mut i: usize = 0;
    while i < n
        invariant
            n == word@.len(),
            n == s@.len(),
            i <= n,
            s@.take(i as int) == word@.take(i as int),
        decreases n - i,
    {
        if s[i] != word.get_char(i) {
            assert(s@[i as int] != word@[i as int]);
            return false;
        }
        i = i + 1;
        assert(s@.take(i as int) =~= word@.take(i as int));
    }
    assert(s@ =~= s@.take(n as int));
    assert(word@ =~= word@.take(n as int));
    true
}

/// The index of the first `c` in `s`, if any.
pub fn find(s: &[char], c: char) -> (r: Option<usize>)
    ensures
        match r {
            Some(i) => i < s@.len() && s@[i as int] == c && find_char(s@, c) == Some(i as int),
            None => find_char(s@, c) is None,
        },
{
    let mut i: usize = 0;
    while i < s.len()
        invariant
            i <= s@.len(),
            find_char(s@.take(i as int), c) is None,
        decreases s.len() - i,
    {
        assert(s@.take(i as int + 1).drop_last() =~= s@.take(i as int));
        if s[i] == c {
            proof {
                lemma_find_extend(s@, c, i as int + 1, s@.len() as int);
                assert(s@.take(s@.len() as int) =~= s@);
            }
            return Some(i);
        }
        i = i + 1;
    }
    assert(s@.take(i as int) =~= s@);
    None
}

/// The bounds `(start, end)` of each piece of `s` split at every `c`.
pub fn split_bounds(s: &[char], c: char) -> (r: Vec<(usize, usize)>)
    ensures
        r@.len() == split_all(s@, c).len(),
        forall|k: int|
            0 <= k < r@.len() ==> #[trigger] r@[k].0 <= r@[k].1 <= s@.len() && s@.subrange(
                r@[k].0 as int,
                r@[k].1 as int,
            ) == split_all(s@, c)[k],
{
    let mut r: Vec<(usize, usize)> = Vec::new();
    let mut start: usize = 0;
    let mut i: usize = 0;
    while i < s.len()
        invariant
            start <= i <= s@.len(),
            r@.len() + 1 == split_all(s@.take(i as int), c).len(),
            split_all(s@.take(i as int), c).last() == s@.subrange(start as int, i as int),
            forall|k: int|
                0 <= k < r@.len() ==> #[trigger] r@[k].0 <= r@[k].1 <= s@.len() && s@.subrange(
                    r@[k].0 as int,
                    r@[k].1 as int,
                ) == split_all(s@.take(i as int), c)[k],
        decreases s.len() - i,
    {
        let ghost before = split_all(s@.take(i as int), c);
        proof {
            lemma_split_all_nonempty(s@.take(i as int), c);
            assert(s@.take(i as int + 1).drop_last() =~= s@.take(i as int));
        }
        let ghost after = split_all(s@.take(i as int + 1), c);
        assert(s@.take(i as int + 1).last() == s@[i as int]);
        if s[i] == c {
            assert(after == before.push(Seq::empty()));
            assert(forall|k: int| 0 <= k < before.len() ==> after[k] == before[k]);
            let ghost old_r = r@;
            r.push((start, i));
            assert(forall|k: int| 0 <= k < old_r.len() ==> r@[k] == old_r[k]);
            assert(r@[old_r.len() as int] == (start, i));
            start = i + 1;
            i = i + 1;
            assert(s@.subrange(start as int, i as int) =~= Seq::<char>::empty());
        } else {
            assert(after == before.update(
                before.len() - 1,
                before.last().push(s@[i as int]),
            ));
            assert(forall|k: int| 0 <= k < before.len() - 1 ==> after[k] == before[k]);
            i = i + 1;
            assert(s@.subrange(start as int, i as int) =~= s@.subrange(
                start as int,
                i as int - 1,
            ).push(s@[i as int - 1]));
        }
    }
    proof {
        lemma_split_all_nonempty(s@, c);
        assert(s@.take(i as int) =~= s@);
    }
    r.push((start, i));
    r
}

/// `s` without leading and trailing white space.
pub fn trimmed(s: &str) -> (r: &str)
    ensures
        r@ == trim(s@),
{
    let cs = chars_of(s);
    let mut lo: usize = 0;
    let mut hi: usize = cs.len();
    assert(s@.subrange(0, hi as int) =~= s@);
    while lo < hi && is_white_char(cs[lo])
        invariant
            lo <= hi == cs@.len(),
            cs@ == s@,
            trim(s@) == trim(s@.subrange(lo as int, hi as int)),
        decreases hi - lo,
    {
        assert(s@.subrange(lo as int, hi as int).drop_first() =~= s@.subrange(
            lo as int + 1,
            hi as int,
        ));
        lo = lo + 1;
    }
    while lo < hi && is_white_char(cs[hi - 1])
        invariant
            lo <= hi <= cs@.len(),
            cs@ == s@,
            lo == hi || !is_white(s@[lo as int]),
            trim(s@) == trim(s@.subrange(lo as int, hi as int)),
        decreases hi - lo,
    {
        assert(s@.subrange(lo as int, hi as int).drop_last() =~= s@.subrange(
            lo as int,
            hi as int - 1,
        ));
        hi = hi - 1;
    }
    s.substring_char(lo, hi)
}

} // verus!
