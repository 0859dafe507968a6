use vstd::prelude::*;

verus! {

/// Whitespace as the codec understands it: the ASCII blanks that can occur
/// around names in wire text.
pub open spec fn is_space(c: char) -> bool {
    c == ' ' || c == '\t' || c == '\r' || c == '\n'
}

/// A line is blank when every character is whitespace.
pub open spec fn is_blank_spec(s: Seq<char>) -> bool {
    forall|i: int| 0 <= i < s.len() ==> is_space(#[trigger] s[i])
}

/// The sequence with leading whitespace removed.
pub open spec fn trim_start_spec(s: Seq<char>) -> Seq<char>
    decreases s.len(),
{
    if s.len() == 0 {
        s
    } else if is_space(s[0]) {
        trim_start_spec(s.drop_first())
    } else {
        s
    }
}

/// The sequence with trailing whitespace removed.
pub open spec fn trim_end_spec(s: Seq<char>) -> Seq<char>
    decreases s.len(),
{
    if s.len() == 0 {
        s
    } else if is_space(s[s.len() - 1]) {
        trim_end_spec(s.drop_last())
    } else {
        s
    }
}

/// The sequence with whitespace removed from both ends.
pub open spec fn trim_spec(s: Seq<char>) -> Seq<char> {
    trim_end_spec(trim_start_spec(s))
}

/// Trimming never grows the sequence, and a trim-stable sequence has no
/// whitespace at either end.
pub proof fn lemma_trim_start_prefix(s: Seq<char>)
    ensures
        exists|k: int|
            0 <= k <= s.len() && trim_start_spec(s) == s.subrange(k, s.len() as int) && (forall|
                j: int,
            | 0 <= j < k ==> is_space(s[j])) && (k < s.len() ==> !is_space(s[k])),
    decreases s.len(),
{
    if s.len() == 0 {
        assert(trim_start_spec(s) == s.subrange(0, s.len() as int));
    } else if is_space(s[0]) {
        lemma_trim_start_prefix(s.drop_first());
        let k0 = choose|k: int|
            0 <= k <= s.drop_first().len() && trim_start_spec(s.drop_first()) == s.drop_first()
                .subrange(k, s.drop_first().len() as int) && (forall|j: int|
                0 <= j < k ==> is_space(s.drop_first()[j])) && (k < s.drop_first().len()
                ==> !is_space(s.drop_first()[k]));
        assert(s.drop_first().subrange(k0, s.drop_first().len() as int) =~= s.subrange(
            k0 + 1,
            s.len() as int,
        ));
        assert forall|j: int| 0 <= j < k0 + 1 implies is_space(s[j]) by {
            if j > 0 {
                assert(is_space(s.drop_first()[j - 1]));
                assert(s.drop_first()[j - 1] == s[j]);
            }
        }
    } else {
        assert(trim_start_spec(s) == s.subrange(0, s.len() as int)) by {
            assert(s.subrange(0, s.len() as int) =~= s);
        }
    }
}

pub proof fn lemma_trim_end_prefix(s: Seq<char>)
    ensures
        exists|k: int|
            0 <= k <= s.len() && trim_end_spec(s) == s.subrange(0, k) && (forall|j: int|
                k <= j < s.len() ==> is_space(s[j])) && (k > 0 ==> !is_space(s[k - 1])),
    decreases s.len(),
{
    if s.len() == 0 {
        assert(trim_end_spec(s) == s.subrange(0, 0));
    } else if is_space(s[s.len() - 1]) {
        lemma_trim_end_prefix(s.drop_last());
        let k0 = choose|k: int|
            0 <= k <= s.drop_last().len() && trim_end_spec(s.drop_last()) == s.drop_last()
                .subrange(0, k) && (forall|j: int|
                k <= j < s.drop_last().len() ==> is_space(s.drop_last()[j])) && (k > 0
                ==> !is_space(s.drop_last()[k - 1]));
        assert(s.drop_last().subrange(0, k0) =~= s.subrange(0, k0));
        assert forall|j: int| k0 <= j < s.len() implies is_space(s[j]) by {
            if j < s.len() - 1 {
                assert(is_space(s.drop_last()[j]));
                assert(s.drop_last()[j] == s[j]);
            }
        }
    } else {
        assert(trim_end_spec(s) == s.subrange(0, s.len() as int)) by {
            assert(s.subrange(0, s.len() as int) =~= s);
        }
    }
}

/// Compare two string slices by characters.
pub fn eq_str(a: &str, b: &str) -> (r: bool)
    ensures
        r == (a@ == b@),
{
    let alen = a.unicode_len();
    let blen = b.unicode_len();
    if alen != blen {
        proof {
            assert(a@ != b@) by {
                assert(a@.len() != b@.len());
            }
        }
        return false;
    }
    let mut i: usize = 0;
    while i < alen
        invariant
            alen == a@.len(),
            alen == b@.len(),
            0 <= i <= alen,
            forall|j: int| 0 <= j < i ==> a@[j] == b@[j],
        decreases alen - i,
    {
        if a.get_char(i) != b.get_char(i) {
            assert(a@[i as int] != b@[i as int]);
            return false;
        }
        i += 1;
    }
    proof {
        assert(a@ =~= b@);
    }
    true
}

/// Whether the string holds the given character.
pub fn contains_char(s: &str, c: char) -> (r: bool)
    ensures
        r == s@.contains(c),
{
    let n = s.unicode_len();
    let mut i: usize = 0;
    while i < n
        invariant
            n == s@.len(),
            0 <= i <= n,
            forall|j: int| 0 <= j < i ==> s@[j] != c,
        decreases n - i,
    {
        if s.get_char(i) == c {
            assert(s@.contains(c));
            return true;
        }
        i += 1;
    }
    assert(!s@.contains(c));
    false
}

/// Whether every character of the string is whitespace.
pub fn is_blank(s: &str) -> (r: bool)
    ensures
        r == is_blank_spec(s@),
{
    let n = s.unicode_len();
    let mut i: usize = 0;
    while i < n
        invariant
            n == s@.len(),
            0 <= i <= n,
            forall|j: int| 0 <= j < i ==> is_space(#[trigger] s@[j]),
        decreases n - i,
    {
        let c = s.get_char(i);
        if !(c == ' ' || c == '\t' || c == '\r' || c == '\n') {
            assert(!is_space(s@[i as int]));
            return false;
        }
        i += 1;
    }
    true
}

/// Whether the character is codec whitespace.
pub fn is_space_char(c: char) -> (r: bool)
    ensures
        r == is_space(c),
{
    c == ' ' || c == '\t' || c == '\r' || c == '\n'
}

fn space_at(s: &str, i: usize) -> (r: bool)
    requires
        i < s@.len(),
    ensures
        r == is_space(s@[i as int]),
{
    is_space_char(s.get_char(i))
}

/// The slice with surrounding whitespace removed.
pub fn trim(s: &str) -> (r: &str)
    ensures
        r@ == trim_spec(s@),
{
    let n = s.unicode_len();
    let mut lo: usize = 0;
    while lo < n && space_at(s, lo)
        invariant
            n == s@.len(),
            0 <= lo <= n,
            forall|j: int| 0 <= j < lo ==> is_space(#[trigger] s@[j]),
        decreases n - lo,
    {
        lo += 1;
    }
    let mut hi: usize = n;
    while hi > lo && space_at(s, hi - 1)
        invariant
            n == s@.len(),
            0 <= lo <= hi <= n,
            forall|j: int| 0 <= j < lo ==> is_space(#[trigger] s@[j]),
            lo < n ==> !is_space(s@[lo as int]),
            forall|j: int| hi <= j < n ==> is_space(#[trigger] s@[j]),
        decreases hi,
    {
        hi -= 1;
    }
    let r = s.substring_char(lo, hi);
    proof {
        lemma_trim_bounds(s@, lo as int, hi as int);
    }
    r
}

/// If everything before `lo` and everything from `hi` on is whitespace, and
/// the characters just inside those bounds are not, the trim of the whole
/// sequence is exactly the middle part.
pub proof fn lemma_trim_bounds(s: Seq<char>, lo: int, hi: int)
    requires
        0 <= lo <= hi <= s.len(),
        forall|j: int| 0 <= j < lo ==> is_space(#[trigger] s[j]),
        forall|j: int| hi <= j < s.len() ==> is_space(#[trigger] s[j]),
        lo < s.len() ==> !is_space(s[lo]),
        hi > lo ==> !is_space(s[hi - 1]),
    ensures
        trim_spec(s) == s.subrange(lo, hi),
{
    lemma_trim_start_prefix(s);
    let k = choose|k: int|
        0 <= k <= s.len() && trim_start_spec(s) == s.subrange(k, s.len() as int) && (forall|j: int|
            0 <= j < k ==> is_space(s[j])) && (k < s.len() ==> !is_space(s[k]));
    if lo >= hi {
        // the whole sequence is whitespace
        assert(forall|j: int| 0 <= j < s.len() ==> is_space(#[trigger] s[j]));
        assert(k == s.len()) by {
            if k < s.len() {
                assert(is_space(s[k]));
            }
        }
        let t = trim_start_spec(s);
        assert(t =~= Seq::<char>::empty());
        assert(trim_end_spec(t) == t);
        assert(s.subrange(lo, hi) =~= Seq::<char>::empty());
    } else {
        assert(k == lo) by {
            if k < lo {
                assert(is_space(s[k]));
            }
            if k > lo {
                assert(is_space(s[lo]));
            }
        }
        let t = trim_start_spec(s);
        assert(t == s.subrange(lo, s.len() as int));
        lemma_trim_end_prefix(t);
        let m = choose|m: int|
            0 <= m <= t.len() && trim_end_spec(t) == t.subrange(0, m) && (forall|j: int|
                m <= j < t.len() ==> is_space(t[j])) && (m > 0 ==> !is_space(t[m - 1]));
        assert(forall|j: int| hi - lo <= j < t.len() ==> is_space(#[trigger] t[j]));
        assert(m == hi - lo) by {
            if m < hi - lo {
                assert(is_space(t[hi - lo - 1]));
                assert(t[hi - lo - 1] == s[hi - 1]);
            }
            if m > hi - lo {
                assert(is_space(t[m - 1]));
            }
        }
        assert(t.subrange(0, m) =~= s.subrange(lo, hi));
    }
}

/// Relies on std String::push: appends one character at the end.
#[verifier::external_body]
pub fn push_char(s: &mut String, c: char)
    ensures
        final(s)@ == old(s)@.push(c),
{
    s.push(c);
}

} // verus!
