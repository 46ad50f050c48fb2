//! Name filters: a comma separated list of pieces admits a name when one of
//! the pieces occurs in it.

use vstd::prelude::*;
use vstd::string::*;

verus! {

/// `needle` stands in `hay` at position `k`.
pub open spec fn occurs_at(needle: Seq<char>, hay: Seq<char>, k: int) -> bool {
    &&& 0 <= k
    &&& k + needle.len() <= hay.len()
    &&& hay.subrange(k, k + needle.len()) == needle
}

/// `needle` stands somewhere in `hay`. The empty needle stands in every
/// string.
pub open spec fn occurs_in(needle: Seq<char>, hay: Seq<char>) -> bool {
    exists|k: int| occurs_at(needle, hay, k)
}

/// `filter[a..b]` is one of the pieces that the commas cut `filter` into: it
/// is bounded by commas or by the ends of the string and holds no comma.
pub open spec fn is_piece(filter: Seq<char>, a: int, b: int) -> bool {
    &&& 0 <= a <= b <= filter.len()
    &&& (a == 0 || filter[a - 1] == ',')
    &&& (b == filter.len() || filter[b] == ',')
    &&& forall|i: int| a <= i < b ==> filter[i] != ','
}

/// Some piece of `filter` occurs in `name`.
pub open spec fn filter_admits(filter: Seq<char>, name: Seq<char>) -> bool {
    exists|a: int, b: int| #[trigger] is_piece(filter, a, b) && occurs_in(filter.subrange(a, b), name)
}

/// Without a filter every name is admitted.
pub open spec fn admits(matches: Option<String>, name: Seq<char>) -> bool {
    match matches {
        None => true,
        Some(filter) => filter_admits(filter@, name),
    }
}

/// The characters of a string, one by one.
pub fn chars_of(s: &str) -> (v: Vec<char>)
    ensures
        v@ == s@,
{
    let n = s.unicode_len();
    let mut v: Vec<char> = Vec::new();
    let mut i: usize = 0;
    while i < n
        invariant
            i <= n,
            n == s@.len(),
            v@ == s@.take(i as int),
        decreases n - i,
    {
        v.push(s.get_char(i));
        proof {
            assert(s@.take(i + 1) =~= s@.take(i as int).push(s@[i as int]));
        }
        i = i + 1;
    }
    proof {
        assert(s@.take(n as int) =~= s@);
    }
    v
}

/// Tells whether `filter[a..b]` stands in `name` at position `k`.
pub fn piece_occurs_at(filter: &Vec<char>, a: usize, b: usize, name: &Vec<char>, k: usize) -> (r: bool)
    requires
        a <= b <= filter@.len(),
        k + (b - a) <= name@.len(),
    ensures
        r == occurs_at(filter@.subrange(a as int, b as int), name@, k as int),
{
    let m = b - a;
    let total = name.len();
    let ghost needle = filter@.subrange(a as int, b as int);
    let ghost window = name@.subrange(k as int, k + m);
    let mut j: usize = 0;
    while j < m
        invariant
            j <= m,
            m == b - a,
            a <= b <= filter@.len(),
            k + m <= name@.len() <= usize::MAX,
            needle == filter@.subrange(a as int, b as int),
            window == name@.subrange(k as int, k + m),
            forall|i: int| 0 <= i < j ==> needle[i] == window[i],
        decreases m - j,
    {
        if filter[a + j] != name[k + j] {
            proof {
                assert(needle[j as int] != window[j as int]);
            }
            return false;
        }
        j = j + 1;
    }
    proof {
        assert(window =~= needle);
    }
    true
}

/// Tells whether `filter[a..b]` stands anywhere in `name`.
pub fn piece_occurs(filter: &Vec<char>, a: usize, b: usize, name: &Vec<char>) -> (r: bool)
    requires
        a <= b <= filter@.len(),
    ensures
        r == occurs_in(filter@.subrange(a as int, b as int), name@),
{
    let m = b - a;
    let ghost needle = filter@.subrange(a as int, b as int);
    if m > name.len() {
        return false;
    }
    let last = name.len() - m;
    let mut k: usize = 0;
    loop
        invariant
            k <= last,
            last == name@.len() - m,
            m == b - a,
            a <= b <= filter@.len(),
            needle == filter@.subrange(a as int, b as int),
            forall|i: int| 0 <= i < k ==> !occurs_at(needle, name@, i),
        decreases last - k,
    {
        if piece_occurs_at(filter, a, b, name, k) {
            return true;
        }
        if k == last {
            return false;
        }
        k = k + 1;
    }
}

/// A piece that ends within a comma-free stretch `[a, b]` which starts
/// after a comma, or at the start of the filter, is that whole stretch.
proof fn lemma_piece_unique(filter: Seq<char>, a: int, b: int, x: int, y: int)
    requires
        0 <= a <= b <= filter.len(),
        a == 0 || filter[a - 1] == ',',
        forall|i: int| a <= i < b ==> filter[i] != ',',
        is_piece(filter, x, y),
        a <= y <= b,
    ensures
        x == a,
        y == b,
{
    if x < a {
        assert(filter[a - 1] == ',');
        assert(x <= a - 1 < y);
    } else if x > a {
        assert(filter[x - 1] == ',');
        assert(a <= x - 1 < b);
    }
}

/// Decides whether a name passes the filter given on the command line.
pub fn name_admitted(name: &str, matches: &Option<String>) -> (r: bool)
    ensures
        r == admits(*matches, name@),
{
    match matches {
        None => true,
        Some(text) => {
            let filter = chars_of(text.as_str());
            let hay = chars_of(name);
            let n = filter.len();
            let mut a: usize = 0;
            let mut b: usize = 0;
            while b < n
                invariant
                    a <= b <= n,
                    n == filter@.len(),
                    filter@ == text@,
                    hay@ == name@,
                    *matches == Some(*text),
                    a == 0 || filter@[a - 1] == ',',
                    forall|i: int| a <= i < b ==> filter@[i] != ',',
                    forall|x: int, y: int|
                        #[trigger] is_piece(filter@, x, y) && y < a ==> !occurs_in(
                            filter@.subrange(x, y),
                            hay@,
                        ),
                decreases n - b,
            {
                if filter[b] == ',' {
                    let hit = piece_occurs(&filter, a, b, &hay);
                    if hit {
                        proof {
                            assert(is_piece(filter@, a as int, b as int));
                        }
                        return true;
                    }
                    proof {
                        assert forall|x: int, y: int|
                            #[trigger] is_piece(filter@, x, y) && y < b + 1 implies !occurs_in(
                            filter@.subrange(x, y),
                            hay@,
                        ) by {
                            if y >= a {
                                lemma_piece_unique(filter@, a as int, b as int, x, y);
                            }
                        }
                    }
                    a = b + 1;
                    b = a;
                } else {
                    b = b + 1;
                }
            }
            let hit = piece_occurs(&filter, a, n, &hay);
            proof {
                if hit {
                    assert(is_piece(filter@, a as int, n as int));
                } else {
                    assert forall|x: int, y: int| #[trigger] is_piece(filter@, x, y) implies !occurs_in(
                        filter@.subrange(x, y),
                        hay@,
                    ) by {
                        if y >= a {
                            lemma_piece_unique(filter@, a as int, n as int, x, y);
                        }
                    }
                }
            }
            hit
        },
    }
}

} // verus!
