//! Reading the `key=value&...` query string a connecting client sends.

use vstd::prelude::*;
use vstd::std_specs::iter::IteratorSpec;

verus! {

/// `q[a..b]` is one `&`-separated piece of the query.
pub open spec fn is_piece(q: Seq<char>, a: int, b: int) -> bool {
    &&& 0 <= a <= b <= q.len()
    &&& (a == 0 || q[a - 1] == '&')
    &&& (b == q.len() || q[b] == '&')
    &&& forall|k: int| a <= k < b ==> q[k] != '&'
}

/// Some piece of the query is exactly `key=value`.
pub open spec fn query_has_pair(q: Seq<char>, key: Seq<char>, value: Seq<char>) -> bool {
    exists|a: int, b: int| #[trigger] is_piece(q, a, b) && q.subrange(a, b) == key + seq!['='] + value
}

/// The characters of a string, in order.
pub fn chars_of(s: &str) -> (v: Vec<char>)
    ensures
        v@ == s@,
{
    broadcast use vstd::string::axiom_spec_iter, vstd::string::next_postcondition;

    let mut v: Vec<char> = Vec::new();
    let mut chars = s.chars();
    loop
        invariant
            v@ + chars.remaining() == s@,
            chars.decrease() is Some,
        ensures
            v@ == s@,
        decreases chars.decrease()->0,
    {
        match chars.next() {
            Some(c) => {
                v.push(c);
            },
            None => {
                break ;
            },
        }
    }
    v
}

/// Whether `q[a..b]` is exactly `key=value`.
fn piece_is(q: &Vec<char>, a: usize, b: usize, key: &Vec<char>, value: &Vec<char>) -> (r: bool)
    requires
        a <= b <= q@.len(),
    ensures
        r == (q@.subrange(a as int, b as int) == key@ + seq!['='] + value@),
{
    let ghost want = key@ + seq!['='] + value@;
    if key.len() >= b - a || value.len() != b - a - key.len() - 1 {
        proof {
            assert(q@.subrange(a as int, b as int).len() != want.len());
        }
        return false;
    }
    let mut k: usize = 0;
    while k < b - a
        invariant
            a <= b <= q@.len(),
            b - a == want.len(),
            want == key@ + seq!['='] + value@,
            k <= b - a,
            forall|m: int| 0 <= m < k ==> q@[a + m] == want[m],
        decreases b - a - k,
    {
        let expected = if k < key.len() {
            key[k]
        } else if k == key.len() {
            '='
        } else {
            value[k - key.len() - 1]
        };
        assert(expected == want[k as int]);
        if q[a + k] != expected {
            assert(q@.subrange(a as int, b as int)[k as int] != want[k as int]);
            return false;
        }
        k = k + 1;
    }
    assert(q@.subrange(a as int, b as int) =~= want);
    true
}

/// Whether some `&`-separated piece of `query` is exactly `key=value`.
pub fn query_has(query: &str, key: &str, value: &str) -> (r: bool)
    ensures
        r == query_has_pair(query@, key@, value@),
{
    let q = chars_of(query);
    let k = chars_of(key);
    let v = chars_of(value);
    let len = q.len();
    let mut start: usize = 0;
    loop
        invariant
            q@ == query@,
            k@ == key@,
            v@ == value@,
            len == q@.len(),
            start <= len,
            start == 0 || q@[start - 1] == '&',
            forall|a: int, b: int|
                #![trigger is_piece(q@, a, b)]
                is_piece(q@, a, b) && a < start ==> q@.subrange(a, b) != k@ + seq!['='] + v@,
        decreases len - start,
    {
        let mut end = start;
        while end < len && q[end] != '&'
            invariant
                start <= end <= len,
                len == q@.len(),
                forall|m: int| start <= m < end ==> q@[m] != '&',
            decreases len - end,
        {
            end = end + 1;
        }
        assert(is_piece(q@, start as int, end as int));
        if piece_is(&q, start, end, &k, &v) {
            return true;
        }
        if end == len {
            assert forall|a: int, b: int| is_piece(q@, a, b) implies q@.subrange(a, b) != k@
                + seq!['='] + v@ by {
                if a >= start {
                    if a > start {
                        assert(q@[a - 1] != '&');
                    }
                    assert(a == start);
                    if b < end {
                        assert(q@[b] != '&');
                    }
                    assert(b == end);
                }
            }
            return false;
        }
        assert forall|a: int, b: int| is_piece(q@, a, b) && a < end + 1 implies q@.subrange(a, b)
            != k@ + seq!['='] + v@ by {
            if a >= start {
                if a > start {
                    assert(q@[a - 1] != '&');
                }
                assert(a == start);
                if b < end {
                    assert(q@[b] != '&');
                }
                if b > end {
                    assert(q@[end as int] != '&');
                }
                assert(b == end);
            }
        }
        start = end + 1;
    }
}

/// Whether the request is authenticated: some piece is exactly `token=<token>`.
pub fn query_has_token(query: &str, token: &str) -> (r: bool)
    ensures
        r == query_has_pair(query@, "token"@, token@),
{
    query_has(query, "token", token)
}

/// Whether the request carries `control=1`, marking a control connection.
pub fn query_is_control(query: &str) -> (r: bool)
    ensures
        r == query_has_pair(query@, "control"@, "1"@),
{
    query_has(query, "control", "1")
}

} // verus!
