//! DRQL "scanner".
//!
//! The scanner searches a string of text for DRQL queries enclosed in
//! `@{ ... }` and returns their contents in order. Matching is non-greedy and
//! never nests: the first `}` after the opening `@{` always closes the query,
//! so a returned chunk never contains `}` and may be empty. A query never
//! spans a line break; an unterminated `@{` yields nothing.

use vstd::prelude::*;
use vstd::string::*;

verus! {

/// The index of the first `}` at or after `j`, unless a line break comes
/// first (or nothing does).
pub open spec fn close_after(s: Seq<char>, j: int) -> Option<int>
    decreases s.len() - j,
{
    if j < 0 || j >= s.len() {
        None
    } else if s[j] == '}' {
        Some(j)
    } else if s[j] == '\n' {
        None
    } else {
        close_after(s, j + 1)
    }
}

/// A query opens at `i`: `@{`, then possibly empty content with no line
/// break, up to the first closing `}`.
pub open spec fn opens_at(s: Seq<char>, i: int) -> bool {
    &&& 0 <= i
    &&& i + 1 < s.len()
    &&& s[i] == '@'
    &&& s[i + 1] == '{'
    &&& close_after(s, i + 2) is Some
}

/// The query contents found at or after position `i`, leftmost first.
pub open spec fn scan_from(s: Seq<char>, i: int) -> Seq<Seq<char>>
    decreases s.len() - i,
{
    if i < 0 || i + 1 >= s.len() {
        Seq::empty()
    } else if opens_at(s, i) {
        let k = close_after(s, i + 2)->Some_0;
        let nxt0 = if k + 1 > i + 2 {
            k + 1
        } else {
            i + 2
        };
        let nxt = if nxt0 > s.len() {
            s.len() as int
        } else {
            nxt0
        };
        seq![s.subrange(i + 2, k)] + scan_from(s, nxt)
    } else {
        scan_from(s, i + 1)
    }
}

/// All query contents embedded in `s`, in order of appearance.
pub open spec fn scan_spec(s: Seq<char>) -> Seq<Seq<char>> {
    scan_from(s, 0)
}

/// A found closing brace lies at or after the start, inside the text.
pub proof fn lemma_close_after_bounds(s: Seq<char>, j: int)
    requires
        close_after(s, j) is Some,
    ensures
        j <= close_after(s, j)->Some_0 < s.len(),
        s[close_after(s, j)->Some_0] == '}',
    decreases s.len() - j,
{
    if !(j < 0 || j >= s.len()) && s[j] != '}' && s[j] != '\n' {
        lemma_close_after_bounds(s, j + 1);
    }
}

/// The index of the first `}` at or after `start`, unless a line break comes
/// first.
fn find_close(input: &str, start: usize) -> (r: Option<usize>)
    requires
        start <= input@.len(),
    ensures
        match r {
            Some(k) => close_after(input@, start as int) == Some(k as int),
            None => close_after(input@, start as int) is None,
        },
{
    let n = input.unicode_len();
    let mut j = start;
    while j < n
        invariant
            n == input@.len(),
            start <= j <= n,
            close_after(input@, start as int) == close_after(input@, j as int),
        decreases n - j,
    {
        let c = input.get_char(j);
        if c == '}' {
            return Some(j);
        }
        if c == '\n' {
            return None;
        }
        j = j + 1;
    }
    None
}

/// Return every value within `@{ ... }` in the provided text.
pub fn scan(input: &str) -> (r: Vec<String>)
    ensures
        r.deep_view() == scan_spec(input@),
{
    let ghost s = input@;
    let n = input.unicode_len();
    let mut out: Vec<String> = Vec::new();
    let mut i: usize = 0;
    proof {
        assert(out.deep_view() =~= Seq::<Seq<char>>::empty());
        assert(Seq::<Seq<char>>::empty() + scan_from(s, 0) =~= scan_from(s, 0));
    }
    while n - i > 1
        invariant
            n == s.len(),
            s == input@,
            0 <= i <= n,
            scan_spec(s) == out.deep_view() + scan_from(s, i as int),
        decreases n - i,
    {
        let ghost pre_out = out.deep_view();
        if input.get_char(i) == '@' && input.get_char(i + 1) == '{' {
            match find_close(input, i + 2) {
                Some(k) => {
                    proof {
                        lemma_close_after_bounds(s, i as int + 2);
                        assert(opens_at(s, i as int));
                    }
                    let chunk = input.substring_char(i + 2, k).to_owned();
                    out.push(chunk);
                    proof {
                        assert(out.deep_view() =~= pre_out.push(s.subrange(i + 2, k as int)));
                        assert(pre_out + (seq![s.subrange(i + 2, k as int)] + scan_from(
                            s,
                            k as int + 1,
                        )) =~= out.deep_view() + scan_from(s, k as int + 1));
                    }
                    i = k + 1;
                },
                None => {
                    proof {
                        assert(!opens_at(s, i as int));
                    }
                    i = i + 1;
                },
            }
        } else {
            proof {
                assert(!opens_at(s, i as int));
            }
            i = i + 1;
        }
    }
    proof {
        assert(scan_from(s, i as int) =~= Seq::<Seq<char>>::empty());
        assert(out.deep_view() + Seq::<Seq<char>>::empty() =~= out.deep_view());
    }
    out
}

} // verus!
