//! Joining many short strings into few messages of bounded length.
//!
//! Both functions greedily pack the input strings, in order, into output
//! lines: a string is appended to the current line (separated by `sep`) when
//! it fits, and otherwise starts a new line. Lengths are counted in
//! characters. An input string longer than `size` on its own is an error.

use vstd::prelude::*;
use vstd::string::*;

verus! {

/// One input string was longer than the allowed size.
#[derive(Debug)]
pub struct ChunkTooLargeError {
    /// Length of the offending string.
    pub len: usize,
    /// The size limit it exceeded.
    pub size: usize,
}

/// Greedy packing of `input` into lines of at most `size` characters, with
/// `current` the line under construction: when the next string (plus the
/// separator) does not fit, the current line is emitted as it stands.
pub open spec fn wrap_go(
    input: Seq<Seq<char>>,
    sep: Seq<char>,
    size: nat,
    current: Seq<char>,
) -> Seq<Seq<char>>
    decreases input.len(),
{
    if input.len() == 0 {
        if current.len() == 0 {
            Seq::empty()
        } else {
            seq![current]
        }
    } else if current.len() + input[0].len() + sep.len() > size {
        seq![current] + wrap_go(input.drop_first(), sep, size, input[0])
    } else if current.len() == 0 {
        wrap_go(input.drop_first(), sep, size, input[0])
    } else {
        wrap_go(input.drop_first(), sep, size, current + sep + input[0])
    }
}

/// The lines produced by greedily packing `input` with separator `sep` into
/// width `size`, starting from an empty line.
pub open spec fn wrap_spec(input: Seq<Seq<char>>, sep: Seq<char>, size: nat) -> Seq<Seq<char>> {
    wrap_go(input, sep, size, Seq::empty())
}

/// Join a vector of strings with a separator, wrapping every time the
/// provided size would be exceeded.
///
/// Fails exactly when some input string alone is longer than `size`; the
/// error reports the first such string. On success the result is the greedy
/// packing described by [`wrap_spec`].
pub fn wrap_string_vec(input: &Vec<String>, sep: &str, size: usize) -> (r: Result<
    Vec<String>,
    ChunkTooLargeError,
>)
    ensures
        match r {
            Ok(v) => (forall|k: int|
                0 <= k < input@.len() ==> (#[trigger] input.deep_view()[k]).len() <= size)
                && v.deep_view() == wrap_spec(input.deep_view(), sep@, size as nat),
            Err(e) => exists|k: int|
                0 <= k < input@.len() && (#[trigger] input.deep_view()[k]).len() > size && e.len
                    == input.deep_view()[k].len() && e.size == size && (forall|m: int|
                    0 <= m < k ==> (#[trigger] input.deep_view()[m]).len() <= size),
        },
{
    let ghost views = input.deep_view();
    let n = input.len();
    let mut result: Vec<String> = Vec::new();
    let mut current: String = String::new();
    let mut i: usize = 0;
    proof {
        assert(views.skip(0) =~= views);
        assert(result.deep_view() =~= Seq::<Seq<char>>::empty());
        assert(Seq::<Seq<char>>::empty() + wrap_go(views, sep@, size as nat, Seq::<char>::empty())
            =~= wrap_go(views, sep@, size as nat, Seq::<char>::empty()));
    }
    while i < n
        invariant
            n == input@.len(),
            views == input.deep_view(),
            0 <= i <= n,
            current@.len() <= size,
            forall|m: int| 0 <= m < i ==> (#[trigger] views[m]).len() <= size,
            wrap_spec(views, sep@, size as nat) == result.deep_view() + wrap_go(
                views.skip(i as int),
                sep@,
                size as nat,
                current@,
            ),
        decreases n - i,
    {
        let next = &input[i];
        let next_len = next.as_str().unicode_len();
        if next_len > size {
            return Err(ChunkTooLargeError { len: next_len, size });
        }
        proof {
            assert(views.skip(i as int).drop_first() =~= views.skip(i as int + 1));
            assert(views.skip(i as int)[0] == views[i as int]);
        }
        let ghost pre_result = result.deep_view();
        let ghost pre_current = current@;
        // Does current + sep + next overflow the line? Computed without
        // overflowing usize: next_len <= size already holds here.
        let rem = size - next_len;
        let cur_len = current.as_str().unicode_len();
        let over = if cur_len > rem {
            true
        } else {
            sep.unicode_len() > rem - cur_len
        };
        if over {
            result.push(current);
            current = next.clone();
            proof {
                assert(result.deep_view() =~= pre_result.push(pre_current));
                assert(pre_result + (seq![pre_current] + wrap_go(
                    views.skip(i as int + 1),
                    sep@,
                    size as nat,
                    views[i as int],
                )) =~= result.deep_view() + wrap_go(
                    views.skip(i as int + 1),
                    sep@,
                    size as nat,
                    views[i as int],
                ));
            }
        } else if current.as_str().is_empty() {
            current = next.clone();
        } else {
            current.append(sep);
            current.append(next.as_str());
            proof {
                assert(current@ == pre_current + sep@ + views[i as int]);
            }
        }
        i = i + 1;
    }
    proof {
        assert(views.skip(n as int) =~= Seq::<Seq<char>>::empty());
    }
    let ghost pre_result = result.deep_view();
    let ghost pre_current = current@;
    if !current.as_str().is_empty() {
        result.push(current);
        proof {
            assert(result.deep_view() =~= pre_result.push(pre_current));
            assert(pre_result + seq![pre_current] =~= pre_result.push(pre_current));
        }
    } else {
        proof {
            assert(pre_result + Seq::<Seq<char>>::empty() =~= pre_result);
        }
    }
    Ok(result)
}

/// Pack as many strings from `input` as possible into each output string
/// without exceeding `size` characters, joining with `sep`.
///
/// Same packing as [`wrap_string_vec`]; this variant consumes its input.
pub fn chunk_str_vec_into_max_size(input: Vec<String>, sep: &str, size: usize) -> (r: Result<
    Vec<String>,
    ChunkTooLargeError,
>)
    ensures
        match r {
            Ok(v) => (forall|k: int|
                0 <= k < input@.len() ==> (#[trigger] input.deep_view()[k]).len() <= size)
                && v.deep_view() == wrap_spec(input.deep_view(), sep@, size as nat),
            Err(e) => exists|k: int|
                0 <= k < input@.len() && (#[trigger] input.deep_view()[k]).len() > size && e.len
                    == input.deep_view()[k].len() && e.size == size && (forall|m: int|
                    0 <= m < k ==> (#[trigger] input.deep_view()[m]).len() <= size),
        },
{
    wrap_string_vec(&input, sep, size)
}

} // verus!
