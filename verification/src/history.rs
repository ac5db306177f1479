//! Choosing which stored lines of a sensor's file to answer with.
use vstd::prelude::*;
use vstd::math::min;
use crate::round_queue::newest;

verus! {

/// The `n` newest of `lines` (all of them when there are fewer), newest first.
pub open spec fn newest_first<T>(lines: Seq<T>, n: nat) -> Seq<T> {
    Seq::new(min(n as int, lines.len() as int) as nat, |i: int| lines[lines.len() - 1 - i])
}

/// The last `n` lines (all of them when there are fewer), oldest first.
pub fn take_last(lines: &Vec<String>, n: usize) -> (r: Vec<String>)
    ensures
        r@ == newest(lines@, n as nat),
{
    let len = lines.len();
    let start = if n >= len { 0 } else { len - n };
    let mut r: Vec<String> = Vec::new();
    let mut i: usize = start;
    while i < len
        invariant
            start <= i <= len,
            len == lines@.len(),
            r@ == lines@.subrange(start as int, i as int),
        decreases len - i,
    {
        let line = lines[i].clone();
        r.push(line);
        i = i + 1;
        assert(r@ =~= lines@.subrange(start as int, i as int));
    }
    assert(lines@.subrange(0, len as int) =~= lines@);
    r
}

/// The last `n` lines (all of them when there are fewer), newest first.
pub fn take_newest_first(lines: &Vec<String>, n: usize) -> (r: Vec<String>)
    ensures
        r@ == newest_first(lines@, n as nat),
{
    let len = lines.len();
    let count = if n >= len { len } else { n };
    let mut r: Vec<String> = Vec::new();
    let mut i: usize = 0;
    while i < count
        invariant
            i <= count,
            count == min(n as int, len as int),
            len == lines@.len(),
            r@ == newest_first(lines@, i as nat),
        decreases count - i,
    {
        let line = lines[len - 1 - i].clone();
        r.push(line);
        i = i + 1;
        assert(r@ =~= newest_first(lines@, i as nat));
    }
    r
}

/// Taking the newest lines newest first gives the same lines as taking them
/// oldest first, in the reverse order.
pub proof fn lemma_newest_first_reverses<T>(lines: Seq<T>, n: nat)
    ensures
        newest_first(lines, n) == newest(lines, n).reverse(),
{
    assert(newest_first(lines, n) =~= newest(lines, n).reverse());
}

} // verus!
