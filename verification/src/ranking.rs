//! Which word of a sequence of words is the most frequent one.
use vstd::prelude::*;
use crate::Tally;

verus! {

/// How many positions of `ws` hold the word `w`.
pub open spec fn occurrences(ws: Seq<Seq<char>>, w: Seq<char>) -> nat
    decreases ws.len(),
{
    if ws.len() == 0 {
        0
    } else {
        occurrences(ws.drop_last(), w) + if ws.last() == w {
            1nat
        } else {
            0nat
        }
    }
}

/// The running count at position `k`: how often the word at `k` has
/// occurred when `k` is reached, that position included.
pub open spec fn running(ws: Seq<Seq<char>>, k: int) -> nat {
    occurrences(ws.take(k + 1), ws[k])
}

/// The first position at which the running count is at its highest.
pub open spec fn peak(ws: Seq<Seq<char>>) -> int
    decreases ws.len(),
{
    if ws.len() <= 1 {
        0
    } else {
        let before = peak(ws.drop_last());
        if running(ws, ws.len() - 1) > running(ws.drop_last(), before) {
            ws.len() - 1
        } else {
            before
        }
    }
}

/// The most frequent word of `ws` with its number of occurrences. Among
/// several words of the highest count it is the one that got there first.
/// Where there is no word, it is no word with count zero.
pub open spec fn leader(ws: Seq<Seq<char>>) -> Tally {
    if ws.len() == 0 {
        Tally { word: None, count: 0 }
    } else {
        Tally { word: Some(ws[peak(ws)]), count: running(ws, peak(ws)) }
    }
}

/// No word occurs more often than there are positions.
pub proof fn lemma_occurrences_bound(ws: Seq<Seq<char>>, w: Seq<char>)
    ensures
        occurrences(ws, w) <= ws.len(),
    decreases ws.len(),
{
    if ws.len() > 0 {
        lemma_occurrences_bound(ws.drop_last(), w);
    }
}

/// One more word at the end adds one occurrence of that word and none of
/// any other.
pub proof fn lemma_occurrences_push(ws: Seq<Seq<char>>, v: Seq<char>, w: Seq<char>)
    ensures
        occurrences(ws.push(v), w) == occurrences(ws, w) + if v == w {
            1nat
        } else {
            0nat
        },
{
    assert(ws.push(v).drop_last() =~= ws);
}

/// A running count does not depend on the words that follow its position.
pub proof fn lemma_running_prefix(ws: Seq<Seq<char>>, n: int, k: int)
    requires
        0 <= k < n <= ws.len(),
    ensures
        running(ws.take(n), k) == running(ws, k),
{
    assert(ws.take(n).take(k + 1) =~= ws.take(k + 1));
}

/// The running count at the last position is the number of occurrences of
/// the last word.
pub proof fn lemma_running_last(ws: Seq<Seq<char>>)
    requires
        ws.len() > 0,
    ensures
        running(ws, ws.len() - 1) == occurrences(ws, ws.last()),
{
    assert(ws.take(ws.len() as int) =~= ws);
}

/// How the leader changes when one more word arrives: the new word takes
/// the lead when its count is above the leader's, and only then.
pub proof fn lemma_leader_push(ws: Seq<Seq<char>>, w: Seq<char>)
    ensures
        leader(ws.push(w)) == if occurrences(ws.push(w), w) > leader(ws).count {
            Tally { word: Some(w), count: occurrences(ws.push(w), w) }
        } else {
            leader(ws)
        },
{
    let all = ws.push(w);
    lemma_running_last(all);
    if ws.len() > 0 {
        lemma_peak_in_range(ws);
        assert(ws =~= all.take(ws.len() as int));
        lemma_running_prefix(all, ws.len() as int, peak(ws));
    }
}

/// The peak is a position of the sequence.
pub proof fn lemma_peak_in_range(ws: Seq<Seq<char>>)
    requires
        ws.len() > 0,
    ensures
        0 <= peak(ws) < ws.len(),
    decreases ws.len(),
{
    if ws.len() > 1 {
        lemma_peak_in_range(ws.drop_last());
    }
}

/// The peak is the first position of the highest running count: no running
/// count is above it, and every earlier one is below it.
pub proof fn lemma_peak_is_first_maximum(ws: Seq<Seq<char>>)
    requires
        ws.len() > 0,
    ensures
        0 <= peak(ws) < ws.len(),
        forall|j: int| 0 <= j < ws.len() ==> #[trigger] running(ws, j) <= running(ws, peak(ws)),
        forall|j: int| 0 <= j < peak(ws) ==> #[trigger] running(ws, j) < running(ws, peak(ws)),
    decreases ws.len(),
{
    if ws.len() > 1 {
        let init = ws.drop_last();
        let n = ws.len() - 1;
        lemma_peak_is_first_maximum(init);
        lemma_running_prefix(ws, n, peak(init));
        assert forall|j: int| 0 <= j < ws.len() implies #[trigger] running(ws, j) <= running(
            ws,
            peak(ws),
        ) by {
            if j < n {
                lemma_running_prefix(ws, n, j);
            }
        }
        assert forall|j: int| 0 <= j < peak(ws) implies #[trigger] running(ws, j) < running(
            ws,
            peak(ws),
        ) by {
            lemma_running_prefix(ws, n, j);
        }
    }
}

/// Every word that occurs has a position at which its running count is the
/// number of its occurrences.
pub proof fn lemma_running_reaches_total(ws: Seq<Seq<char>>, w: Seq<char>)
    requires
        occurrences(ws, w) > 0,
    ensures
        exists|j: int|
            0 <= j < ws.len() && ws[j] == w && #[trigger] running(ws, j) == occurrences(ws, w),
    decreases ws.len(),
{
    let n = ws.len() - 1;
    if ws.last() == w {
        lemma_running_last(ws);
    } else {
        let init = ws.drop_last();
        lemma_running_reaches_total(init, w);
        let j = choose|j: int|
            0 <= j < init.len() && init[j] == w && #[trigger] running(init, j) == occurrences(
                init,
                w,
            );
        lemma_running_prefix(ws, n, j);
    }
}

/// A running count never exceeds the number of occurrences of its word.
pub proof fn lemma_running_below_total(ws: Seq<Seq<char>>, k: int)
    requires
        0 <= k < ws.len(),
    ensures
        1 <= running(ws, k) <= occurrences(ws, ws[k]),
{
    lemma_occurrences_prefix(ws, k + 1, ws[k]);
}

/// A prefix holds at most as many occurrences of a word as the whole.
pub proof fn lemma_occurrences_prefix(ws: Seq<Seq<char>>, n: int, w: Seq<char>)
    requires
        0 <= n <= ws.len(),
    ensures
        occurrences(ws.take(n), w) <= occurrences(ws, w),
    decreases ws.len() - n,
{
    if n == ws.len() {
        assert(ws.take(n) =~= ws);
    } else {
        assert(ws.take(n + 1).drop_last() =~= ws.take(n));
        lemma_occurrences_prefix(ws, n + 1, w);
    }
}

/// The leader of a sequence of words is its most frequent word: there is a
/// leading word wherever there is a word, the leader's count is the number
/// of occurrences of that word, and no word occurs more often.
pub proof fn lemma_leader_is_most_frequent(ws: Seq<Seq<char>>)
    ensures
        leader(ws).word is Some <==> ws.len() > 0,
        leader(ws).word matches Some(top) ==> leader(ws).count == occurrences(ws, top),
        forall|w: Seq<char>| occurrences(ws, w) <= leader(ws).count,
{
    if ws.len() > 0 {
        lemma_peak_is_first_maximum(ws);
        lemma_running_below_total(ws, peak(ws));
        assert forall|w: Seq<char>| occurrences(ws, w) <= leader(ws).count by {
            if occurrences(ws, w) > 0 {
                lemma_running_reaches_total(ws, w);
            }
        }
    }
}

} // verus!
