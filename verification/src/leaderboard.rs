//! The leaderboard: the ten users with the most points, highest first.
use vstd::prelude::*;
use vstd::string::*;
use crate::text::{signed_decimal_string, signed_decimal_text, decimal_string, decimal_text};

verus! {

/// A user and their count of points.
#[derive(Clone, Copy, Debug, PartialEq, Eq, Structural)]
pub struct Ranking {
    pub id: i64,
    pub count: i64,
}

/// Entry `a` of `rs` comes before entry `b` on the board: a higher count, or the same count and
/// an earlier position.
pub open spec fn ranks_before(rs: Seq<Ranking>, a: int, b: int) -> bool {
    rs[a].count > rs[b].count || (rs[a].count == rs[b].count && a < b)
}

/// `picks` are the positions, in `rs`, of the entries on the board: at most ten distinct
/// positions, in board order, and every entry left out comes after all of them. This is the
/// list sorted by count from highest to lowest, keeping the order of the list between equal
/// counts, cut after ten.
pub open spec fn is_top_ten(rs: Seq<Ranking>, picks: Seq<int>) -> bool {
    &&& picks.len() == if rs.len() < 10 { rs.len() } else { 10 }
    &&& forall|k: int| 0 <= k < picks.len() ==> 0 <= #[trigger] picks[k] < rs.len()
    &&& forall|k: int, l: int| 0 <= k < l < picks.len() ==> ranks_before(rs, #[trigger] picks[k], #[trigger] picks[l])
    &&& forall|j: int| 0 <= j < rs.len() && !picks.contains(j) ==> forall|k: int| 0 <= k < picks.len() ==> ranks_before(rs, #[trigger] picks[k], j)
}

/// The entries of the board: the users with the ten highest counts, highest first; between
/// equal counts, the earlier entry first.
pub fn top_rankings(rankings: &Vec<Ranking>) -> (top: Vec<Ranking>)
    ensures
        exists|picks: Seq<int>| is_top_ten(rankings@, picks) && top@.len() == picks.len() && forall|k: int|
            0 <= k < picks.len() ==> #[trigger] top@[k] == rankings@[picks[k]],
{
    let n = rankings.len();
    let ghost rs = rankings@;
    let limit: usize = if n < 10 { n } else { 10 };
    let mut used: Vec<bool> = Vec::new();
    let mut i: usize = 0;
    while i < n
        invariant
            n == rs.len(),
            i <= n,
            used@.len() == i,
            forall|j: int| 0 <= j < i ==> !#[trigger] used@[j],
        decreases n - i,
    {
        used.push(false);
        i = i + 1;
    }
    let mut top: Vec<Ranking> = Vec::new();
    let ghost mut picks: Seq<int> = Seq::empty();
    let mut k: usize = 0;
    while k < limit
        invariant
            n == rs.len(),
            rs == rankings@,
            limit == if n < 10 { n } else { 10 },
            k <= limit,
            used@.len() == n,
            picks.len() == k,
            top@.len() == k,
            forall|m: int| 0 <= m < k ==> 0 <= #[trigger] picks[m] < n,
            forall|m: int| 0 <= m < k ==> #[trigger] top@[m] == rs[picks[m]],
            forall|j: int| 0 <= j < n ==> (#[trigger] used@[j] <==> picks.contains(j)),
            forall|a: int, b: int| 0 <= a < b < k ==> ranks_before(rs, #[trigger] picks[a], #[trigger] picks[b]),
            forall|j: int| 0 <= j < n && !picks.contains(j) ==> forall|m: int| 0 <= m < k ==> ranks_before(rs, #[trigger] picks[m], j),
        decreases limit - k,
    {
        // the first unused entry with the highest count
        let mut best: usize = n;
        let mut j: usize = 0;
        while j < n
            invariant
                n == rs.len(),
                rs == rankings@,
                used@.len() == n,
                j <= n,
                best == n || (best < j && !used@[best as int]),
                best == n ==> forall|x: int| 0 <= x < j ==> #[trigger] used@[x],
                best < n ==> forall|x: int| 0 <= x < j && !used@[x] && x != best ==> ranks_before(rs, best as int, x),
            decreases n - j,
        {
            if !used[j] {
                if best == n || rankings[j].count > rankings[best].count {
                    best = j;
                }
            }
            j = j + 1;
        }
        proof {
            if best == n {
                // fewer than `limit` entries would have been unused
                assert forall|x: int| 0 <= x < n implies picks.contains(x) by {
                    assert(used@[x]);
                }
                lemma_picks_cover(picks, n as int);
            }
        }
        let ghost old_picks = picks;
        used.set(best, true);
        top.push(rankings[best]);
        proof {
            picks = picks.push(best as int);
            assert forall|x: int| 0 <= x < n implies (#[trigger] used@[x] <==> picks.contains(x)) by {
                if x == best {
                    assert(picks[k as int] == x);
                } else if old_picks.contains(x) {
                    let m = choose|m: int| 0 <= m < old_picks.len() && old_picks[m] == x;
                    assert(picks[m] == x);
                } else if picks.contains(x) {
                    let m = choose|m: int| 0 <= m < picks.len() && picks[m] == x;
                    if m < k {
                        assert(old_picks[m] == x);
                    }
                }
            }
            assert forall|a: int, b: int| 0 <= a < b < k + 1 implies ranks_before(rs, #[trigger] picks[a], #[trigger] picks[b]) by {
                if b == k {
                    assert(!old_picks.contains(best as int));
                    assert(picks[a] == old_picks[a]);
                } else {
                    assert(picks[a] == old_picks[a]);
                    assert(picks[b] == old_picks[b]);
                }
            }
            assert forall|x: int| 0 <= x < n && !picks.contains(x) implies forall|m: int| 0 <= m < k + 1 ==> ranks_before(rs, #[trigger] picks[m], x) by {
                assert(!old_picks.contains(x)) by {
                    if old_picks.contains(x) {
                        let m = choose|m: int| 0 <= m < old_picks.len() && old_picks[m] == x;
                        assert(picks[m] == x);
                    }
                }
                assert(picks[k as int] == best as int);
                assert(x != best);
                assert forall|m: int| 0 <= m < k + 1 implies ranks_before(rs, #[trigger] picks[m], x) by {
                    if m < k {
                        assert(picks[m] == old_picks[m]);
                    }
                }
            }
        }
        k = k + 1;
    }
    proof {
        assert(is_top_ten(rs, picks));
    }
    top
}

/// A sequence of distinct positions below `n` that contains every position below `n` has
/// exactly `n` of them.
proof fn lemma_picks_cover(picks: Seq<int>, n: int)
    requires
        0 <= n,
        forall|x: int| 0 <= x < n ==> picks.contains(x),
        forall|m: int| 0 <= m < picks.len() ==> 0 <= #[trigger] picks[m] < n,
        forall|a: int, b: int| 0 <= a < b < picks.len() ==> #[trigger] picks[a] != #[trigger] picks[b],
    ensures
        picks.len() >= n,
{
    let s = picks.to_set();
    assert(s =~= vstd::set_lib::set_int_range(0, n)) by {
        assert forall|x: int| s.contains(x) <==> 0 <= x < n by {
            if s.contains(x) {
                let m = choose|m: int| 0 <= m < picks.len() && picks[m] == x;
            }
        }
    }
    vstd::set_lib::lemma_int_range(0, n);
    picks.lemma_cardinality_of_set();
}

/// The board line of entry `rank` (counting from 1): "- #<rank>: <@<id>> <count> niggas".
pub open spec fn ranking_line(rank: nat, r: Ranking) -> Seq<char> {
    seq!['-', ' ', '#'] + decimal_text(rank) + seq![':', ' ', '<', '@'] + signed_decimal_text(r.id as int) + seq![
        '>',
        ' ',
    ] + signed_decimal_text(r.count as int) + seq![' ', 'n', 'i', 'g', 'g', 'a', 's']
}

/// The lines of the entries, numbered from `first`, joined with newlines.
pub open spec fn board_text(rs: Seq<Ranking>) -> Seq<char>
    decreases rs.len(),
{
    if rs.len() == 0 {
        Seq::empty()
    } else if rs.len() == 1 {
        ranking_line(1, rs[0])
    } else {
        board_text(rs.drop_last()) + seq!['\n'] + ranking_line(rs.len(), rs.last())
    }
}

/// The board line of one entry.
pub fn ranking_line_string(rank: u64, r: Ranking) -> (s: String)
    ensures
        s@ == ranking_line(rank as nat, r),
{
    proof {
        reveal_strlit("- #");
        reveal_strlit(": <@");
        reveal_strlit("> ");
        reveal_strlit(" niggas");
    }
    let mut s = String::from_str("- #");
    let a = decimal_string(rank);
    s.append(a.as_str());
    s.append(": <@");
    let b = signed_decimal_string(r.id);
    s.append(b.as_str());
    s.append("> ");
    let c = signed_decimal_string(r.count);
    s.append(c.as_str());
    s.append(" niggas");
    s
}

/// The text of the board: the lines of the entries, numbered from 1, joined with newlines.
pub fn leaderboard_text(top: &Vec<Ranking>) -> (s: String)
    requires
        top@.len() < u64::MAX,
    ensures
        s@ == board_text(top@),
{
    let mut s = String::new();
    let mut i: usize = 0;
    while i < top.len()
        invariant
            i <= top@.len(),
            top@.len() < u64::MAX,
            s@ == board_text(top@.take(i as int)),
        decreases top@.len() - i,
    {
        proof {
            assert(top@.take(i + 1).drop_last() =~= top@.take(i as int));
            reveal_strlit("\n");
        }
        if i > 0 {
            s.append("\n");
        }
        let line = ranking_line_string((i + 1) as u64, top[i]);
        s.append(line.as_str());
        i = i + 1;
    }
    assert(top@.take(top@.len() as int) =~= top@);
    s
}

} // verus!
