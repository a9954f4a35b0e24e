//! Groups of players read from a raw battle input, and the battle runner.
use vstd::prelude::*;
use crate::player::{Player, is_raw_player};
use crate::rc4::RC4;

verus! {

/// The start value of a profile.
pub const PROFILE_START: u32 = 33554431;

/// The pieces of `s` between the occurrences of `c`, in order; a text
/// without `c` is one piece, and empty pieces count.
pub open spec fn split_pieces(s: Seq<char>, c: char) -> Seq<Seq<char>>
    decreases s.len(),
{
    if s.len() == 0 {
        seq![Seq::empty()]
    } else {
        let p = split_pieces(s.drop_last(), c);
        if s.last() == c {
            p.push(Seq::empty())
        } else {
            p.update(p.len() - 1, p.last().push(s.last()))
        }
    }
}

/// There is always at least one piece.
proof fn lemma_split_pieces_nonempty(s: Seq<char>, c: char)
    ensures
        split_pieces(s, c).len() >= 1,
    decreases s.len(),
{
    if s.len() > 0 {
        lemma_split_pieces_nonempty(s.drop_last(), c);
    }
}

/// The pieces of `s` between occurrences of `c`.
fn split_text(s: &str, c: char) -> (r: Vec<String>)
    ensures
        r@.len() == split_pieces(s@, c).len(),
        forall|k: int| 0 <= k < r@.len() ==> #[trigger] r@[k]@ == split_pieces(s@, c)[k],
{
    let n = s.unicode_len();
    let mut pieces: Vec<String> = Vec::new();
    let mut start: usize = 0;
    let mut i: usize = 0;
    while i < n
        invariant
            n == s@.len(),
            start <= i <= n,
            pieces@.len() + 1 == split_pieces(s@.take(i as int), c).len(),
            forall|k: int|
                0 <= k < pieces@.len() ==> #[trigger] pieces@[k]@ == split_pieces(
                    s@.take(i as int),
                    c,
                )[k],
            split_pieces(s@.take(i as int), c).last() == s@.subrange(start as int, i as int),
        decreases n - i,
    {
        let ghost before = split_pieces(s@.take(i as int), c);
        proof {
            lemma_split_pieces_nonempty(s@.take(i as int), c);
            assert(s@.take(i + 1).drop_last() =~= s@.take(i as int));
        }
        if s.get_char(i) == c {
            pieces.push(s.substring_char(start, i).to_owned());
            start = i + 1;
            proof {
                assert(s@.subrange(start as int, i + 1) =~= Seq::<char>::empty());
            }
        } else {
            proof {
                assert(s@.subrange(start as int, i + 1) =~= s@.subrange(start as int, i as int).push(
                    s@[i as int],
                ));
            }
        }
        i = i + 1;
    }
    proof {
        assert(s@.take(n as int) =~= s@);
    }
    pieces.push(s.substring_char(start, n).to_owned());
    pieces
}

/// The players of one team.
pub struct PlayerGroup {
    /// The players, in input order.
    pub players: Vec<Player>,
}

/// The non-empty ones among the first `n` lines of `lines`, in order.
pub open spec fn nonempty_lines(lines: Seq<Seq<char>>, n: nat) -> Seq<Seq<char>>
    decreases n,
{
    if n == 0 {
        Seq::empty()
    } else {
        let p = nonempty_lines(lines, (n - 1) as nat);
        if lines[n - 1].len() > 0 {
            p.push(lines[n - 1])
        } else {
            p
        }
    }
}

/// The player lines of a raw battle input: its non-empty lines.
pub open spec fn player_lines(raw: Seq<char>) -> Seq<Seq<char>> {
    nonempty_lines(split_pieces(raw, '\n'), split_pieces(raw, '\n').len())
}

impl PlayerGroup {
    /// The players of a raw battle input, one per non-empty line; all lines
    /// are taken as one team, so the blank lines between teams add no player.
    pub fn new_from_namerena_raw(raw_input: String) -> (r: PlayerGroup)
        ensures
            r.players@.len() == player_lines(raw_input@).len(),
            forall|k: int|
                0 <= k < r.players@.len() ==> is_raw_player(
                    #[trigger] r.players@[k],
                    player_lines(raw_input@)[k],
                ),
    {
        let lines = split_text(raw_input.as_str(), '\n');
        let ghost pieces = split_pieces(raw_input@, '\n');
        let mut players: Vec<Player> = Vec::new();
        let mut k: usize = 0;
        while k < lines.len()
            invariant
                k <= lines@.len(),
                lines@.len() == pieces.len(),
                pieces == split_pieces(raw_input@, '\n'),
                forall|j: int| 0 <= j < lines@.len() ==> #[trigger] lines@[j]@ == pieces[j],
                players@.len() == nonempty_lines(pieces, k as nat).len(),
                forall|j: int|
                    0 <= j < players@.len() ==> is_raw_player(
                        #[trigger] players@[j],
                        nonempty_lines(pieces, k as nat)[j],
                    ),
            decreases lines@.len() - k,
        {
            if !lines[k].as_str().is_empty() {
                let p = Player::new_from_namerena_raw(lines[k].clone());
                players.push(p);
            }
            k = k + 1;
        }
        PlayerGroup { players }
    }
}

/// A battle: the generator, the teams and the winner.
pub struct Runner {
    randomer: RC4,
    players: Vec<PlayerGroup>,
    winner: Option<PlayerGroup>,
}

impl Runner {
    /// Reads a raw battle input whose teams are separated by blank lines;
    /// nothing is built from it yet.
    pub fn new_from_namerena_raw(raw_input: String) {
    }
}

} // verus!
