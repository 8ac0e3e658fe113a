//! Snapshot types pushed to clients, their mathematical views, and the
//! redaction rule applied to other players' bets while a round is hidden.

use vstd::prelude::*;

verus! {

/// What one player looks like in a snapshot: an optional bet and a display
/// name.
#[derive(Clone, Debug, PartialEq)]
pub struct PlayerState {
    pub card: Option<u64>,
    pub name: String,
}

/// The per-recipient snapshot of a room: the other players (possibly
/// redacted), the card menu, the recipient's own record and the visibility
/// flag.
#[derive(Clone, Debug, PartialEq)]
pub struct PlayerGameState {
    pub players: Vec<PlayerState>,
    pub cards: Vec<u64>,
    pub self_state: PlayerState,
    pub hidden: bool,
}

/// Mathematical view of a player record.
#[verifier::ext_equal]
pub ghost struct PlayerStateV {
    pub card: Option<u64>,
    pub name: Seq<char>,
}

/// Mathematical view of a snapshot.
#[verifier::ext_equal]
pub ghost struct GameStateV {
    pub players: Seq<PlayerStateV>,
    pub cards: Seq<u64>,
    pub self_state: PlayerStateV,
    pub hidden: bool,
}

impl View for PlayerState {
    type V = PlayerStateV;

    open spec fn view(&self) -> PlayerStateV {
        PlayerStateV { card: self.card, name: self.name@ }
    }
}

impl View for PlayerGameState {
    type V = GameStateV;

    open spec fn view(&self) -> GameStateV {
        GameStateV {
            players: self.players@.map_values(|p: PlayerState| p@),
            cards: self.cards@,
            self_state: self.self_state@,
            hidden: self.hidden,
        }
    }
}

impl Default for PlayerState {
    /// An empty record: no bet, empty name.
    fn default() -> (r: Self)
        ensures
            r@.card is None,
            r@.name.len() == 0,
    {
        PlayerState { card: None, name: String::new() }
    }
}

impl Default for PlayerGameState {
    /// An empty snapshot: no players, no cards, empty own record, hidden.
    fn default() -> (r: Self)
        ensures
            r@.players.len() == 0,
            r@.cards.len() == 0,
            r@.self_state.card is None,
            r@.self_state.name.len() == 0,
            r@.hidden,
    {
        PlayerGameState {
            players: Vec::new(),
            cards: Vec::new(),
            self_state: PlayerState { card: None, name: String::new() },
            hidden: true,
        }
    }
}

/// The fixed marker substituted for another player's bet while the round is
/// hidden: the recipient learns that a bet exists, not its value.
pub open spec fn has_bet_marker() -> u64 {
    0u64
}

/// How another player's record appears to a recipient: while hidden, a
/// placed bet is replaced by the marker; otherwise the record is shown as
/// it is.
pub open spec fn redact(hidden: bool, p: PlayerStateV) -> PlayerStateV {
    if hidden {
        PlayerStateV {
            card: match p.card {
                Some(_) => Some(has_bet_marker()),
                None => None,
            },
            name: p.name,
        }
    } else {
        p
    }
}

/// The snapshot owed to the player at position `i` of the room's records:
/// their own record unredacted, every other record in room order redacted
/// under the visibility flag, and the menu and flag as they are.
pub open spec fn view_for(cards: Seq<u64>, hidden: bool, records: Seq<PlayerStateV>, i: int) -> GameStateV {
    GameStateV {
        players: records.remove(i).map_values(|p: PlayerStateV| redact(hidden, p)),
        cards: cards,
        self_state: records[i],
        hidden: hidden,
    }
}

/// Membership law: the snapshot owed to any connected player lists exactly
/// the other connected players, in room order — none omitted, none
/// invented — and its own record is the recipient's.
pub proof fn lemma_view_covers_membership(
    cards: Seq<u64>,
    hidden: bool,
    records: Seq<PlayerStateV>,
    i: int,
)
    requires
        0 <= i < records.len(),
    ensures
        view_for(cards, hidden, records, i).players.len() == records.len() - 1,
        forall|j: int|
            0 <= j < i ==> view_for(cards, hidden, records, i).players[j] == redact(
                hidden,
                #[trigger] records[j],
            ),
        forall|j: int|
            i < j < records.len() ==> view_for(cards, hidden, records, i).players[j - 1] == redact(
                hidden,
                #[trigger] records[j],
            ),
        view_for(cards, hidden, records, i).self_state == records[i],
{
}

/// The value a record contributes to the bet total.
pub open spec fn bet_of(p: PlayerStateV) -> int {
    match p.card {
        Some(v) => v as int,
        None => 0,
    }
}

/// The total of the placed bets in a record list.
pub open spec fn sum_bets(s: Seq<PlayerStateV>) -> int
    decreases s.len(),
{
    if s.len() == 0 {
        0
    } else {
        bet_of(s[0]) + sum_bets(s.drop_first())
    }
}

/// How many records have placed a bet.
pub open spec fn count_bets(s: Seq<PlayerStateV>) -> int
    decreases s.len(),
{
    if s.len() == 0 {
        0
    } else {
        (if s[0].card is Some {
            1int
        } else {
            0int
        }) + count_bets(s.drop_first())
    }
}

proof fn lemma_bets_push(s: Seq<PlayerStateV>, x: PlayerStateV)
    ensures
        sum_bets(s.push(x)) == sum_bets(s) + bet_of(x),
        count_bets(s.push(x)) == count_bets(s) + (if x.card is Some {
            1int
        } else {
            0int
        }),
        sum_bets(s) >= 0,
        count_bets(s) >= 0,
    decreases s.len(),
{
    if s.len() == 0 {
        assert(s.push(x).drop_first() =~= s);
    } else {
        assert(s.push(x).drop_first() =~= s.drop_first().push(x));
        lemma_bets_push(s.drop_first(), x);
    }
}

proof fn lemma_bets_nonneg(s: Seq<PlayerStateV>)
    ensures
        sum_bets(s) >= 0,
        count_bets(s) >= 0,
    decreases s.len(),
{
    if s.len() > 0 {
        lemma_bets_nonneg(s.drop_first());
    }
}

/// The mean placed bet over a snapshot's other players and the recipient's
/// own record, rounded down; zero when nobody has bet. This is what the
/// display shows next to the control that starts a fresh round.
pub fn average_bet(players: &Vec<PlayerState>, self_state: &PlayerState) -> (r: u64)
    ensures
        ({
            let all = players@.map_values(|p: PlayerState| p@).push(self_state@);
            &&& count_bets(all) == 0 ==> r == 0
            &&& count_bets(all) > 0 ==> r == sum_bets(all) / count_bets(all)
        }),
{
    let ghost all = players@.map_values(|p: PlayerState| p@).push(self_state@);
    let n = players.len();
    let mut sum: u128 = 0;
    let mut cnt: u128 = 0;
    let mut i: usize = 0;
    while i < n
        invariant
            i <= n,
            n == players@.len(),
            sum == sum_bets(players@.take(i as int).map_values(|p: PlayerState| p@)),
            cnt == count_bets(players@.take(i as int).map_values(|p: PlayerState| p@)),
            cnt <= i,
            sum <= cnt as int * 0xffff_ffff_ffff_ffffu64,
        decreases n - i,
    {
        let ghost prefix = players@.take(i as int).map_values(|p: PlayerState| p@);
        proof {
            lemma_bets_push(prefix, players@[i as int]@);
            assert(players@.take(i + 1).map_values(|p: PlayerState| p@) =~= prefix.push(
                players@[i as int]@,
            ));
        }
        match players[i].card {
            Some(v) => {
                sum = sum + (v as u128);
                cnt = cnt + 1;
            },
            None => {},
        }
        i += 1;
    }
    proof {
        assert(players@.take(n as int) =~= players@);
        lemma_bets_push(players@.map_values(|p: PlayerState| p@), self_state@);
    }
    match self_state.card {
        Some(v) => {
            sum = sum + (v as u128);
            cnt = cnt + 1;
        },
        None => {},
    }
    if cnt == 0 {
        0
    } else {
        proof {
            lemma_bets_nonneg(all);
            assert((sum as int) / (cnt as int) <= 0xffff_ffff_ffff_ffffu64 as int)
                by (nonlinear_arith)
                requires
                    sum as int <= cnt as int * (0xffff_ffff_ffff_ffffu64 as int),
                    cnt as int >= 1,
            ;
        }
        (sum / cnt) as u64
    }
}

/// Redaction law: while the room is hidden, a recipient sees another
/// player's bet as absent when it is absent and as the fixed marker when it
/// is placed — never as its value — while its own bet is shown as placed.
pub proof fn lemma_redaction(cards: Seq<u64>, records: Seq<PlayerStateV>, i: int)
    requires
        0 <= i < records.len(),
    ensures
        forall|j: int|
            0 <= j < records.len() - 1 ==> (#[trigger] view_for(
                cards,
                true,
                records,
                i,
            ).players[j].card matches Some(c) ==> c == has_bet_marker()),
        forall|j: int|
            0 <= j < records.len() - 1 ==> (view_for(cards, true, records, i).players[j].card
                is None <==> #[trigger] records.remove(i)[j].card is None),
        view_for(cards, true, records, i).self_state.card == records[i].card,
{
}

} // verus!
