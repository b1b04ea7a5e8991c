use vstd::prelude::*;
use vstd::string::*;

use crate::games::{
    copy_text, event_rows_where, is_event_row, parse_time, play_slots, play_times_fit,
    spec_parse_time, time_fits, EventRow, Play,
};

verus! {

// ---------------------------------------------------------------------
// Box score: players (this loader keeps the position's abbreviation only)
// ---------------------------------------------------------------------

/// A player on a team's roster for one game.
pub struct Player {
    pub id: String,
    pub full_name: String,
    pub shoots_catches: Option<String>,
    pub roster_status: String,
    pub position: String,
}

/// One side of a game's box score: the team and its players, in the order
/// in which the feed's player map was walked.
pub struct Team {
    pub id: u16,
    pub players: Vec<Player>,
}

/// A row of the `players` table.
pub struct PlayerRow {
    pub id: String,
    pub game_id: String,
    pub team_id: u16,
    pub full_name: String,
    pub shoots_catches: Option<String>,
    pub roster_status: String,
    pub position: String,
}

/// `r` is the row of player `p` of team `team_id` in game `game_id`.
pub open spec fn is_player_row(r: PlayerRow, game_id: Seq<char>, team_id: u16, p: Player) -> bool {
    &&& r.id == p.id
    &&& r.game_id@ == game_id
    &&& r.team_id == team_id
    &&& r.full_name == p.full_name
    &&& r.shoots_catches == p.shoots_catches
    &&& r.roster_status == p.roster_status
    &&& r.position == p.position
}

/// The rows for the players of `team` in game `game_id`: one per player,
/// in roster order.
pub fn player_rows(game_id: &str, team: &Team) -> (rows: Vec<PlayerRow>)
    ensures
        rows@.len() == team.players@.len(),
        forall|i: int|
            0 <= i < rows@.len() ==> is_player_row(
                #[trigger] rows@[i],
                game_id@,
                team.id,
                team.players@[i],
            ),
{
    let mut rows: Vec<PlayerRow> = Vec::new();
    let n = team.players.len();
    for i in 0..n
        invariant
            n == team.players@.len(),
            rows@.len() == i,
            forall|k: int|
                0 <= k < i ==> is_player_row(
                    #[trigger] rows@[k],
                    game_id@,
                    team.id,
                    team.players@[k],
                ),
    {
        let p = &team.players[i];
        rows.push(
            PlayerRow {
                id: p.id.clone(),
                game_id: String::from_str(game_id),
                team_id: team.id,
                full_name: p.full_name.clone(),
                shoots_catches: copy_text(&p.shoots_catches),
                roster_status: p.roster_status.clone(),
                position: p.position.clone(),
            },
        );
    }
    rows
}

/// The rows for both rosters of a game: the away team's players first,
/// then the home team's.
pub fn players_rows(game_id: &str, away: &Team, home: &Team) -> (rows: Vec<PlayerRow>)
    ensures
        rows@.len() == away.players@.len() + home.players@.len(),
        forall|i: int|
            0 <= i < away.players@.len() ==> is_player_row(
                #[trigger] rows@[i],
                game_id@,
                away.id,
                away.players@[i],
            ),
        forall|i: int|
            0 <= i < home.players@.len() ==> is_player_row(
                #[trigger] rows@[away.players@.len() + i],
                game_id@,
                home.id,
                home.players@[i],
            ),
{
    let mut rows = player_rows(game_id, away);
    let mut more = player_rows(game_id, home);
    let ghost a = rows@;
    let ghost b = more@;
    rows.append(&mut more);
    assert(rows@ =~= a + b);
    assert forall|i: int| 0 <= i < home.players@.len() implies is_player_row(
        #[trigger] rows@[away.players@.len() + i],
        game_id@,
        home.id,
        home.players@[i],
    ) by {
        assert(rows@[away.players@.len() + i] == b[i]);
    }
    rows
}

// ---------------------------------------------------------------------
// Play-by-play: events (plays whose clock times do not read are skipped)
// ---------------------------------------------------------------------

/// The rows of the `events` table for game `game_id`: for each play that
/// has participants and whose two clock times both read, in feed order, one
/// row per participant.
pub fn event_rows(game_id: &str, plays: &Vec<Play>) -> (rows: Vec<EventRow>)
    requires
        play_times_fit(plays@, true),
    ensures
        rows@.len() == play_slots(plays@, true).len(),
        forall|k: int|
            0 <= k < rows@.len() ==> is_event_row(
                #[trigger] rows@[k],
                game_id@,
                plays@,
                play_slots(plays@, true)[k],
            ),
{
    event_rows_where(game_id, plays, true)
}

// ---------------------------------------------------------------------
// Shift charts
// ---------------------------------------------------------------------

/// One shift of the chart.
pub struct Shift {
    /// The game's id, as the chart writes the number.
    pub game_id: String,
    pub team_id: u16,
    /// The player's id, as the chart writes the number.
    pub player_id: String,
    pub period: u8,
    pub start_time: String,
    pub end_time: String,
    pub duration: Option<String>,
    pub shift_number: u8,
    pub event_description: Option<String>,
}

/// A row of the `shifts` table.
pub struct ShiftRow {
    pub game_id: String,
    pub team_id: u16,
    pub player_id: String,
    pub period: u8,
    pub start_time: u16,
    pub end_time: u16,
    pub duration: Option<u16>,
    pub shift_number: u8,
    pub event: String,
}

/// A shift yields a row when its start and end times both read.
pub open spec fn shift_kept(s: Shift) -> bool {
    spec_parse_time(s.start_time@) is Some && spec_parse_time(s.end_time@) is Some
}

/// The indices of the shifts that yield rows, in chart order.
pub open spec fn shift_slots(shifts: Seq<Shift>) -> Seq<int>
    decreases shifts.len(),
{
    if shifts.len() == 0 {
        Seq::empty()
    } else {
        let prev = shift_slots(shifts.drop_last());
        if shift_kept(shifts.last()) {
            prev.push(shifts.len() - 1)
        } else {
            prev
        }
    }
}

/// `r` is the row of shift `s`: its times read as seconds, a missing
/// duration or one that does not read left empty, and a missing event
/// description written as the empty text.
pub open spec fn is_shift_row(r: ShiftRow, s: Shift) -> bool {
    &&& r.game_id == s.game_id
    &&& r.team_id == s.team_id
    &&& r.player_id == s.player_id
    &&& r.period == s.period
    &&& spec_parse_time(s.start_time@) == Some(r.start_time)
    &&& spec_parse_time(s.end_time@) == Some(r.end_time)
    &&& r.duration == match s.duration {
        Some(d) => spec_parse_time(d@),
        None => None,
    }
    &&& r.shift_number == s.shift_number
    &&& r.event@ == match s.event_description {
        Some(e) => e@,
        None => Seq::empty(),
    }
}

/// The clock times that are read cannot overflow: the start and end of
/// every shift, and the duration of every shift that yields a row.
pub open spec fn shift_times_fit(shifts: Seq<Shift>) -> bool {
    forall|i: int|
        0 <= i < shifts.len() ==> {
            &&& time_fits(#[trigger] shifts[i].start_time@)
            &&& time_fits(shifts[i].end_time@)
            &&& (shift_kept(shifts[i]) && shifts[i].duration is Some) ==> time_fits(
                shifts[i].duration->0@,
            )
        }
}

/// The rows of the `shifts` table: one per shift whose start and end times
/// both read, in chart order.
pub fn shift_rows(shifts: &Vec<Shift>) -> (rows: Vec<ShiftRow>)
    requires
        shift_times_fit(shifts@),
    ensures
        rows@.len() == shift_slots(shifts@).len(),
        forall|k: int|
            0 <= k < rows@.len() ==> is_shift_row(
                #[trigger] rows@[k],
                shifts@[shift_slots(shifts@)[k]],
            ),
{
    let mut rows: Vec<ShiftRow> = Vec::new();
    let n = shifts.len();
    for i in 0..n
        invariant
            n == shifts@.len(),
            shift_times_fit(shifts@),
            rows@.len() == shift_slots(shifts@.take(i as int)).len(),
            forall|k: int|
                0 <= k < rows@.len() ==> is_shift_row(
                    #[trigger] rows@[k],
                    shifts@[shift_slots(shifts@.take(i as int))[k]],
                ),
    {
        let ghost before = rows@;
        assert(shifts@.take(i + 1).drop_last() =~= shifts@.take(i as int));
        assert(shifts@.take(i + 1).last() == shifts@[i as int]);
        let s = &shifts[i];
        assert(time_fits(shifts@[i as int].start_time@));
        let start_time = parse_time(s.start_time.as_str());
        let end_time = parse_time(s.end_time.as_str());
        match (start_time, end_time) {
            (Some(start_time), Some(end_time)) => {
                let duration = match &s.duration {
                    Some(d) => parse_time(d.as_str()),
                    None => None,
                };
                let event = match &s.event_description {
                    Some(e) => e.clone(),
                    None => String::new(),
                };
                let row = ShiftRow {
                    game_id: s.game_id.clone(),
                    team_id: s.team_id,
                    player_id: s.player_id.clone(),
                    period: s.period,
                    start_time,
                    end_time,
                    duration,
                    shift_number: s.shift_number,
                    event,
                };
                let ghost grow = row;
                rows.push(row);
                proof {
                    assert(rows@ == before.push(grow));
                    assert forall|k: int| 0 <= k < rows@.len() implies is_shift_row(
                        #[trigger] rows@[k],
                        shifts@[shift_slots(shifts@.take(i + 1))[k]],
                    ) by {
                        if k < before.len() {
                            assert(before.push(grow)[k] == before[k]);
                        }
                    }
                }
            },
            _ => {},
        }
    }
    assert(shifts@.take(n as int) =~= shifts@);
    rows
}


// ---------------------------------------------------------------------
// Laws
// ---------------------------------------------------------------------

/// Every players row copies the player it stands for, with the game and the
/// team: id, name, shooting side, roster status and position.
pub proof fn lemma_player_rows_copy_their_player(
    game_id: Seq<char>,
    team_id: u16,
    players: Seq<Player>,
    rows: Seq<PlayerRow>,
)
    requires
        rows.len() == players.len(),
        forall|i: int|
            0 <= i < rows.len() ==> is_player_row(#[trigger] rows[i], game_id, team_id, players[i]),
    ensures
        forall|i: int|
            0 <= i < rows.len() ==> {
                let r = #[trigger] rows[i];
                let p = players[i];
                &&& r.id == p.id
                &&& r.game_id@ == game_id
                &&& r.team_id == team_id
                &&& r.full_name == p.full_name
                &&& r.shoots_catches == p.shoots_catches
                &&& r.roster_status == p.roster_status
                &&& r.position == p.position
            },
{
}

/// Every shifts row copies the shift it stands for: game, team, player,
/// period and shift number unchanged, start and end read as seconds, the
/// duration read when present, and the event description or else the empty
/// text.
pub proof fn lemma_shift_rows_copy_their_shift(shifts: Seq<Shift>, rows: Seq<ShiftRow>)
    requires
        rows.len() == shift_slots(shifts).len(),
        forall|k: int|
            0 <= k < rows.len() ==> is_shift_row(#[trigger] rows[k], shifts[shift_slots(shifts)[k]]),
    ensures
        forall|k: int|
            0 <= k < rows.len() ==> {
                let r = #[trigger] rows[k];
                let s = shifts[shift_slots(shifts)[k]];
                &&& r.game_id == s.game_id
                &&& r.team_id == s.team_id
                &&& r.player_id == s.player_id
                &&& r.period == s.period
                &&& spec_parse_time(s.start_time@) == Some(r.start_time)
                &&& spec_parse_time(s.end_time@) == Some(r.end_time)
                &&& (s.duration is None ==> r.duration is None)
                &&& (s.duration is Some ==> r.duration == spec_parse_time(s.duration->0@))
                &&& r.shift_number == s.shift_number
                &&& (s.event_description is Some ==> r.event@ == s.event_description->0@)
                &&& (s.event_description is None ==> r.event@.len() == 0)
            },
{
}

/// The shifts that yield rows are exactly those whose start and end times
/// both read, in chart order, each once.
pub proof fn lemma_shift_slots_exact(shifts: Seq<Shift>)
    ensures
        forall|k: int|
            0 <= k < shift_slots(shifts).len() ==> {
                let i = #[trigger] shift_slots(shifts)[k];
                &&& 0 <= i < shifts.len()
                &&& spec_parse_time(shifts[i].start_time@) is Some
                &&& spec_parse_time(shifts[i].end_time@) is Some
            },
        forall|k1: int, k2: int|
            0 <= k1 < k2 < shift_slots(shifts).len() ==> #[trigger] shift_slots(shifts)[k1]
                < #[trigger] shift_slots(shifts)[k2],
        forall|i: int|
            0 <= i < shifts.len() && spec_parse_time(shifts[i].start_time@) is Some
                && spec_parse_time(shifts[i].end_time@) is Some ==> #[trigger] shift_slots(
                shifts,
            ).contains(i),
    decreases shifts.len(),
{
    if shifts.len() > 0 {
        let p = shifts.drop_last();
        let n = shifts.len() - 1;
        lemma_shift_slots_exact(p);
        let prev = shift_slots(p);
        let all = shift_slots(shifts);
        assert forall|i: int| 0 <= i < n implies p[i] == shifts[i] by {}
        assert(shifts.last() == shifts[n]);
        let keep = shift_kept(shifts[n]);
        assert forall|k: int| 0 <= k < all.len() implies {
            let i = #[trigger] all[k];
            &&& 0 <= i < shifts.len()
            &&& spec_parse_time(shifts[i].start_time@) is Some
            &&& spec_parse_time(shifts[i].end_time@) is Some
        } by {
            if k < prev.len() {
                assert(all[k] == prev[k]);
                assert(prev[k] == shift_slots(p)[k]);
            }
        }
        assert forall|k1: int, k2: int| 0 <= k1 < k2 < all.len() implies #[trigger] all[k1]
            < #[trigger] all[k2] by {
            assert(all[k1] == prev[k1]);
            assert(prev[k1] == shift_slots(p)[k1]);
            if k2 < prev.len() {
                assert(all[k2] == prev[k2]);
                assert(prev[k2] == shift_slots(p)[k2]);
            }
        }
        assert forall|i: int|
            0 <= i < shifts.len() && spec_parse_time(shifts[i].start_time@) is Some
                && spec_parse_time(shifts[i].end_time@) is Some implies #[trigger] all.contains(i) by {
            if i < n {
                assert(p[i] == shifts[i]);
                assert(shift_slots(p).contains(i));
                let w = choose|w: int| 0 <= w < prev.len() && prev[w] == i;
                assert(all[w] == prev[w]);
            } else {
                assert(keep);
                assert(all[prev.len() as int] == n);
            }
        }
    }
}


/// Which clock times must be in range before the shifts rows are built: the
/// start and end of every shift, and the duration of every shift whose start
/// and end both read; no other text is read.
pub proof fn lemma_shift_times_fit_exact(shifts: Seq<Shift>)
    ensures
        shift_times_fit(shifts) <==> forall|i: int|
            0 <= i < shifts.len() ==> {
                &&& time_fits(#[trigger] shifts[i].start_time@)
                &&& time_fits(shifts[i].end_time@)
                &&& (spec_parse_time(shifts[i].start_time@) is Some && spec_parse_time(
                    shifts[i].end_time@,
                ) is Some && shifts[i].duration is Some) ==> time_fits(shifts[i].duration->0@)
            },
{
}

} // verus!
