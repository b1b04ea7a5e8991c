use vstd::prelude::*;
use vstd::string::*;

use crate::text::{
    all_digits, chars_of, is_digit, lemma_decimal_digits, lemma_padded_digits,
    lemma_parse_u16_of_decimal, lemma_parse_u16_of_padded_decimal, parse_u16_in, spec_decimal,
    spec_parse_u16, split_on, zeros, lemma_split_nonempty, digits_value,
};
use crate::theft::{filename, spec_filename, Fetch};

verus! {

// ---------------------------------------------------------------------
// Addresses and downloads
// ---------------------------------------------------------------------

pub open spec fn spec_events_url(id: Seq<char>) -> Seq<char> {
    "https://statsapi.web.nhl.com/api/v1/game/"@ + id + "/feed/live?site=en_nhl"@
}

pub open spec fn spec_shifts_url(id: Seq<char>) -> Seq<char> {
    "http://www.nhl.com/stats/rest/shiftcharts?cayenneExp=gameId="@ + id
}

/// The address of the live feed (plays and box score) of game `id`.
pub fn events_url(id: &str) -> (res: String)
    ensures
        res@ == spec_events_url(id@),
{
    let mut s = String::from_str("https://statsapi.web.nhl.com/api/v1/game/");
    s.append(id);
    s.append("/feed/live?site=en_nhl");
    s
}

/// The address of the shift chart of game `id`.
pub fn shifts_url(id: &str) -> (res: String)
    ensures
        res@ == spec_shifts_url(id@),
{
    let mut s = String::from_str("http://www.nhl.com/stats/rest/shiftcharts?cayenneExp=gameId=");
    s.append(id);
    s
}

/// The download of `url` for game `id` into the `directory` folder, with a
/// pause of 1500 ms after it.
pub fn scrape(wd: &str, id: &str, directory: &str, url: &str) -> (res: Fetch)
    ensures
        res.path@ == spec_filename(wd@, directory@, id@),
        res.url@ == url@,
        res.wait == 1500,
{
    Fetch { url: String::from_str(url), path: filename(wd, directory, id), wait: 1500 }
}

/// The two downloads of a game: its live feed into `events` and its shift
/// chart into `shifts`; nothing when there is no game id.
pub fn scrape_pair(wd: &str, id: &Option<String>) -> (res: Option<(Fetch, Fetch)>)
    ensures
        id is None <==> res is None,
        id matches Some(g) ==> {
            let (e, s) = res->0;
            &&& e.path@ == spec_filename(wd@, "events"@, g@)
            &&& e.url@ == spec_events_url(g@)
            &&& e.wait == 1500
            &&& s.path@ == spec_filename(wd@, "shifts"@, g@)
            &&& s.url@ == spec_shifts_url(g@)
            &&& s.wait == 1500
        },
{
    match id {
        Some(g) => {
            let e = scrape(wd, g.as_str(), "events", events_url(g.as_str()).as_str());
            let s = scrape(wd, g.as_str(), "shifts", shifts_url(g.as_str()).as_str());
            Some((e, s))
        },
        None => None,
    }
}

// ---------------------------------------------------------------------
// Clock times
// ---------------------------------------------------------------------

/// A clock time `"m:s"` read as a number of seconds: exactly one `':'`,
/// both sides read as `u16` numbers, the result `60 * m + s`.
pub open spec fn spec_parse_time(t: Seq<char>) -> Option<u16> {
    let parts = split_on(t, ':');
    if parts.len() == 2 {
        match (spec_parse_u16(parts[0]), spec_parse_u16(parts[1])) {
            (Some(m), Some(s)) => Some((m * 60 + s) as u16),
            _ => None,
        }
    } else {
        None
    }
}

/// Reading `t` computes no number of seconds beyond `u16::MAX` (where
/// `60 * m + s` would overflow, the computation panics).
pub open spec fn time_fits(t: Seq<char>) -> bool {
    let parts = split_on(t, ':');
    parts.len() == 2 ==> match (spec_parse_u16(parts[0]), spec_parse_u16(parts[1])) {
        (Some(m), Some(s)) => m * 60 + s <= u16::MAX,
        _ => true,
    }
}

proof fn lemma_split_prefix_without_sep(s: Seq<char>, sep: char)
    requires
        forall|j: int| 0 <= j < s.len() ==> s[j] != sep,
    ensures
        split_on(s, sep) == seq![s],
    decreases s.len(),
{
    if s.len() > 0 {
        lemma_split_prefix_without_sep(s.drop_last(), sep);
        assert(s.drop_last().push(s.last()) =~= s);
    } else {
        assert(s =~= Seq::<char>::empty());
    }
}

/// The pieces of `t` around `':'` while scanning it: `colon` is the first
/// separator seen in `t[..i]`, if any, and no second one was met.
spec fn scan_inv(t: Seq<char>, i: int, colon: Option<int>) -> bool {
    match colon {
        None => split_on(t.take(i), ':') == seq![t.take(i)],
        Some(p) => 0 <= p < i && split_on(t.take(i), ':') == seq![t.take(p), t.subrange(p + 1, i)],
    }
}

proof fn lemma_scan_step(t: Seq<char>, i: int, colon: Option<int>)
    requires
        0 <= i < t.len(),
        scan_inv(t, i, colon),
    ensures
        t[i] != ':' ==> scan_inv(t, i + 1, colon),
        t[i] == ':' && colon is None ==> scan_inv(t, i + 1, Some(i)),
        t[i] == ':' && colon is Some ==> split_on(t.take(i + 1), ':').len() == 3,
{
    assert(t.take(i + 1).drop_last() =~= t.take(i));
    assert(t.take(i + 1).last() == t[i]);
    match colon {
        None => {
            assert(t.take(i).push(t[i]) =~= t.take(i + 1));
            let parts = split_on(t.take(i), ':');
            if t[i] == ':' {
                assert(t.subrange(i + 1, i + 1) =~= Seq::<char>::empty());
                assert(parts.push(Seq::empty()) =~= seq![t.take(i), t.subrange(i + 1, i + 1)]);
            } else {
                assert(parts.update(parts.len() - 1, parts.last().push(t[i])) =~= seq![t.take(i + 1)]);
            }
        },
        Some(p) => {
            assert(t.subrange(p + 1, i).push(t[i]) =~= t.subrange(p + 1, i + 1));
            let parts = split_on(t.take(i), ':');
            if t[i] != ':' {
                assert(parts.update(parts.len() - 1, parts.last().push(t[i])) =~= seq![t.take(p), t.subrange(p + 1, i + 1)]);
            }
        },
    }
}

/// Checks the condition under which `parse_time` runs without overflow.
pub fn time_in_range(t: &str) -> (res: bool)
    ensures
        res == time_fits(t@),
{
    match split_time(t) {
        None => true,
        Some((m, s)) => match (m, s) {
            (Some(m), Some(s)) => (m as u32) * 60 + (s as u32) <= 65535,
            _ => true,
        },
    }
}

/// The two sides of `t` read as `u16` numbers when `t` holds exactly one
/// `':'`; `None` otherwise.
fn split_time(t: &str) -> (res: Option<(Option<u16>, Option<u16>)>)
    ensures
        split_on(t@, ':').len() == 2 <==> res is Some,
        res matches Some((m, s)) ==> m == spec_parse_u16(split_on(t@, ':')[0]) && s
            == spec_parse_u16(split_on(t@, ':')[1]),
{
    let cs = chars_of(t);
    let n = cs.len();
    let mut colon: Option<usize> = None;
    let mut i: usize = 0;
    proof {
        lemma_split_prefix_without_sep(t@.take(0), ':');
    }
    while i < n
        invariant
            n == t@.len(),
            cs@ == t@,
            i <= n,
            scan_inv(t@, i as int, match colon { Some(p) => Some(p as int), None => None }),
        decreases n - i,
    {
        let ghost g = match colon { Some(p) => Some(p as int), None => None };
        proof {
            lemma_scan_step(t@, i as int, g);
        }
        if cs[i] == ':' {
            match colon {
                Some(_) => {
                    proof {
                        crate::text::lemma_split_len_grows(t@, i + 1, ':');
                    }
                    return None;
                },
                None => {
                    colon = Some(i);
                },
            }
        }
        i = i + 1;
    }
    assert(t@.take(n as int) =~= t@);
    match colon {
        None => None,
        Some(p) => {
            assert(t@.take(p as int) =~= cs@.subrange(0, p as int));
            let m = parse_u16_in(&cs, 0, p);
            let s = parse_u16_in(&cs, p + 1, n);
            Some((m, s))
        },
    }
}

/// Reads a clock time such as `"12:34"` as a number of seconds (here 754);
/// `None` unless the text is two `u16` numbers around a single `':'`.
pub fn parse_time(t: &str) -> (res: Option<u16>)
    requires
        time_fits(t@),
    ensures
        res == spec_parse_time(t@),
{
    match split_time(t) {
        Some((Some(m), Some(s))) => Some(m * 60 + s),
        _ => None,
    }
}


// ---------------------------------------------------------------------
// Box score: players
// ---------------------------------------------------------------------

/// A player on a team's roster for one game.
pub struct Player {
    /// The player's id, as the feed writes the number.
    pub id: String,
    pub full_name: String,
    pub shoots_catches: Option<String>,
    pub roster_status: String,
    pub position_type: String,
    pub position_abbreviation: String,
}

/// One side of a game's box score: the team and its players, in the order
/// in which the feed's player map was walked.
pub struct Team {
    pub id: u16,
    pub players: Vec<Player>,
}

/// A row of the `players` table.
pub struct PlayerRow {
    pub id: String,
    pub game_id: String,
    pub team_id: u16,
    pub full_name: String,
    pub shoots_catches: Option<String>,
    pub roster_status: String,
    pub position_type: String,
    pub position_abbreviation: String,
}

/// `r` is the row of player `p` of team `team_id` in game `game_id`.
pub open spec fn is_player_row(r: PlayerRow, game_id: Seq<char>, team_id: u16, p: Player) -> bool {
    &&& r.id == p.id
    &&& r.game_id@ == game_id
    &&& r.team_id == team_id
    &&& r.full_name == p.full_name
    &&& r.shoots_catches == p.shoots_catches
    &&& r.roster_status == p.roster_status
    &&& r.position_type == p.position_type
    &&& r.position_abbreviation == p.position_abbreviation
}

/// A copy of an optional text.
pub fn copy_text(o: &Option<String>) -> (res: Option<String>)
    ensures
        res == *o,
{
    match o {
        Some(s) => Some(s.clone()),
        None => None,
    }
}

/// The rows for the players of `team` in game `game_id`: one per player,
/// in roster order.
pub fn player_rows(game_id: &str, team: &Team) -> (rows: Vec<PlayerRow>)
    ensures
        rows@.len() == team.players@.len(),
        forall|i: int|
            0 <= i < rows@.len() ==> is_player_row(
                #[trigger] rows@[i],
                game_id@,
                team.id,
                team.players@[i],
            ),
{
    let mut rows: Vec<PlayerRow> = Vec::new();
    let n = team.players.len();
    for i in 0..n
        invariant
            n == team.players@.len(),
            rows@.len() == i,
            forall|k: int|
                0 <= k < i ==> is_player_row(
                    #[trigger] rows@[k],
                    game_id@,
                    team.id,
                    team.players@[k],
                ),
    {
        let p = &team.players[i];
        rows.push(
            PlayerRow {
                id: p.id.clone(),
                game_id: String::from_str(game_id),
                team_id: team.id,
                full_name: p.full_name.clone(),
                shoots_catches: copy_text(&p.shoots_catches),
                roster_status: p.roster_status.clone(),
                position_type: p.position_type.clone(),
                position_abbreviation: p.position_abbreviation.clone(),
            },
        );
    }
    rows
}

/// The rows for both rosters of a game: the away team's players first,
/// then the home team's.
pub fn players_rows(game_id: &str, away: &Team, home: &Team) -> (rows: Vec<PlayerRow>)
    ensures
        rows@.len() == away.players@.len() + home.players@.len(),
        forall|i: int|
            0 <= i < away.players@.len() ==> is_player_row(
                #[trigger] rows@[i],
                game_id@,
                away.id,
                away.players@[i],
            ),
        forall|i: int|
            0 <= i < home.players@.len() ==> is_player_row(
                #[trigger] rows@[away.players@.len() + i],
                game_id@,
                home.id,
                home.players@[i],
            ),
{
    let mut rows = player_rows(game_id, away);
    let mut more = player_rows(game_id, home);
    let ghost a = rows@;
    let ghost b = more@;
    rows.append(&mut more);
    assert(rows@ =~= a + b);
    assert forall|i: int| 0 <= i < home.players@.len() implies is_player_row(
        #[trigger] rows@[away.players@.len() + i],
        game_id@,
        home.id,
        home.players@[i],
    ) by {
        assert(rows@[away.players@.len() + i] == b[i]);
    }
    rows
}


// ---------------------------------------------------------------------
// Play-by-play: events
// ---------------------------------------------------------------------

/// A player taking part in a play, and in what role.
pub struct Participant {
    pub player_id: String,
    pub player_type: String,
}

/// One play of the feed. Its rink coordinates stay with the caller, which
/// finds them again by the play's index.
pub struct Play {
    pub event_id: u16,
    pub team_id: Option<u16>,
    pub event: String,
    pub secondary_type: Option<String>,
    pub penalty_severity: Option<String>,
    pub penalty_minutes: Option<u8>,
    pub period: u8,
    pub period_type: String,
    pub period_time: String,
    pub period_time_remaining: String,
    pub goals_away: u8,
    pub goals_home: u8,
    pub players: Option<Vec<Participant>>,
}

/// A row of the `events` table: one play seen from one participant. `play`
/// is the index of the play, by which its coordinates are found.
pub struct EventRow {
    pub play: usize,
    pub event_id: u16,
    pub game_id: String,
    pub team_id: Option<u16>,
    pub player_id: String,
    pub player_type: String,
    pub event: String,
    pub secondary_type: Option<String>,
    pub penalty_severity: Option<String>,
    pub penalty_minutes: Option<u8>,
    pub period: u8,
    pub period_type: String,
    pub period_time: Option<u16>,
    pub period_time_remaining: Option<u16>,
    pub goals_away: u8,
    pub goals_home: u8,
}

/// Whether a play with participants yields rows: always, or, when `strict`,
/// only when both of its clock times read.
pub open spec fn kept(p: Play, strict: bool) -> bool {
    !strict || (spec_parse_time(p.period_time@) is Some && spec_parse_time(
        p.period_time_remaining@,
    ) is Some)
}

/// The (play, participant) pairs that yield rows, in order: plays in feed
/// order, and within a play its participants in order.
pub open spec fn play_slots(plays: Seq<Play>, strict: bool) -> Seq<(int, int)>
    decreases plays.len(),
{
    if plays.len() == 0 {
        Seq::empty()
    } else {
        let i = plays.len() - 1;
        let prev = play_slots(plays.drop_last(), strict);
        match plays.last().players {
            Some(ps) => if kept(plays.last(), strict) {
                prev + Seq::new(ps@.len(), |j: int| (i, j))
            } else {
                prev
            },
            None => prev,
        }
    }
}

/// `r` is the row of participant `slot.1` of play `slot.0` in game `game_id`.
pub open spec fn is_event_row(r: EventRow, game_id: Seq<char>, plays: Seq<Play>, slot: (int, int)) -> bool {
    let play = plays[slot.0];
    let part = play.players->0@[slot.1];
    &&& r.play == slot.0
    &&& r.event_id == play.event_id
    &&& r.game_id@ == game_id
    &&& r.team_id == play.team_id
    &&& r.player_id == part.player_id
    &&& r.player_type == part.player_type
    &&& r.event == play.event
    &&& r.secondary_type == play.secondary_type
    &&& r.penalty_severity == play.penalty_severity
    &&& r.penalty_minutes == play.penalty_minutes
    &&& r.period == play.period
    &&& r.period_type == play.period_type
    &&& r.period_time == spec_parse_time(play.period_time@)
    &&& r.period_time_remaining == spec_parse_time(play.period_time_remaining@)
    &&& r.goals_away == play.goals_away
    &&& r.goals_home == play.goals_home
}

/// The clock times that are read cannot overflow: those of every play, or,
/// unless `strict`, those of the plays with participants.
pub open spec fn play_times_fit(plays: Seq<Play>, strict: bool) -> bool {
    forall|i: int|
        0 <= i < plays.len() ==> ((strict || #[trigger] plays[i].players is Some) ==> (time_fits(
            plays[i].period_time@,
        ) && time_fits(plays[i].period_time_remaining@)))
}

proof fn lemma_slots_bounded(plays: Seq<Play>, strict: bool)
    ensures
        forall|k: int|
            0 <= k < play_slots(plays, strict).len() ==> {
                let s = #[trigger] play_slots(plays, strict)[k];
                &&& 0 <= s.0 < plays.len()
                &&& plays[s.0].players is Some
                &&& 0 <= s.1 < plays[s.0].players->0@.len()
            },
    decreases plays.len(),
{
    if plays.len() > 0 {
        lemma_slots_bounded(plays.drop_last(), strict);
    }
}

/// The event rows of `plays`; `strict` drops the plays whose clock times do
/// not both read.
pub(crate) fn event_rows_where(game_id: &str, plays: &Vec<Play>, strict: bool) -> (rows: Vec<EventRow>)
    requires
        play_times_fit(plays@, strict),
    ensures
        rows@.len() == play_slots(plays@, strict).len(),
        forall|k: int|
            0 <= k < rows@.len() ==> is_event_row(
                #[trigger] rows@[k],
                game_id@,
                plays@,
                play_slots(plays@, strict)[k],
            ),
{
    let mut rows: Vec<EventRow> = Vec::new();
    let n = plays.len();
    for i in 0..n
        invariant
            n == plays@.len(),
            play_times_fit(plays@, strict),
            rows@.len() == play_slots(plays@.take(i as int), strict).len(),
            forall|k: int|
                0 <= k < rows@.len() ==> is_event_row(
                    #[trigger] rows@[k],
                    game_id@,
                    plays@,
                    play_slots(plays@.take(i as int), strict)[k],
                ),
    {
        let ghost before = rows@;
        let ghost base = rows@.len() as int;
        let ghost slots_before = play_slots(plays@.take(i as int), strict);
        assert(plays@.take(i + 1).drop_last() =~= plays@.take(i as int));
        let play = &plays[i];
        match &play.players {
            Some(ps) => {
                assert(plays@[i as int].players is Some);
                let period_time = parse_time(play.period_time.as_str());
                let period_time_remaining = parse_time(play.period_time_remaining.as_str());
                if !strict || (period_time.is_some() && period_time_remaining.is_some()) {
                    let m = ps.len();
                    for j in 0..m
                        invariant
                            m == ps@.len(),
                            i < n,
                            n == plays@.len(),
                            *play == plays@[i as int],
                            plays@[i as int].players == Some(*ps),
                            period_time == spec_parse_time(plays@[i as int].period_time@),
                            period_time_remaining == spec_parse_time(
                                plays@[i as int].period_time_remaining@,
                            ),
                            0 <= base,
                            rows@.len() == base + j,
                            forall|k: int|
                                0 <= k < base ==> #[trigger] rows@[k] == before[k],
                            forall|k: int|
                                base <= k < base + j ==> is_event_row(
                                    #[trigger] rows@[k],
                                    game_id@,
                                    plays@,
                                    (i as int, k - base),
                                ),
                    {
                        let part = &ps[j];
                        let ghost prev_rows = rows@;
                        let row = EventRow {
                                play: i,
                                event_id: play.event_id,
                                game_id: String::from_str(game_id),
                                team_id: play.team_id,
                                player_id: part.player_id.clone(),
                                player_type: part.player_type.clone(),
                                event: play.event.clone(),
                                secondary_type: copy_text(&play.secondary_type),
                                penalty_severity: copy_text(&play.penalty_severity),
                                penalty_minutes: play.penalty_minutes,
                                period: play.period,
                                period_type: play.period_type.clone(),
                                period_time: period_time,
                                period_time_remaining: period_time_remaining,
                                goals_away: play.goals_away,
                                goals_home: play.goals_home,
                            };
                        let ghost grow = row;
                        rows.push(row);
                        proof {
                            assert(rows@ == prev_rows.push(grow));
                            assert(plays@[i as int].players->0@[j as int] == *part);
                            assert forall|k: int| base <= k < base + j + 1 implies is_event_row(
                                #[trigger] rows@[k],
                                game_id@,
                                plays@,
                                (i as int, k - base),
                            ) by {
                                if k < base + j {
                                    assert(prev_rows.push(grow)[k] == prev_rows[k]);
                                }
                            }
                        }
                    }
                    let ghost fresh = Seq::new(ps@.len(), |j: int| (i as int, j));
                    assert(plays@.take(i + 1).last() == plays@[i as int]);
                    assert(play_slots(plays@.take(i + 1), strict) == slots_before + fresh);
                    assert forall|k: int| 0 <= k < rows@.len() implies is_event_row(
                        #[trigger] rows@[k],
                        game_id@,
                        plays@,
                        play_slots(plays@.take(i + 1), strict)[k],
                    ) by {
                        if k < base {
                            assert(rows@[k] == before[k]);
                        } else {
                            assert((slots_before + fresh)[k] == fresh[k - base]);
                        }
                    }
                } else {
                    assert(plays@.take(i + 1).last() == plays@[i as int]);
                    assert(play_slots(plays@.take(i + 1), strict) == slots_before);
                }
            },
            None => {
                assert(plays@.take(i + 1).last() == plays@[i as int]);
                assert(play_slots(plays@.take(i + 1), strict) == slots_before);
            },
        }
    }
    assert(plays@.take(n as int) =~= plays@);
    rows
}

/// The rows of the `events` table for game `game_id`: for each play with
/// participants, in feed order, one row per participant; the clock times
/// are read with `parse_time` and may be absent.
pub fn event_rows(game_id: &str, plays: &Vec<Play>) -> (rows: Vec<EventRow>)
    requires
        play_times_fit(plays@, false),
    ensures
        rows@.len() == play_slots(plays@, false).len(),
        forall|k: int|
            0 <= k < rows@.len() ==> is_event_row(
                #[trigger] rows@[k],
                game_id@,
                plays@,
                play_slots(plays@, false)[k],
            ),
{
    event_rows_where(game_id, plays, false)
}


// ---------------------------------------------------------------------
// Laws
// ---------------------------------------------------------------------

/// The two downloads of a game never share a file: the live feed and the
/// shift chart of the same game go to different paths.
pub proof fn lemma_pair_paths_differ(wd: Seq<char>, id: Seq<char>)
    ensures
        spec_filename(wd, "events"@, id) != spec_filename(wd, "shifts"@, id),
{
    reveal_strlit("/data/");
    reveal_strlit("events");
    reveal_strlit("shifts");
    let e = spec_filename(wd, "events"@, id);
    let s = spec_filename(wd, "shifts"@, id);
    let k: int = wd.len() as int + 6;
    assert(e[k] == 'e');
    assert(s[k] == 's');
}

proof fn lemma_split_around_one_sep(a: Seq<char>, b: Seq<char>, sep: char)
    requires
        forall|j: int| 0 <= j < a.len() ==> a[j] != sep,
        forall|j: int| 0 <= j < b.len() ==> b[j] != sep,
    ensures
        split_on(a + seq![sep] + b, sep) == seq![a, b],
    decreases b.len(),
{
    let x = a + seq![sep] + b;
    if b.len() == 0 {
        lemma_split_prefix_without_sep(a, sep);
        assert(x.drop_last() =~= a);
        assert(x.last() == sep);
        assert(b =~= Seq::<char>::empty());
        assert(seq![a].push(Seq::<char>::empty()) =~= seq![a, b]);
    } else {
        let b0 = b.drop_last();
        lemma_split_around_one_sep(a, b0, sep);
        assert(x.drop_last() =~= a + seq![sep] + b0);
        assert(x.last() == b.last());
        assert(b0.push(b.last()) =~= b);
        assert(seq![a, b0].update(1, b0.push(b.last())) =~= seq![a, b]);
    }
}

/// The clock text `"m:s"` with both numbers written in decimal.
pub open spec fn clock_text(m: u16, s: u16) -> Seq<char> {
    spec_decimal(m as nat) + seq![':'] + spec_decimal(s as nat)
}

/// `parse_time` reads back a clock time written as `"{m}:{s}"`: it gives
/// `60 * m + s` seconds whenever that number fits in a `u16`.
pub proof fn lemma_parse_time_of_clock(m: u16, s: u16)
    requires
        m * 60 + s <= u16::MAX,
    ensures
        time_fits(clock_text(m, s)),
        spec_parse_time(clock_text(m, s)) == Some((m * 60 + s) as u16),
{
    let a = spec_decimal(m as nat);
    let b = spec_decimal(s as nat);
    lemma_decimal_digits(m as nat);
    lemma_decimal_digits(s as nat);
    assert(!is_digit(':'));
    assert forall|j: int| 0 <= j < a.len() implies a[j] != ':' by {
        assert(is_digit(a[j]));
    }
    assert forall|j: int| 0 <= j < b.len() implies b[j] != ':' by {
        assert(is_digit(b[j]));
    }
    lemma_split_around_one_sep(a, b, ':');
    lemma_parse_u16_of_decimal(m);
    lemma_parse_u16_of_decimal(s);
}

/// When every play with participants has clock times that both read, the
/// loader that skips unreadable plays writes the same event rows as the one
/// that keeps them.
pub proof fn lemma_strict_rows_match_lenient(plays: Seq<Play>)
    requires
        forall|i: int| 0 <= i < plays.len() && (#[trigger] plays[i]).players is Some ==> kept(plays[i], true),
    ensures
        play_slots(plays, true) == play_slots(plays, false),
    decreases plays.len(),
{
    if plays.len() > 0 {
        let p = plays.drop_last();
        assert forall|i: int| 0 <= i < p.len() && (#[trigger] p[i]).players is Some implies kept(p[i], true) by {
            assert(p[i] == plays[i]);
        }
        lemma_strict_rows_match_lenient(p);
        assert(plays.last() == plays[plays.len() - 1]);
    }
}


/// The loader that skips plays with unreadable clock times writes no row
/// that the loader keeping them would not write: each of its (play,
/// participant) pairs is one of the other's.
pub proof fn lemma_strict_rows_among_lenient(plays: Seq<Play>)
    ensures
        forall|k: int|
            0 <= k < play_slots(plays, true).len() ==> play_slots(plays, false).contains(
                #[trigger] play_slots(plays, true)[k],
            ),
    decreases plays.len(),
{
    if plays.len() > 0 {
        let p = plays.drop_last();
        lemma_strict_rows_among_lenient(p);
        let strict = play_slots(plays, true);
        let lenient = play_slots(plays, false);
        let sp = play_slots(p, true);
        let lp = play_slots(p, false);
        assert forall|k: int| 0 <= k < strict.len() implies lenient.contains(#[trigger] strict[k]) by {
            match plays.last().players {
                Some(ps) => {
                    let fresh = Seq::new(ps@.len(), |j: int| (plays.len() - 1, j));
                    assert(lenient == lp + fresh);
                    if k < sp.len() {
                        assert(strict[k] == sp[k]);
                        let w = choose|w: int| 0 <= w < lp.len() && lp[w] == sp[k];
                        assert(lenient[w] == lp[w]);
                    } else {
                        assert(strict == sp + fresh);
                        assert(strict[k] == fresh[k - sp.len()]);
                        assert(lenient[lp.len() + k - sp.len()] == fresh[k - sp.len()]);
                    }
                },
                None => {
                    assert(strict == sp);
                    assert(lenient == lp);
                },
            }
        }
    }
}


/// `parse_time` reads every clock time made of two runs of digits around
/// one `':'`, leading zeros included (`"09:30"`, `"00:45"`, `"1:05"`): the
/// text `{p zeros}{m}:{q zeros}{s}` gives `60 * m + s` seconds whenever that
/// fits in a `u16`.
pub proof fn lemma_parse_time_zero_padded(p: nat, m: u16, q: nat, s: u16)
    requires
        m * 60 + s <= u16::MAX,
    ensures
        time_fits(zeros(p) + spec_decimal(m as nat) + seq![':'] + zeros(q) + spec_decimal(s as nat)),
        spec_parse_time(zeros(p) + spec_decimal(m as nat) + seq![':'] + zeros(q) + spec_decimal(s as nat))
            == Some((m * 60 + s) as u16),
{
    let a = zeros(p) + spec_decimal(m as nat);
    let b = zeros(q) + spec_decimal(s as nat);
    lemma_decimal_digits(m as nat);
    lemma_decimal_digits(s as nat);
    lemma_padded_digits(p, spec_decimal(m as nat));
    lemma_padded_digits(q, spec_decimal(s as nat));
    assert(!is_digit(':'));
    assert forall|j: int| 0 <= j < a.len() implies a[j] != ':' by {
        assert(is_digit(a[j]));
    }
    assert forall|j: int| 0 <= j < b.len() implies b[j] != ':' by {
        assert(is_digit(b[j]));
    }
    lemma_split_around_one_sep(a, b, ':');
    assert(a + seq![':'] + b =~= zeros(p) + spec_decimal(m as nat) + seq![':'] + zeros(q)
        + spec_decimal(s as nat));
    lemma_parse_u16_of_padded_decimal(p, m);
    lemma_parse_u16_of_padded_decimal(q, s);
}


/// Every events row copies the play and the participant it stands for:
/// the play's index, ids, event, scores (away goals to `goals_away`, home
/// goals to `goals_home`), period and clock times read as seconds, and the
/// participant's id and role.
pub proof fn lemma_event_rows_copy_their_play(
    game_id: Seq<char>,
    plays: Seq<Play>,
    strict: bool,
    rows: Seq<EventRow>,
)
    requires
        rows.len() == play_slots(plays, strict).len(),
        forall|k: int|
            0 <= k < rows.len() ==> is_event_row(
                #[trigger] rows[k],
                game_id,
                plays,
                play_slots(plays, strict)[k],
            ),
    ensures
        forall|k: int|
            0 <= k < rows.len() ==> {
                let i = play_slots(plays, strict)[k].0;
                let j = play_slots(plays, strict)[k].1;
                let play = plays[i];
                let part = play.players->0@[j];
                let r = #[trigger] rows[k];
                &&& r.play == i
                &&& r.event_id == play.event_id
                &&& r.game_id@ == game_id
                &&& r.team_id == play.team_id
                &&& r.player_id == part.player_id
                &&& r.player_type == part.player_type
                &&& r.event == play.event
                &&& r.secondary_type == play.secondary_type
                &&& r.penalty_severity == play.penalty_severity
                &&& r.penalty_minutes == play.penalty_minutes
                &&& r.period == play.period
                &&& r.period_type == play.period_type
                &&& r.period_time == spec_parse_time(play.period_time@)
                &&& r.period_time_remaining == spec_parse_time(play.period_time_remaining@)
                &&& r.goals_away == play.goals_away
                &&& r.goals_home == play.goals_home
            },
{
    assert forall|k: int| 0 <= k < rows.len() implies {
        let i = play_slots(plays, strict)[k].0;
        let j = play_slots(plays, strict)[k].1;
        let play = plays[i];
        let part = play.players->0@[j];
        let r = #[trigger] rows[k];
        &&& r.play == i
        &&& r.event_id == play.event_id
        &&& r.game_id@ == game_id
        &&& r.team_id == play.team_id
        &&& r.player_id == part.player_id
        &&& r.player_type == part.player_type
        &&& r.event == play.event
        &&& r.secondary_type == play.secondary_type
        &&& r.penalty_severity == play.penalty_severity
        &&& r.penalty_minutes == play.penalty_minutes
        &&& r.period == play.period
        &&& r.period_type == play.period_type
        &&& r.period_time == spec_parse_time(play.period_time@)
        &&& r.period_time_remaining == spec_parse_time(play.period_time_remaining@)
        &&& r.goals_away == play.goals_away
        &&& r.goals_home == play.goals_home
    } by {
        assert(is_event_row(rows[k], game_id, plays, play_slots(plays, strict)[k]));
    }
}

/// The (play, participant) pairs that yield events rows are exactly the
/// participants of the plays that have some (and, when `strict`, whose two
/// clock times both read), in feed order: plays in order, participants in
/// order within a play, each pair once.
pub proof fn lemma_play_slots_exact(plays: Seq<Play>, strict: bool)
    ensures
        forall|k: int|
            0 <= k < play_slots(plays, strict).len() ==> {
                let sl = #[trigger] play_slots(plays, strict)[k];
                &&& 0 <= sl.0 < plays.len()
                &&& plays[sl.0].players is Some
                &&& 0 <= sl.1 < plays[sl.0].players->0@.len()
                &&& strict ==> spec_parse_time(plays[sl.0].period_time@) is Some
                    && spec_parse_time(plays[sl.0].period_time_remaining@) is Some
            },
        forall|k1: int, k2: int|
            0 <= k1 < k2 < play_slots(plays, strict).len() ==> {
                let a = #[trigger] play_slots(plays, strict)[k1];
                let b = #[trigger] play_slots(plays, strict)[k2];
                a.0 < b.0 || (a.0 == b.0 && a.1 < b.1)
            },
        forall|i: int, j: int|
            0 <= i < plays.len() && plays[i].players is Some && 0 <= j
                < plays[i].players->0@.len() && (strict ==> spec_parse_time(
                plays[i].period_time@,
            ) is Some && spec_parse_time(plays[i].period_time_remaining@) is Some)
                ==> #[trigger] play_slots(plays, strict).contains((i, j)),
    decreases plays.len(),
{
    if plays.len() > 0 {
        let p = plays.drop_last();
        let n = plays.len() - 1;
        lemma_play_slots_exact(p, strict);
        let prev = play_slots(p, strict);
        let all = play_slots(plays, strict);
        assert forall|i: int| 0 <= i < n implies p[i] == plays[i] by {}
        let keep = plays[n].players is Some && kept(plays[n], strict);
        let fresh = if keep {
            Seq::new(plays[n].players->0@.len(), |j: int| (n, j))
        } else {
            Seq::<(int, int)>::empty()
        };
        assert(plays.last() == plays[n]);
        assert(all == prev + fresh) by {
            if !keep {
                assert(prev + fresh =~= prev);
            }
        }
        assert forall|k: int| 0 <= k < all.len() implies {
            let sl = #[trigger] all[k];
            &&& 0 <= sl.0 < plays.len()
            &&& plays[sl.0].players is Some
            &&& 0 <= sl.1 < plays[sl.0].players->0@.len()
            &&& strict ==> spec_parse_time(plays[sl.0].period_time@) is Some
                && spec_parse_time(plays[sl.0].period_time_remaining@) is Some
        } by {
            if k < prev.len() {
                assert(all[k] == prev[k]);
                assert(prev[k] == play_slots(p, strict)[k]);
            } else {
                assert(all[k] == fresh[k - prev.len()]);
            }
        }
        assert forall|k1: int, k2: int| 0 <= k1 < k2 < all.len() implies {
            let a = #[trigger] all[k1];
            let b = #[trigger] all[k2];
            a.0 < b.0 || (a.0 == b.0 && a.1 < b.1)
        } by {
            if k2 < prev.len() {
                assert(all[k1] == prev[k1]);
                assert(all[k2] == prev[k2]);
                assert(prev[k1] == play_slots(p, strict)[k1]);
                assert(prev[k2] == play_slots(p, strict)[k2]);
            } else if k1 < prev.len() {
                assert(all[k1] == prev[k1]);
                assert(prev[k1] == play_slots(p, strict)[k1]);
                assert(all[k2] == fresh[k2 - prev.len()]);
            } else {
                assert(all[k1] == fresh[k1 - prev.len()]);
                assert(all[k2] == fresh[k2 - prev.len()]);
            }
        }
        assert forall|i: int, j: int|
            0 <= i < plays.len() && plays[i].players is Some && 0 <= j < plays[i].players->0@.len()
                && (strict ==> spec_parse_time(plays[i].period_time@) is Some && spec_parse_time(
                plays[i].period_time_remaining@,
            ) is Some) implies #[trigger] all.contains((i, j)) by {
            if i < n {
                assert(p[i] == plays[i]);
                assert(play_slots(p, strict).contains((i, j)));
                let w = choose|w: int| 0 <= w < prev.len() && prev[w] == (i, j);
                assert(all[w] == prev[w]);
            } else {
                assert(keep);
                assert(all[prev.len() + j] == fresh[j]);
            }
        }
    }
}


/// Every players row copies the player it stands for, with the game and the
/// team: id, name, shooting side, roster status, position type and
/// position abbreviation.
pub proof fn lemma_player_rows_copy_their_player(
    game_id: Seq<char>,
    team_id: u16,
    players: Seq<Player>,
    rows: Seq<PlayerRow>,
)
    requires
        rows.len() == players.len(),
        forall|i: int|
            0 <= i < rows.len() ==> is_player_row(#[trigger] rows[i], game_id, team_id, players[i]),
    ensures
        forall|i: int|
            0 <= i < rows.len() ==> {
                let r = #[trigger] rows[i];
                let p = players[i];
                &&& r.id == p.id
                &&& r.game_id@ == game_id
                &&& r.team_id == team_id
                &&& r.full_name == p.full_name
                &&& r.shoots_catches == p.shoots_catches
                &&& r.roster_status == p.roster_status
                &&& r.position_type == p.position_type
                &&& r.position_abbreviation == p.position_abbreviation
            },
{
}


proof fn lemma_split_one_piece(t: Seq<char>, sep: char)
    requires
        split_on(t, sep).len() == 1,
    ensures
        forall|j: int| 0 <= j < t.len() ==> t[j] != sep,
    decreases t.len(),
{
    if t.len() > 0 {
        let d = t.drop_last();
        lemma_split_nonempty(d, sep);
        lemma_split_one_piece(d, sep);
        assert forall|j: int| 0 <= j < t.len() implies t[j] != sep by {
            if j < d.len() {
                assert(t[j] == d[j]);
            }
        }
    }
}

proof fn lemma_split_two_pieces(t: Seq<char>, sep: char)
    requires
        split_on(t, sep).len() == 2,
    ensures
        exists|k: int|
            0 <= k < t.len() && t[k] == sep && (forall|j: int|
                0 <= j < t.len() && j != k ==> t[j] != sep) && split_on(t, sep) == seq![
                t.take(k),
                t.skip(k + 1),
            ],
    decreases t.len(),
{
    let d = t.drop_last();
    lemma_split_nonempty(d, sep);
    if t.last() == sep {
        lemma_split_one_piece(d, sep);
        lemma_split_prefix_without_sep(d, sep);
        let k = t.len() - 1;
        assert(t.take(k) =~= d);
        assert(t.skip(k + 1) =~= Seq::<char>::empty());
        assert(split_on(t, sep) =~= seq![t.take(k), t.skip(k + 1)]);
        assert forall|j: int| 0 <= j < t.len() && j != k implies t[j] != sep by {
            assert(t[j] == d[j]);
        }
    } else {
        lemma_split_two_pieces(d, sep);
        let k = choose|k: int|
            0 <= k < d.len() && d[k] == sep && (forall|j: int|
                0 <= j < d.len() && j != k ==> d[j] != sep) && split_on(d, sep) == seq![
                d.take(k),
                d.skip(k + 1),
            ];
        assert(t[k] == sep);
        assert(t.take(k) =~= d.take(k));
        assert(d.skip(k + 1).push(t.last()) =~= t.skip(k + 1));
        assert(split_on(t, sep) =~= seq![t.take(k), t.skip(k + 1)]);
        assert forall|j: int| 0 <= j < t.len() && j != k implies t[j] != sep by {
            if j < d.len() {
                assert(t[j] == d[j]);
            }
        }
    }
}

/// `s` without one leading `'+'`.
pub open spec fn unsigned_part(s: Seq<char>) -> Seq<char> {
    if s.len() > 0 && s[0] == '+' {
        s.skip(1)
    } else {
        s
    }
}

/// `parse_time` reads nothing but clock times: when it gives a number of
/// seconds, the text holds exactly one `':'`, each side is a non-empty run
/// of ASCII digits (after at most one leading `'+'`), and the result is 60
/// times the left number plus the right one.
pub proof fn lemma_parse_time_only_clock_texts(t: Seq<char>)
    ensures
        spec_parse_time(t) is Some ==> exists|k: int|
            0 <= k < t.len() && t[k] == ':' && (forall|j: int|
                0 <= j < t.len() && j != k ==> t[j] != ':') && {
                let a = unsigned_part(t.take(k));
                let b = unsigned_part(t.skip(k + 1));
                &&& a.len() > 0
                &&& b.len() > 0
                &&& all_digits(a)
                &&& all_digits(b)
                &&& digits_value(a) <= u16::MAX
                &&& digits_value(b) <= u16::MAX
                &&& spec_parse_time(t)->0 == (60 * digits_value(a) + digits_value(b)) as u16
            },
{
    if spec_parse_time(t) is Some {
        lemma_split_two_pieces(t, ':');
        let k = choose|k: int|
            0 <= k < t.len() && t[k] == ':' && (forall|j: int|
                0 <= j < t.len() && j != k ==> t[j] != ':') && split_on(t, ':') == seq![
                t.take(k),
                t.skip(k + 1),
            ];
        let x = t.take(k);
        let y = t.skip(k + 1);
        assert(x.len() > 0 && x[0] == '+' ==> x.drop_first() =~= x.skip(1));
        assert(y.len() > 0 && y[0] == '+' ==> y.drop_first() =~= y.skip(1));
        assert(unsigned_part(x) == crate::text::unsigned_digits(x));
        assert(unsigned_part(y) == crate::text::unsigned_digits(y));
    }
}

/// Which clock times must be in range before the events rows are built:
/// both times of every play when `strict`, otherwise both times of every
/// play that has participants; no other text is read.
pub proof fn lemma_play_times_fit_exact(plays: Seq<Play>, strict: bool)
    ensures
        play_times_fit(plays, strict) <==> forall|i: int|
            0 <= i < plays.len() && (strict || plays[i].players is Some) ==> time_fits(
                #[trigger] plays[i].period_time@,
            ) && time_fits(plays[i].period_time_remaining@),
{
}

/// Clock times that do not read as two `u16` numbers around one `':'` are
/// always in range: only a readable time can overflow.
pub proof fn lemma_unreadable_times_fit(t: Seq<char>)
    ensures
        split_on(t, ':').len() != 2 ==> time_fits(t),
        split_on(t, ':').len() == 2 && (spec_parse_u16(split_on(t, ':')[0]) is None
            || spec_parse_u16(split_on(t, ':')[1]) is None) ==> time_fits(t),
{
}

} // verus!
