use vstd::prelude::*;
use vstd::string::*;

use crate::schedules::{spec_url, url};
use crate::text::{decimal, spec_decimal};
use crate::theft::{filename, spec_filename, Fetch};

verus! {

/// The name of a saved schedule: `{start}-{end}-{id}`.
pub open spec fn spec_schedule_id(start: Seq<char>, end: Seq<char>, id: u32) -> Seq<char> {
    start + "-"@ + end + "-"@ + spec_decimal(id as nat)
}

/// The download of team `id`'s schedule into the `schedule` folder, with a
/// pause of 500 ms after it; nothing when there is no team id.
pub fn scrape(start: &str, end: &str, wd: &str, id: Option<u32>) -> (res: Option<Fetch>)
    ensures
        id is None <==> res is None,
        id matches Some(x) ==> {
            &&& res->0.url@ == spec_url(x, start@, end@)
            &&& res->0.path@ == spec_filename(wd@, "schedule"@, spec_schedule_id(start@, end@, x))
            &&& res->0.wait == 500
        },
{
    match id {
        Some(x) => {
            let mut name = String::from_str(start);
            name.append("-");
            name.append(end);
            name.append("-");
            let n = decimal(x);
            name.append(n.as_str());
            Some(
                Fetch {
                    url: url(x, start, end),
                    path: filename(wd, "schedule", name.as_str()),
                    wait: 500,
                },
            )
        },
        None => None,
    }
}

/// A game of a team's schedule; its id is the number as the feed writes it.
pub struct Game {
    pub game_pk: String,
    pub game_type: String,
    pub season: String,
    pub status_abstract: String,
    pub status_detailed: String,
    pub start_time_tbd: bool,
    pub away_team_id: u16,
    pub home_team_id: u16,
    pub venue_name: String,
}

/// A day of the schedule and its games.
pub struct Date {
    pub date: String,
    pub games: Vec<Game>,
}

/// A row of the `schedule` table.
pub struct GameRow {
    pub id: String,
    pub status_abstract: String,
    pub status_detailed: String,
    pub status_start_time_tbd: bool,
    pub date: String,
    pub game_type: String,
    pub season: String,
    pub home_team_id: u16,
    pub away_team_id: u16,
    pub venue_name: String,
}

/// The (day, game) pairs of the schedule, days in order and games in order
/// within a day.
pub open spec fn game_slots(dates: Seq<Date>) -> Seq<(int, int)>
    decreases dates.len(),
{
    if dates.len() == 0 {
        Seq::empty()
    } else {
        game_slots(dates.drop_last()) + Seq::new(
            dates.last().games@.len(),
            |j: int| (dates.len() - 1, j),
        )
    }
}

/// `r` is the row of game `slot.1` of day `slot.0`.
pub open spec fn is_game_row(r: GameRow, dates: Seq<Date>, slot: (int, int)) -> bool {
    let d = dates[slot.0];
    let g = d.games@[slot.1];
    &&& r.id == g.game_pk
    &&& r.status_abstract == g.status_abstract
    &&& r.status_detailed == g.status_detailed
    &&& r.status_start_time_tbd == g.start_time_tbd
    &&& r.date == d.date
    &&& r.game_type == g.game_type
    &&& r.season == g.season
    &&& r.home_team_id == g.home_team_id
    &&& r.away_team_id == g.away_team_id
    &&& r.venue_name == g.venue_name
}

/// The rows of the `schedule` table: one per game, days in order and games
/// in order within a day.
pub fn schedule_rows(dates: &Vec<Date>) -> (rows: Vec<GameRow>)
    ensures
        rows@.len() == game_slots(dates@).len(),
        forall|k: int|
            0 <= k < rows@.len() ==> is_game_row(#[trigger] rows@[k], dates@, game_slots(dates@)[k]),
{
    let mut rows: Vec<GameRow> = Vec::new();
    let n = dates.len();
    for i in 0..n
        invariant
            n == dates@.len(),
            rows@.len() == game_slots(dates@.take(i as int)).len(),
            forall|k: int|
                0 <= k < rows@.len() ==> is_game_row(
                    #[trigger] rows@[k],
                    dates@,
                    game_slots(dates@.take(i as int))[k],
                ),
    {
        let ghost before = rows@;
        let ghost base = rows@.len() as int;
        let ghost slots_before = game_slots(dates@.take(i as int));
        assert(dates@.take(i + 1).drop_last() =~= dates@.take(i as int));
        assert(dates@.take(i + 1).last() == dates@[i as int]);
        let d = &dates[i];
        let m = d.games.len();
        for j in 0..m
            invariant
                m == d.games@.len(),
                i < n,
                n == dates@.len(),
                *d == dates@[i as int],
                0 <= base,
                rows@.len() == base + j,
                forall|k: int| 0 <= k < base ==> #[trigger] rows@[k] == before[k],
                forall|k: int|
                    base <= k < base + j ==> is_game_row(
                        #[trigger] rows@[k],
                        dates@,
                        (i as int, k - base),
                    ),
        {
            let g = &d.games[j];
            let row = GameRow {
                id: g.game_pk.clone(),
                status_abstract: g.status_abstract.clone(),
                status_detailed: g.status_detailed.clone(),
                status_start_time_tbd: g.start_time_tbd,
                date: d.date.clone(),
                game_type: g.game_type.clone(),
                season: g.season.clone(),
                home_team_id: g.home_team_id,
                away_team_id: g.away_team_id,
                venue_name: g.venue_name.clone(),
            };
            let ghost grow = row;
            let ghost prev_rows = rows@;
            rows.push(row);
            proof {
                assert(rows@ == prev_rows.push(grow));
                assert forall|k: int| 0 <= k < base + j + 1 implies (k < base ==> #[trigger] rows@[k]
                    == before[k]) && (base <= k ==> is_game_row(
                    rows@[k],
                    dates@,
                    (i as int, k - base),
                )) by {
                    if k < base + j {
                        assert(prev_rows.push(grow)[k] == prev_rows[k]);
                    }
                }
            }
        }
        let ghost fresh = Seq::new(d.games@.len(), |j: int| (i as int, j));
        assert(game_slots(dates@.take(i + 1)) == slots_before + fresh);
        assert forall|k: int| 0 <= k < rows@.len() implies is_game_row(
            #[trigger] rows@[k],
            dates@,
            game_slots(dates@.take(i + 1))[k],
        ) by {
            if k < base {
                assert(rows@[k] == before[k]);
            } else {
                assert((slots_before + fresh)[k] == fresh[k - base]);
            }
        }
    }
    assert(dates@.take(n as int) =~= dates@);
    rows
}


/// Every schedule row copies the game it stands for and its day: id,
/// abstract and detailed states, start-time flag, date, type, season, home
/// and away teams, and venue.
pub proof fn lemma_game_rows_copy_their_game(dates: Seq<Date>, rows: Seq<GameRow>)
    requires
        rows.len() == game_slots(dates).len(),
        forall|k: int|
            0 <= k < rows.len() ==> is_game_row(#[trigger] rows[k], dates, game_slots(dates)[k]),
    ensures
        forall|k: int|
            0 <= k < rows.len() ==> {
                let r = #[trigger] rows[k];
                let d = dates[game_slots(dates)[k].0];
                let g = d.games@[game_slots(dates)[k].1];
                &&& r.id == g.game_pk
                &&& r.status_abstract == g.status_abstract
                &&& r.status_detailed == g.status_detailed
                &&& r.status_start_time_tbd == g.start_time_tbd
                &&& r.date == d.date
                &&& r.game_type == g.game_type
                &&& r.season == g.season
                &&& r.home_team_id == g.home_team_id
                &&& r.away_team_id == g.away_team_id
                &&& r.venue_name == g.venue_name
            },
{
}

/// The (day, game) pairs that yield rows are every game of every day, days
/// in order and games in order within a day, each once.
pub proof fn lemma_game_slots_exact(dates: Seq<Date>)
    ensures
        forall|k: int|
            0 <= k < game_slots(dates).len() ==> {
                let sl = #[trigger] game_slots(dates)[k];
                &&& 0 <= sl.0 < dates.len()
                &&& 0 <= sl.1 < dates[sl.0].games@.len()
            },
        forall|k1: int, k2: int|
            0 <= k1 < k2 < game_slots(dates).len() ==> {
                let a = #[trigger] game_slots(dates)[k1];
                let b = #[trigger] game_slots(dates)[k2];
                a.0 < b.0 || (a.0 == b.0 && a.1 < b.1)
            },
        forall|i: int, j: int|
            0 <= i < dates.len() && 0 <= j < dates[i].games@.len() ==> #[trigger] game_slots(
                dates,
            ).contains((i, j)),
    decreases dates.len(),
{
    if dates.len() > 0 {
        let p = dates.drop_last();
        let n = dates.len() - 1;
        lemma_game_slots_exact(p);
        let prev = game_slots(p);
        let all = game_slots(dates);
        assert forall|i: int| 0 <= i < n implies p[i] == dates[i] by {}
        assert(dates.last() == dates[n]);
        let fresh = Seq::new(dates[n].games@.len(), |j: int| (n, j));
        assert(all == prev + fresh);
        assert forall|k: int| 0 <= k < all.len() implies {
            let sl = #[trigger] all[k];
            &&& 0 <= sl.0 < dates.len()
            &&& 0 <= sl.1 < dates[sl.0].games@.len()
        } by {
            if k < prev.len() {
                assert(all[k] == prev[k]);
                assert(prev[k] == game_slots(p)[k]);
            } else {
                assert(all[k] == fresh[k - prev.len()]);
            }
        }
        assert forall|k1: int, k2: int| 0 <= k1 < k2 < all.len() implies {
            let a = #[trigger] all[k1];
            let b = #[trigger] all[k2];
            a.0 < b.0 || (a.0 == b.0 && a.1 < b.1)
        } by {
            if k2 < prev.len() {
                assert(all[k1] == prev[k1]);
                assert(all[k2] == prev[k2]);
                assert(prev[k1] == game_slots(p)[k1]);
                assert(prev[k2] == game_slots(p)[k2]);
            } else if k1 < prev.len() {
                assert(all[k1] == prev[k1]);
                assert(prev[k1] == game_slots(p)[k1]);
                assert(all[k2] == fresh[k2 - prev.len()]);
            } else {
                assert(all[k1] == fresh[k1 - prev.len()]);
                assert(all[k2] == fresh[k2 - prev.len()]);
            }
        }
        assert forall|i: int, j: int| 0 <= i < dates.len() && 0 <= j < dates[i].games@.len() implies #[trigger] all.contains((i, j)) by {
            if i < n {
                assert(p[i] == dates[i]);
                assert(game_slots(p).contains((i, j)));
                let w = choose|w: int| 0 <= w < prev.len() && prev[w] == (i, j);
                assert(all[w] == prev[w]);
            } else {
                assert(all[prev.len() + j] == fresh[j]);
            }
        }
    }
}

} // verus!
