use ruskie::db_games;
use ruskie::games::{event_rows, player_rows, players_rows, Participant, Play, Player, Team};
use ruskie::schedule::{schedule_rows as game_rows, Date as Day, Game as DayGame};
use ruskie::schedules::{schedule_rows, Date, Game};
use ruskie::teams::{ledger_team_rows, team_rows, Team as ListedTeam};

fn player(id: &str, name: &str) -> Player {
    Player {
        id: id.to_string(),
        full_name: name.to_string(),
        shoots_catches: Some("L".to_string()),
        roster_status: "Y".to_string(),
        position_type: "Forward".to_string(),
        position_abbreviation: "C".to_string(),
    }
}

fn part(id: &str, role: &str) -> Participant {
    Participant { player_id: id.to_string(), player_type: role.to_string() }
}

fn play(event_id: u16, time: &str, left: &str, players: Option<Vec<Participant>>) -> Play {
    Play {
        event_id,
        team_id: Some(10),
        event: "Shot".to_string(),
        secondary_type: Some("Wrist Shot".to_string()),
        penalty_severity: None,
        penalty_minutes: None,
        period: 1,
        period_type: "REGULAR".to_string(),
        period_time: time.to_string(),
        period_time_remaining: left.to_string(),
        goals_away: 0,
        goals_home: 1,
        players,
    }
}

#[test]
fn player_rows_follow_roster() {
    let team = Team { id: 10, players: vec![player("1", "A"), player("2", "B")] };
    let rows = player_rows("g", &team);
    assert_eq!(rows.len(), 2);
    assert_eq!(rows[0].id, "1");
    assert_eq!(rows[1].full_name, "B");
    assert!(rows.iter().all(|r| r.game_id == "g" && r.team_id == 10));
    assert_eq!(rows[0].position_type, "Forward");
    assert_eq!(rows[0].position_abbreviation, "C");
    assert_eq!(rows[0].shoots_catches.as_deref(), Some("L"));
}

#[test]
fn players_rows_put_away_first() {
    let away = Team { id: 1, players: vec![player("a1", "A1")] };
    let home = Team { id: 2, players: vec![player("h1", "H1"), player("h2", "H2")] };
    let rows = players_rows("g", &away, &home);
    let ids: Vec<(&str, u16)> = rows.iter().map(|r| (r.id.as_str(), r.team_id)).collect();
    assert_eq!(ids, vec![("a1", 1), ("h1", 2), ("h2", 2)]);
    let empty = Team { id: 3, players: vec![] };
    assert!(players_rows("g", &empty, &empty).is_empty());
}

fn sample_plays() -> Vec<Play> {
    vec![
        play(1, "00:00", "20:00", None),
        play(2, "01:30", "18:30", Some(vec![part("8", "Shooter"), part("9", "Goalie")])),
        play(3, "bad", "17:00", Some(vec![part("7", "Hitter")])),
        play(4, "05:00", "15:00", Some(vec![])),
        play(5, "06:00", "14:00", Some(vec![part("5", "Winner")])),
    ]
}

#[test]
fn event_rows_one_per_participant() {
    let plays = sample_plays();
    let rows = event_rows("g", &plays);
    let seen: Vec<(usize, u16, &str)> = rows.iter().map(|r| (r.play, r.event_id, r.player_id.as_str())).collect();
    assert_eq!(seen, vec![(1, 2, "8"), (1, 2, "9"), (2, 3, "7"), (4, 5, "5")]);
    assert_eq!(rows[0].period_time, Some(90));
    assert_eq!(rows[0].period_time_remaining, Some(1110));
    assert_eq!(rows[2].period_time, None);
    assert_eq!(rows[2].period_time_remaining, Some(1020));
    assert_eq!(rows[1].player_type, "Goalie");
    assert!(rows.iter().all(|r| r.game_id == "g" && r.team_id == Some(10) && r.goals_home == 1));
}

#[test]
fn strict_event_rows_skip_unreadable_times() {
    let plays = sample_plays();
    let rows = db_games::event_rows("g", &plays);
    let seen: Vec<(usize, &str)> = rows.iter().map(|r| (r.play, r.player_id.as_str())).collect();
    assert_eq!(seen, vec![(1, "8"), (1, "9"), (4, "5")]);
    assert!(rows.iter().all(|r| r.period_time.is_some() && r.period_time_remaining.is_some()));
}

#[test]
fn strict_and_lenient_agree_on_clean_feeds() {
    let mut plays = sample_plays();
    plays.remove(2);
    let a = event_rows("g", &plays);
    let b = db_games::event_rows("g", &plays);
    let key = |rows: &Vec<ruskie::games::EventRow>| -> Vec<(usize, String, Option<u16>)> {
        rows.iter().map(|r| (r.play, r.player_id.clone(), r.period_time)).collect()
    };
    assert_eq!(key(&a), key(&b));
}

fn db_player(id: &str) -> db_games::Player {
    db_games::Player {
        id: id.to_string(),
        full_name: format!("P{}", id),
        shoots_catches: None,
        roster_status: "Y".to_string(),
        position: "D".to_string(),
    }
}

#[test]
fn db_player_rows() {
    let away = db_games::Team { id: 4, players: vec![db_player("1")] };
    let home = db_games::Team { id: 5, players: vec![db_player("2")] };
    let rows = db_games::players_rows("g", &away, &home);
    assert_eq!(rows.len(), 2);
    assert_eq!((rows[0].id.as_str(), rows[0].team_id), ("1", 4));
    assert_eq!((rows[1].id.as_str(), rows[1].team_id), ("2", 5));
    assert_eq!(rows[1].position, "D");
    assert_eq!(rows[1].shoots_catches, None);
    assert_eq!(db_games::player_rows("x", &away)[0].game_id, "x");
}

fn shift(start: &str, end: &str, duration: Option<&str>, event: Option<&str>) -> db_games::Shift {
    db_games::Shift {
        game_id: "2018020001".to_string(),
        team_id: 10,
        player_id: "8471214".to_string(),
        period: 2,
        start_time: start.to_string(),
        end_time: end.to_string(),
        duration: duration.map(|d| d.to_string()),
        shift_number: 3,
        event_description: event.map(|e| e.to_string()),
    }
}

#[test]
fn shift_rows_keep_readable_shifts() {
    let shifts = vec![
        shift("00:00", "00:45", Some("00:45"), None),
        shift("bad", "01:00", Some("00:15"), None),
        shift("01:00", "01:30", None, Some("GOAL")),
        shift("02:00", "02:40", Some("x"), None),
    ];
    let rows = db_games::shift_rows(&shifts);
    assert_eq!(rows.len(), 3);
    assert_eq!((rows[0].start_time, rows[0].end_time, rows[0].duration), (0, 45, Some(45)));
    assert_eq!(rows[0].event, "");
    assert_eq!((rows[1].start_time, rows[1].end_time, rows[1].duration), (60, 90, None));
    assert_eq!(rows[1].event, "GOAL");
    assert_eq!(rows[2].duration, None);
    assert!(rows.iter().all(|r| r.game_id == "2018020001" && r.player_id == "8471214" && r.shift_number == 3));
}

fn listed(id: u16, abbreviation: &str) -> ListedTeam {
    ListedTeam {
        id,
        name: format!("Team {}", id),
        venue_name: format!("Arena {}", id),
        abbreviation: abbreviation.to_string(),
    }
}

#[test]
fn team_rows_one_per_team() {
    let teams = vec![listed(1, "NJD"), listed(2, "NYI")];
    let rows = team_rows(&teams);
    assert_eq!(rows.len(), 2);
    assert_eq!((rows[1].id, rows[1].abbreviation.as_str(), rows[1].name.as_str()), (2, "NYI", "Team 2"));
    assert_eq!(rows[0].venue_name, "Arena 1");
    let rows = ledger_team_rows(7, &teams);
    assert!(rows.iter().all(|r| r.ledger_id == 7));
    assert_eq!(rows[0].abbreviation, "NJD");
    assert!(team_rows(&vec![]).is_empty());
}

fn game(pk: u32) -> Game {
    Game {
        game_pk: pk,
        game_type: "R".to_string(),
        season: "20182019".to_string(),
        status_abstract: "Final".to_string(),
        status_detailed: "Final".to_string(),
        start_time_tbd: false,
        away_team_id: 1,
        home_team_id: 2,
        venue_name: "Arena".to_string(),
    }
}

#[test]
fn schedule_rows_flatten_days() {
    let dates = vec![
        Date { date: "2018-10-03".to_string(), games: vec![game(1), game(2)] },
        Date { date: "2018-10-04".to_string(), games: vec![] },
        Date { date: "2018-10-05".to_string(), games: vec![game(3)] },
    ];
    let rows = schedule_rows(9, &dates);
    let seen: Vec<(u32, &str)> = rows.iter().map(|r| (r.id, r.date.as_str())).collect();
    assert_eq!(seen, vec![(1, "2018-10-03"), (2, "2018-10-03"), (3, "2018-10-05")]);
    assert!(rows.iter().all(|r| r.ledger_id == 9 && r.home_team_id == 2 && r.away_team_id == 1));
}

#[test]
fn game_rows_flatten_days() {
    let g = |pk: &str| DayGame {
        game_pk: pk.to_string(),
        game_type: "P".to_string(),
        season: "20182019".to_string(),
        status_abstract: "Preview".to_string(),
        status_detailed: "Scheduled".to_string(),
        start_time_tbd: true,
        away_team_id: 3,
        home_team_id: 4,
        venue_name: "Rink".to_string(),
    };
    let days = vec![Day { date: "d1".to_string(), games: vec![g("10")] }, Day { date: "d2".to_string(), games: vec![g("11"), g("12")] }];
    let rows = game_rows(&days);
    let seen: Vec<(&str, &str)> = rows.iter().map(|r| (r.id.as_str(), r.date.as_str())).collect();
    assert_eq!(seen, vec![("10", "d1"), ("11", "d2"), ("12", "d2")]);
    assert!(rows.iter().all(|r| r.status_start_time_tbd && r.game_type == "P"));
}
