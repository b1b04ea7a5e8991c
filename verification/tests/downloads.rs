use ruskie::blobs::{get_to_file_step as blob_step, BlobAction, BlobEvent};
use ruskie::games::{events_url, scrape, scrape_pair, shifts_url};
use ruskie::schedule::scrape as schedule_scrape;
use ruskie::schedules::{filename as schedules_filename, scrape as schedules_scrape, url};
use ruskie::sql::database_path;
use ruskie::teams::{single_teams_path, teams_path};
use ruskie::theft::{filename, get_to_file_step, FetchAction, FetchEvent};
use ruskie::vars::gather;

#[test]
fn filename_builds_data_paths() {
    assert_eq!(filename("/w", "events", "2018020001"), "/w/data/events/2018020001.json");
    assert_eq!(filename("", "", ""), "/data//.json");
}

#[test]
fn game_addresses() {
    assert_eq!(
        events_url("2018020001"),
        "https://statsapi.web.nhl.com/api/v1/game/2018020001/feed/live?site=en_nhl"
    );
    assert_eq!(
        shifts_url("2018020001"),
        "http://www.nhl.com/stats/rest/shiftcharts?cayenneExp=gameId=2018020001"
    );
}

#[test]
fn scrape_plans_one_download() {
    let f = scrape("/w", "7", "events", "http://x");
    assert_eq!(f.path, "/w/data/events/7.json");
    assert_eq!(f.url, "http://x");
    assert_eq!(f.wait, 1500);
}

#[test]
fn scrape_pair_plans_both_downloads() {
    assert!(scrape_pair("/w", &None).is_none());
    let (e, s) = scrape_pair("/w", &Some("2018020001".to_string())).unwrap();
    assert_eq!(e.path, "/w/data/events/2018020001.json");
    assert_eq!(e.url, events_url("2018020001"));
    assert_eq!(e.wait, 1500);
    assert_eq!(s.path, "/w/data/shifts/2018020001.json");
    assert_eq!(s.url, shifts_url("2018020001"));
    assert_eq!(s.wait, 1500);
    assert_ne!(e.path, s.path);
}

#[test]
fn schedule_addresses_and_files() {
    assert_eq!(
        url(10, "2018-08-01", "2019-08-01"),
        "https://statsapi.web.nhl.com/api/v1/schedule?teamId=10&startDate=2018-08-01&endDate=2019-08-01"
    );
    assert_eq!(
        schedules_filename("/w", 10, "2018-08-01", "2019-08-01"),
        "/w/data/schedule-10-2018-08-01-2019-08-01.json"
    );
    assert!(schedules_scrape("a", "b", "/w", None).is_none());
    let f = schedules_scrape("a", "b", "/w", Some(3)).unwrap();
    assert_eq!(f.path, "/w/data/schedule-3-a-b.json");
    assert_eq!(f.url, url(3, "a", "b"));
    assert_eq!(f.wait, 500);
    assert!(schedule_scrape("a", "b", "/w", None).is_none());
    let g = schedule_scrape("2018-08-01", "2019-08-01", "/w", Some(54)).unwrap();
    assert_eq!(g.path, "/w/data/schedule/2018-08-01-2019-08-01-54.json");
    assert_eq!(g.url, url(54, "2018-08-01", "2019-08-01"));
    assert_eq!(g.wait, 500);
}

#[test]
fn database_and_listing_paths() {
    assert_eq!(database_path("/w"), "/w/ruskie.db");
    assert_eq!(teams_path("/w", "2018-08-01", "2019-08-01"), "/w/data/teams-2018-08-01-2019-08-01.json");
    assert_eq!(single_teams_path("/w"), "/w/db/data/teams.json");
}

#[test]
fn gather_needs_all_three() {
    let s = || Some("x".to_string());
    assert_eq!(gather(s(), Some("y".into()), Some("z".into())), Some(("x".into(), "y".into(), "z".into())));
    assert_eq!(gather(None, s(), s()), None);
    assert_eq!(gather(s(), None, s()), None);
    assert_eq!(gather(s(), s(), None), None);
}

fn same_fetch_action(a: FetchAction, b: FetchAction) -> bool {
    match (a, b) {
        (FetchAction::Request, FetchAction::Request) => true,
        (FetchAction::Write, FetchAction::Write) => true,
        (FetchAction::Finish, FetchAction::Finish) => true,
        (FetchAction::Sleep { millis: x }, FetchAction::Sleep { millis: y }) => x == y,
        _ => false,
    }
}

#[test]
fn download_steps() {
    let w = 1500;
    assert!(same_fetch_action(get_to_file_step(w, &FetchEvent::FileChecked { exists: true }), FetchAction::Finish));
    assert!(same_fetch_action(get_to_file_step(w, &FetchEvent::FileChecked { exists: false }), FetchAction::Request));
    assert!(same_fetch_action(get_to_file_step(w, &FetchEvent::Responded { status: Some(200) }), FetchAction::Write));
    assert!(same_fetch_action(
        get_to_file_step(w, &FetchEvent::Responded { status: Some(404) }),
        FetchAction::Sleep { millis: 1500 }
    ));
    assert!(same_fetch_action(get_to_file_step(w, &FetchEvent::Responded { status: None }), FetchAction::Sleep { millis: 1500 }));
    assert!(same_fetch_action(get_to_file_step(w, &FetchEvent::Written), FetchAction::Sleep { millis: 1500 }));
    assert!(same_fetch_action(get_to_file_step(w, &FetchEvent::Slept), FetchAction::Finish));
}

#[test]
fn blob_download_steps() {
    let kind = |a: BlobAction| match a {
        BlobAction::Prepare => "prepare".to_string(),
        BlobAction::Copy => "copy".to_string(),
        BlobAction::Sleep { millis } => format!("sleep {}", millis),
        BlobAction::Finish => "finish".to_string(),
    };
    assert_eq!(kind(blob_step(500, &BlobEvent::FileChecked { exists: true })), "finish");
    assert_eq!(kind(blob_step(500, &BlobEvent::FileChecked { exists: false })), "prepare");
    assert_eq!(kind(blob_step(500, &BlobEvent::Prepared { created: true, replied: true })), "copy");
    assert_eq!(kind(blob_step(500, &BlobEvent::Prepared { created: false, replied: true })), "sleep 500");
    assert_eq!(kind(blob_step(500, &BlobEvent::Prepared { created: true, replied: false })), "sleep 500");
    assert_eq!(kind(blob_step(500, &BlobEvent::Copied)), "sleep 500");
    assert_eq!(kind(blob_step(500, &BlobEvent::Slept)), "finish");
}
