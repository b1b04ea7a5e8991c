use vstd::prelude::*;
use vstd::string::*;

verus! {

/// A team as the teams listing describes it.
pub struct Team {
    pub id: u16,
    pub name: String,
    pub venue_name: String,
    pub abbreviation: String,
}

/// A row of the `teams` table of the single-season database.
pub struct TeamRow {
    pub id: u16,
    pub abbreviation: String,
    pub name: String,
    pub venue_name: String,
}

/// A row of the `teams` table of a ledger database, where each season
/// range has a ledger entry.
pub struct LedgerTeamRow {
    pub ledger_id: u32,
    pub id: u16,
    pub abbreviation: String,
    pub name: String,
    pub venue_name: String,
}

pub open spec fn is_team_row(r: TeamRow, t: Team) -> bool {
    &&& r.id == t.id
    &&& r.abbreviation == t.abbreviation
    &&& r.name == t.name
    &&& r.venue_name == t.venue_name
}

pub open spec fn is_ledger_team_row(r: LedgerTeamRow, ledger_id: u32, t: Team) -> bool {
    &&& r.ledger_id == ledger_id
    &&& r.id == t.id
    &&& r.abbreviation == t.abbreviation
    &&& r.name == t.name
    &&& r.venue_name == t.venue_name
}

/// The rows of the `teams` table: one per team, in listing order.
pub fn team_rows(teams: &Vec<Team>) -> (rows: Vec<TeamRow>)
    ensures
        rows@.len() == teams@.len(),
        forall|i: int| 0 <= i < rows@.len() ==> is_team_row(#[trigger] rows@[i], teams@[i]),
{
    let mut rows: Vec<TeamRow> = Vec::new();
    let n = teams.len();
    for i in 0..n
        invariant
            n == teams@.len(),
            rows@.len() == i,
            forall|k: int| 0 <= k < i ==> is_team_row(#[trigger] rows@[k], teams@[k]),
    {
        let t = &teams[i];
        rows.push(
            TeamRow {
                id: t.id,
                abbreviation: t.abbreviation.clone(),
                name: t.name.clone(),
                venue_name: t.venue_name.clone(),
            },
        );
    }
    rows
}

/// The rows of the `teams` table under ledger entry `ledger_id`: one per
/// team, in listing order.
pub fn ledger_team_rows(ledger_id: u32, teams: &Vec<Team>) -> (rows: Vec<LedgerTeamRow>)
    ensures
        rows@.len() == teams@.len(),
        forall|i: int|
            0 <= i < rows@.len() ==> is_ledger_team_row(#[trigger] rows@[i], ledger_id, teams@[i]),
{
    let mut rows: Vec<LedgerTeamRow> = Vec::new();
    let n = teams.len();
    for i in 0..n
        invariant
            n == teams@.len(),
            rows@.len() == i,
            forall|k: int|
                0 <= k < i ==> is_ledger_team_row(#[trigger] rows@[k], ledger_id, teams@[k]),
    {
        let t = &teams[i];
        rows.push(
            LedgerTeamRow {
                ledger_id,
                id: t.id,
                abbreviation: t.abbreviation.clone(),
                name: t.name.clone(),
                venue_name: t.venue_name.clone(),
            },
        );
    }
    rows
}

/// The teams listing of the season from `start` to `end`:
/// `{wd}/data/teams-{start}-{end}.json`.
pub fn teams_path(wd: &str, start: &str, end: &str) -> (res: String)
    ensures
        res@ == wd@ + "/data/teams-"@ + start@ + "-"@ + end@ + ".json"@,
{
    let mut s = String::from_str(wd);
    s.append("/data/teams-");
    s.append(start);
    s.append("-");
    s.append(end);
    s.append(".json");
    s
}

/// The teams listing of the single-season database:
/// `{wd}/db/data/teams.json`.
pub fn single_teams_path(wd: &str) -> (res: String)
    ensures
        res@ == wd@ + "/db/data/teams.json"@,
{
    let mut s = String::from_str(wd);
    s.append("/db/data/teams.json");
    s
}


/// Every teams row copies the team it stands for: id, abbreviation, name
/// and venue.
pub proof fn lemma_team_rows_copy_their_team(teams: Seq<Team>, rows: Seq<TeamRow>)
    requires
        rows.len() == teams.len(),
        forall|i: int| 0 <= i < rows.len() ==> is_team_row(#[trigger] rows[i], teams[i]),
    ensures
        forall|i: int|
            0 <= i < rows.len() ==> {
                let r = #[trigger] rows[i];
                &&& r.id == teams[i].id
                &&& r.abbreviation == teams[i].abbreviation
                &&& r.name == teams[i].name
                &&& r.venue_name == teams[i].venue_name
            },
{
}

/// Every ledger teams row carries the ledger entry and copies the team it
/// stands for: id, abbreviation, name and venue.
pub proof fn lemma_ledger_team_rows_copy_their_team(
    ledger_id: u32,
    teams: Seq<Team>,
    rows: Seq<LedgerTeamRow>,
)
    requires
        rows.len() == teams.len(),
        forall|i: int|
            0 <= i < rows.len() ==> is_ledger_team_row(#[trigger] rows[i], ledger_id, teams[i]),
    ensures
        forall|i: int|
            0 <= i < rows.len() ==> {
                let r = #[trigger] rows[i];
                &&& r.ledger_id == ledger_id
                &&& r.id == teams[i].id
                &&& r.abbreviation == teams[i].abbreviation
                &&& r.name == teams[i].name
                &&& r.venue_name == teams[i].venue_name
            },
{
}

} // verus!
