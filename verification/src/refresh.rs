use vstd::prelude::*;
use crate::text::str_eq;
use crate::shutdown::{StopHandshake, StopReply, spec_on_termination};

verus! {

/// Whether this process runs next to the database (in the `fra` region, or
/// in a debug build): only there are the ranking views refreshed.
pub fn is_home(debug_build: bool, fly_region: &str) -> (home: bool)
    ensures
        home == (debug_build || fly_region@ == "fra"@),
{
    debug_build || str_eq(fly_region, "fra")
}

/// The periods the global rankings are kept for.
#[derive(PartialEq, Eq, Structural, Clone, Copy, Debug)]
pub enum RankingPeriod {
    Hour,
    Day,
    Week,
    Month,
    Year,
    AllTime,
}

/// One step of a refresh of the precomputed views, all in one transaction.
#[derive(PartialEq, Eq, Structural, Clone, Copy, Debug)]
pub enum RefreshStep {
    /// Refresh the view of who holds each `/8` block.
    BlockHolders,
    /// Refresh the global ranking view of a period.
    GlobalRanking(RankingPeriod),
    /// Refresh the per-user ranking view.
    UserRanking,
    /// Record the time of this refresh under the id `refresher`.
    StampRefreshedAt,
    /// Log the database's connection limit and its open connections.
    ReportConnections,
}

/// The steps of one refresh, in order.
pub open spec fn spec_refresh_plan() -> Seq<RefreshStep> {
    seq![
        RefreshStep::BlockHolders,
        RefreshStep::GlobalRanking(RankingPeriod::Hour),
        RefreshStep::GlobalRanking(RankingPeriod::Day),
        RefreshStep::GlobalRanking(RankingPeriod::Week),
        RefreshStep::GlobalRanking(RankingPeriod::Month),
        RefreshStep::GlobalRanking(RankingPeriod::Year),
        RefreshStep::GlobalRanking(RankingPeriod::AllTime),
        RefreshStep::UserRanking,
        RefreshStep::StampRefreshedAt,
        RefreshStep::ReportConnections,
    ]
}

/// The steps of one refresh, in the order in which they run: the block
/// holders, the global rankings from the shortest period to the longest, the
/// user rankings, then the time stamp and the connection report.
pub fn refresh_plan() -> (plan: Vec<RefreshStep>)
    ensures
        plan@ == spec_refresh_plan(),
{
    let mut plan: Vec<RefreshStep> = Vec::new();
    plan.push(RefreshStep::BlockHolders);
    plan.push(RefreshStep::GlobalRanking(RankingPeriod::Hour));
    plan.push(RefreshStep::GlobalRanking(RankingPeriod::Day));
    plan.push(RefreshStep::GlobalRanking(RankingPeriod::Week));
    plan.push(RefreshStep::GlobalRanking(RankingPeriod::Month));
    plan.push(RefreshStep::GlobalRanking(RankingPeriod::Year));
    plan.push(RefreshStep::GlobalRanking(RankingPeriod::AllTime));
    plan.push(RefreshStep::UserRanking);
    plan.push(RefreshStep::StampRefreshedAt);
    plan.push(RefreshStep::ReportConnections);
    assert(plan@ =~= spec_refresh_plan());
    plan
}

/// The name of the view that holds a period's global ranking.
pub open spec fn spec_ranking_view(p: RankingPeriod) -> Seq<char> {
    match p {
        RankingPeriod::Hour => "ranking_hour"@,
        RankingPeriod::Day => "ranking_day"@,
        RankingPeriod::Week => "ranking_week"@,
        RankingPeriod::Month => "ranking_month"@,
        RankingPeriod::Year => "ranking_year"@,
        RankingPeriod::AllTime => "ranking_all_time"@,
    }
}

/// The SQL statement of a refresh step that is a view refresh.
pub open spec fn spec_refresh_sql(step: RefreshStep) -> Option<Seq<char>> {
    match step {
        RefreshStep::BlockHolders => Some("refresh materialized view block_holders"@),
        RefreshStep::GlobalRanking(RankingPeriod::Hour) => Some("refresh materialized view ranking_hour"@),
        RefreshStep::GlobalRanking(RankingPeriod::Day) => Some("refresh materialized view ranking_day"@),
        RefreshStep::GlobalRanking(RankingPeriod::Week) => Some("refresh materialized view ranking_week"@),
        RefreshStep::GlobalRanking(RankingPeriod::Month) => Some("refresh materialized view ranking_month"@),
        RefreshStep::GlobalRanking(RankingPeriod::Year) => Some("refresh materialized view ranking_year"@),
        RefreshStep::GlobalRanking(RankingPeriod::AllTime) => Some("refresh materialized view ranking_all_time"@),
        RefreshStep::UserRanking => Some("refresh materialized view user_ranking"@),
        RefreshStep::StampRefreshedAt => None,
        RefreshStep::ReportConnections => None,
    }
}

impl RankingPeriod {
    /// The name of the view that holds this period's global ranking.
    pub fn view_name(&self) -> (name: &'static str)
        ensures
            name@ == spec_ranking_view(*self),
    {
        match self {
            RankingPeriod::Hour => "ranking_hour",
            RankingPeriod::Day => "ranking_day",
            RankingPeriod::Week => "ranking_week",
            RankingPeriod::Month => "ranking_month",
            RankingPeriod::Year => "ranking_year",
            RankingPeriod::AllTime => "ranking_all_time",
        }
    }
}

impl RefreshStep {
    /// The SQL statement that refreshes a view, for the steps that do.
    pub fn sql(&self) -> (q: Option<&'static str>)
        ensures
            match q {
                Some(t) => spec_refresh_sql(*self) == Some(t@),
                None => spec_refresh_sql(*self) is None,
            },
    {
        match self {
            RefreshStep::BlockHolders => Some("refresh materialized view block_holders"),
            RefreshStep::GlobalRanking(RankingPeriod::Hour) => Some("refresh materialized view ranking_hour"),
            RefreshStep::GlobalRanking(RankingPeriod::Day) => Some("refresh materialized view ranking_day"),
            RefreshStep::GlobalRanking(RankingPeriod::Week) => Some("refresh materialized view ranking_week"),
            RefreshStep::GlobalRanking(RankingPeriod::Month) => Some("refresh materialized view ranking_month"),
            RefreshStep::GlobalRanking(RankingPeriod::Year) => Some("refresh materialized view ranking_year"),
            RefreshStep::GlobalRanking(RankingPeriod::AllTime) => Some("refresh materialized view ranking_all_time"),
            RefreshStep::UserRanking => Some("refresh materialized view user_ranking"),
            RefreshStep::StampRefreshedAt => None,
            RefreshStep::ReportConnections => None,
        }
    }
}

/// What the refresher is told: a request to stop, or a tick of its
/// fifteen-second interval together with whether this process is at home.
pub enum RefreshEvent {
    Terminate,
    Tick { home: bool },
}

/// What the refresher does next.
pub enum RefreshAction {
    /// Wait for the next event.
    Continue,
    /// Run these steps in one transaction; a failure is only reported.
    Refresh(Vec<RefreshStep>),
    /// Leave the loop, after answering on the stop channel as the reply says.
    Stop(StopReply),
}

/// The refresher's state: its stop handshake.
pub struct RefreshWorker {
    pub stop: StopHandshake,
}

impl RefreshWorker {
    /// A refresher that still holds its stop sender.
    pub fn new() -> (w: Self)
        ensures
            w.stop.sender_held,
    {
        RefreshWorker { stop: StopHandshake::new() }
    }

    /// Handles one event: a tick refreshes only at home.
    pub fn step(&mut self, event: RefreshEvent) -> (action: RefreshAction)
        ensures
            match event {
                RefreshEvent::Terminate => action matches RefreshAction::Stop(reply)
                    && (reply, final(self).stop.sender_held) == spec_on_termination(old(self).stop.sender_held),
                RefreshEvent::Tick { home } => {
                    &&& final(self).stop == old(self).stop
                    &&& if home {
                        action matches RefreshAction::Refresh(plan) && plan@ == spec_refresh_plan()
                    } else {
                        action is Continue
                    }
                },
            },
    {
        match event {
            RefreshEvent::Terminate => RefreshAction::Stop(self.stop.on_termination()),
            RefreshEvent::Tick { home } => {
                if home {
                    RefreshAction::Refresh(refresh_plan())
                } else {
                    RefreshAction::Continue
                }
            },
        }
    }
}

} // verus!
