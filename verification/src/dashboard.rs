use vstd::prelude::*;
use crate::health::text_or_empty;
use crate::model::{DetailSortField, EnvStatus, HealthInstance, PageView};
use crate::sorting::{is_stable_sort_of, sort_stable};
use crate::text::{lemma_text_order, same_text, text_le, text_le_exec};

verus! {

// ---------------------------------------------------------------------------
// Countdown to the next refresh
// ---------------------------------------------------------------------------

/// Seconds between two refreshes of the data.
pub const REFRESH_SECONDS: i32 = 60;

/// Milliseconds between two ticks of the countdown.
pub const TICK_MS: u32 = 1000;

/// What one tick of the countdown decides.
#[derive(Debug, Clone, Copy, PartialEq, Eq)]
pub struct RefreshStep {
    /// The seconds left after the tick.
    pub seconds_left: i32,
    /// Reload the environments of the dashboard.
    pub refetch_health: bool,
    /// Reload the selected environment.
    pub refetch_detail: bool,
    /// Reload the history of the selected environment.
    pub refetch_history: bool,
}

/// The seconds left after one tick.
pub open spec fn seconds_after_tick(current: i32) -> int {
    if current <= 1 {
        REFRESH_SECONDS as int
    } else {
        current - 1
    }
}

/// One tick of the countdown: at one second or less everything that is shown is reloaded
/// and the countdown starts again; otherwise it counts down by one.
pub fn refresh_tick(current: i32, detail_selected: bool, history_selected: bool) -> (r: RefreshStep)
    ensures
        r.seconds_left == seconds_after_tick(current),
        r.refetch_health == (current <= 1),
        r.refetch_detail == (current <= 1 && detail_selected),
        r.refetch_history == (current <= 1 && history_selected),
{
    if current <= 1 {
        RefreshStep {
            seconds_left: REFRESH_SECONDS,
            refetch_health: true,
            refetch_detail: detail_selected,
            refetch_history: history_selected,
        }
    } else {
        RefreshStep {
            seconds_left: current - 1,
            refetch_health: false,
            refetch_detail: false,
            refetch_history: false,
        }
    }
}

// ---------------------------------------------------------------------------
// Order of the checks on the detail page
// ---------------------------------------------------------------------------

/// The field of a check by which the detail page orders, empty where absent.
pub open spec fn sort_key(field: DetailSortField, inst: HealthInstance) -> Seq<char> {
    match field {
        DetailSortField::InstanceName => text_or_empty(inst.instance_name),
        DetailSortField::InstanceStatus => text_or_empty(inst.instance_status),
        DetailSortField::HealthStatus => text_or_empty(inst.health_status),
    }
}

/// Checks ordered by a field, ascending or descending.
pub open spec fn instance_order(field: DetailSortField, ascending: bool) -> spec_fn(
    HealthInstance,
    HealthInstance,
) -> bool {
    |a: HealthInstance, b: HealthInstance|
        if ascending {
            text_le(sort_key(field, a), sort_key(field, b))
        } else {
            text_le(sort_key(field, b), sort_key(field, a))
        }
}

/// The text of a field of a check.
fn field_text(field: DetailSortField, inst: &HealthInstance) -> (r: &str)
    ensures
        r@ == sort_key(field, *inst),
{
    let o = match field {
        DetailSortField::InstanceName => &inst.instance_name,
        DetailSortField::InstanceStatus => &inst.instance_status,
        DetailSortField::HealthStatus => &inst.health_status,
    };
    match o {
        Some(s) => s.as_str(),
        None => {
            proof {
                reveal_strlit("");
            }
            assert(""@ =~= Seq::<char>::empty());
            ""
        },
    }
}

/// Orders the checks of the detail page by a field, ascending or descending; checks with
/// equal fields keep their order.
pub fn sort_instances(items: Vec<HealthInstance>, field: DetailSortField, ascending: bool) -> (r: Vec<HealthInstance>)
    ensures
        is_stable_sort_of(r@, items@, instance_order(field, ascending)),
        r@.to_multiset() == items@.to_multiset(),
        field == DetailSortField::InstanceName ==> forall|i: int, j: int|
            0 <= i < j < r.len() ==> (if ascending {
                text_le(text_or_empty((#[trigger] r@[i]).instance_name), text_or_empty((#[trigger] r@[j]).instance_name))
            } else {
                text_le(text_or_empty(r@[j].instance_name), text_or_empty(r@[i].instance_name))
            }),
        field == DetailSortField::InstanceStatus ==> forall|i: int, j: int|
            0 <= i < j < r.len() ==> (if ascending {
                text_le(
                    text_or_empty((#[trigger] r@[i]).instance_status),
                    text_or_empty((#[trigger] r@[j]).instance_status),
                )
            } else {
                text_le(text_or_empty(r@[j].instance_status), text_or_empty(r@[i].instance_status))
            }),
        field == DetailSortField::HealthStatus ==> forall|i: int, j: int|
            0 <= i < j < r.len() ==> (if ascending {
                text_le(text_or_empty((#[trigger] r@[i]).health_status), text_or_empty((#[trigger] r@[j]).health_status))
            } else {
                text_le(text_or_empty(r@[j].health_status), text_or_empty(r@[i].health_status))
            }),
{
    proof {
        lemma_text_order();
    }
    let before = move |a: &HealthInstance, b: &HealthInstance| -> (o: bool)
        ensures
            o == instance_order(field, ascending)(*a, *b),
        {
            if ascending {
                text_le_exec(field_text(field, a), field_text(field, b))
            } else {
                text_le_exec(field_text(field, b), field_text(field, a))
            }
        };
    let ghost s = items@;
    let r = sort_stable(items, before, Ghost(instance_order(field, ascending)));
    proof {
        crate::laws::lemma_checks_ordered_by_field(r@, s, field, ascending);
    }
    r
}

/// The sort field that a value of the sort selector names; the instance name for any
/// other value.
pub fn detail_sort_field_from(value: &str) -> (r: DetailSortField)
    ensures
        r == (if value@ == "instance_status"@ {
            DetailSortField::InstanceStatus
        } else if value@ == "health_status"@ {
            DetailSortField::HealthStatus
        } else {
            DetailSortField::InstanceName
        }),
{
    if same_text(value, "instance_status") {
        DetailSortField::InstanceStatus
    } else if same_text(value, "health_status") {
        DetailSortField::HealthStatus
    } else {
        DetailSortField::InstanceName
    }
}

// ---------------------------------------------------------------------------
// Navigation between the pages
// ---------------------------------------------------------------------------

/// The page shown and the environments selected for it.
#[derive(Debug, Clone, PartialEq)]
pub struct NavState {
    pub page: PageView,
    pub selected_env: Option<EnvStatus>,
    pub selected_history_env: Option<EnvStatus>,
}

/// What the user does to move between pages.
#[derive(Debug, Clone, PartialEq)]
pub enum NavEvent {
    /// The browser went back in its history.
    PopState,
    /// The back button was pressed where the browser has no history to go back in.
    BackWithoutHistory,
    /// The history of an environment was asked for.
    ViewHistory(EnvStatus),
}

/// The page and selection after a navigation event.
pub open spec fn nav_next(state: NavState, event: NavEvent) -> NavState {
    match event {
        NavEvent::PopState => NavState {
            page: PageView::Dashboard,
            selected_env: None,
            selected_history_env: None,
        },
        NavEvent::BackWithoutHistory => NavState {
            page: PageView::Dashboard,
            selected_env: None,
            selected_history_env: state.selected_history_env,
        },
        NavEvent::ViewHistory(env) => NavState {
            page: PageView::History,
            selected_env: state.selected_env,
            selected_history_env: Some(env),
        },
    }
}

/// Moves between pages: going back shows the dashboard and drops the selected environment
/// (a step back in the browser drops both selections); asking for a history shows it.
pub fn navigate(state: NavState, event: NavEvent) -> (r: NavState)
    ensures
        r == nav_next(state, event),
{
    match event {
        NavEvent::PopState => NavState {
            page: PageView::Dashboard,
            selected_env: None,
            selected_history_env: None,
        },
        NavEvent::BackWithoutHistory => NavState {
            page: PageView::Dashboard,
            selected_env: None,
            selected_history_env: state.selected_history_env,
        },
        NavEvent::ViewHistory(env) => NavState {
            page: PageView::History,
            selected_env: state.selected_env,
            selected_history_env: Some(env),
        },
    }
}

} // verus!
