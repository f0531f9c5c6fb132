//! The rules for moving items between states, the limits on work in progress, and the
//! resolutions of closed items.
use vstd::prelude::*;
use vstd::string::StringExecFns;
use crate::config;
use crate::config::BoardConfig;
use crate::keyed;
use crate::ontology;
use crate::relation_vocab;
use crate::state_model;
use crate::state_model::{LifecycleState, StateView, TransitionVerdict, VerdictView};
use crate::text;

verus! {

/// Why a move was refused.
#[derive(Debug)]
pub enum StateError {
    InvalidTransition { from: String, to: String, board: String },
    IllegalPerModel { from: String, to: String, targets: String },
    InvalidState { state: String, board: String },
    WipLimitReached { status: String, current: u32, limit: u32 },
    InvalidResolution { resolution: String },
    ResolutionOnNonTerminal { status: String },
}

#[verifier::ext_equal]
pub enum StateErrorView {
    InvalidTransition { from: Seq<char>, to: Seq<char>, board: Seq<char> },
    IllegalPerModel { from: Seq<char>, to: Seq<char>, targets: Seq<char> },
    InvalidState { state: Seq<char>, board: Seq<char> },
    WipLimitReached { status: Seq<char>, current: u32, limit: u32 },
    InvalidResolution { resolution: Seq<char> },
    ResolutionOnNonTerminal { status: Seq<char> },
}

impl View for StateError {
    type V = StateErrorView;

    open spec fn view(&self) -> StateErrorView {
        match *self {
            StateError::InvalidTransition { from, to, board } => {
                StateErrorView::InvalidTransition { from: from@, to: to@, board: board@ }
            },
            StateError::IllegalPerModel { from, to, targets } => {
                StateErrorView::IllegalPerModel { from: from@, to: to@, targets: targets@ }
            },
            StateError::InvalidState { state, board } => {
                StateErrorView::InvalidState { state: state@, board: board@ }
            },
            StateError::WipLimitReached { status, current, limit } => {
                StateErrorView::WipLimitReached { status: status@, current, limit }
            },
            StateError::InvalidResolution { resolution } => {
                StateErrorView::InvalidResolution { resolution: resolution@ }
            },
            StateError::ResolutionOnNonTerminal { status } => {
                StateErrorView::ResolutionOnNonTerminal { status: status@ }
            },
        }
    }
}

/// A refusal in words.
pub open spec fn message_spec(error: StateErrorView) -> Seq<char> {
    match error {
        StateErrorView::InvalidTransition { from, to, board } => "Invalid transition: '"@ + from
            + "' → '"@ + to + "' is not allowed on board '"@ + board + "'"@,
        StateErrorView::IllegalPerModel { from, to, targets } => "Invalid transition: '"@ + from
            + "' → '"@ + to + "' is not in the lifecycle model. Legal from '"@ + from + "': "@
            + targets,
        StateErrorView::InvalidState { state, board } => "Invalid state '"@ + state
            + "' for board '"@ + board + "'"@,
        StateErrorView::WipLimitReached { status, current, limit } => "WIP limit reached: "@
            + text::decimal_spec(current as nat) + "/"@ + text::decimal_spec(limit as nat)
            + " items at '"@ + status + "' (use --force to override)"@,
        StateErrorView::InvalidResolution { resolution } => "Invalid resolution '"@ + resolution
            + "'. Valid values: completed, superseded, wont_do, duplicate, obsolete, merged, refuted"@,
        StateErrorView::ResolutionOnNonTerminal { status } =>
            "Resolution can only be set on terminal states (done, complete, abandoned, retired), not '"@
            + status + "'"@,
    }
}

impl StateError {
    /// The refusal in words.
    pub fn message(&self) -> (r: String)
        ensures
            r@ == message_spec(self@),
    {
        match self {
            StateError::InvalidTransition { from, to, board } => {
                let mut r: String = text::owned("Invalid transition: '");
                r.append(from.as_str());
                r.append("' → '");
                r.append(to.as_str());
                r.append("' is not allowed on board '");
                r.append(board.as_str());
                r.append("'");
                r
            },
            StateError::IllegalPerModel { from, to, targets } => {
                let mut r: String = text::owned("Invalid transition: '");
                r.append(from.as_str());
                r.append("' → '");
                r.append(to.as_str());
                r.append("' is not in the lifecycle model. Legal from '");
                r.append(from.as_str());
                r.append("': ");
                r.append(targets.as_str());
                r
            },
            StateError::InvalidState { state, board } => {
                let mut r: String = text::owned("Invalid state '");
                r.append(state.as_str());
                r.append("' for board '");
                r.append(board.as_str());
                r.append("'");
                r
            },
            StateError::WipLimitReached { status, current, limit } => {
                let mut r: String = text::owned("WIP limit reached: ");
                let now: String = text::decimal_u64(*current as u64);
                r.append(now.as_str());
                r.append("/");
                let most: String = text::decimal_u64(*limit as u64);
                r.append(most.as_str());
                r.append(" items at '");
                r.append(status.as_str());
                r.append("' (use --force to override)");
                r
            },
            StateError::InvalidResolution { resolution } => {
                let mut r: String = text::owned("Invalid resolution '");
                r.append(resolution.as_str());
                r.append(
                    "'. Valid values: completed, superseded, wont_do, duplicate, obsolete, merged, refuted",
                );
                r
            },
            StateError::ResolutionOnNonTerminal { status } => {
                let mut r: String = text::owned(
                    "Resolution can only be set on terminal states (done, complete, abandoned, retired), not '",
                );
                r.append(status.as_str());
                r.append("'");
                r
            },
        }
    }
}

// ---- terminal states and resolutions ---------------------------------------------------------

/// The resolutions that a closed item may carry.
pub open spec fn is_resolution(s: Seq<char>) -> bool {
    ||| s == "completed"@
    ||| s == "superseded"@
    ||| s == "wont_do"@
    ||| s == "duplicate"@
    ||| s == "obsolete"@
    ||| s == "merged"@
    ||| s == "refuted"@
}

/// The states of closed items.
pub open spec fn is_terminal(status: Seq<char>) -> bool {
    ||| status == "done"@
    ||| status == "complete"@
    ||| status == "abandoned"@
    ||| status == "retired"@
}

/// Whether items in a state are closed, so that they may carry a resolution.
pub fn is_terminal_state(status: &str) -> (r: bool)
    ensures
        r == is_terminal(status@),
{
    text::same(status, "done") || text::same(status, "complete") || text::same(
        status,
        "abandoned",
    ) || text::same(status, "retired")
}

/// The verdict on a resolution: it has to be a known one, and the item closed.
pub open spec fn resolution_verdict(resolution: Option<Seq<char>>, status: Seq<char>) -> Result<
    (),
    StateErrorView,
> {
    match resolution {
        None => Ok(()),
        Some(res) => if !is_resolution(res) {
            Err(StateErrorView::InvalidResolution { resolution: res })
        } else if !is_terminal(status) {
            Err(StateErrorView::ResolutionOnNonTerminal { status })
        } else {
            Ok(())
        },
    }
}

/// Whether an item that goes to a state may carry a resolution.
pub fn validate_resolution(resolution: Option<&str>, target_status: &str) -> (r: Result<
    (),
    StateError,
>)
    ensures
        ({
            let verdict = resolution_verdict(
                relation_vocab::str_view(resolution),
                target_status@,
            );
            &&& r is Ok == verdict is Ok
            &&& r is Err ==> r->Err_0@ == verdict->Err_0
        }),
{
    let res: &str = match resolution {
        Some(res) => res,
        None => return Ok(()),
    };
    if !(text::same(res, "completed") || text::same(res, "superseded") || text::same(
        res,
        "wont_do",
    ) || text::same(res, "duplicate") || text::same(res, "obsolete") || text::same(res, "merged")
        || text::same(res, "refuted")) {
        return Err(StateError::InvalidResolution { resolution: text::owned(res) });
    }
    if !is_terminal_state(target_status) {
        return Err(StateError::ResolutionOnNonTerminal { status: text::owned(target_status) });
    }
    Ok(())
}

// ---- moves ---------------------------------------------------------------------------------

/// Where a name stands first in a list.
pub open spec fn place(states: Seq<Seq<char>>, name: Seq<char>) -> int {
    states.index_of_first(name)->0
}

/// The verdict of a lifecycle on a move between two states. Both have to be of the
/// lifecycle. A closed item goes only forward or stays; any other goes anywhere.
pub open spec fn lifecycle_verdict(
    states: Seq<Seq<char>>,
    from: Seq<char>,
    to: Seq<char>,
    board: Seq<char>,
) -> Result<(), StateErrorView> {
    if !states.contains(from) {
        Err(StateErrorView::InvalidState { state: from, board })
    } else if !states.contains(to) {
        Err(StateErrorView::InvalidState { state: to, board })
    } else if is_terminal(from) && place(states, to) < place(states, from) {
        Err(StateErrorView::InvalidTransition { from, to, board })
    } else {
        Ok(())
    }
}

/// The verdict on a move. On the development board the model comes first, but for types
/// with a lifecycle of their own; where it does not know a state, and everywhere else,
/// the lifecycle decides.
pub open spec fn move_verdict(
    model: Seq<StateView>,
    board: BoardConfig,
    from: Seq<char>,
    to: Seq<char>,
    item_type: Option<Seq<char>>,
) -> Result<(), StateErrorView> {
    let own = item_type is Some && board.lifecycle(item_type->0) is Some;
    let by_lifecycle = lifecycle_verdict(board.states_of(item_type), from, to, board.name@);
    if board.name@ == "development"@ && !own {
        match state_model::verdict_spec(model, from, to) {
            VerdictView::Legal => Ok(()),
            VerdictView::Illegal { legal_targets } => Err(
                StateErrorView::IllegalPerModel {
                    from,
                    to,
                    targets: text::join_spec(legal_targets, ", "@),
                },
            ),
            VerdictView::UnknownState => by_lifecycle,
        }
    } else {
        by_lifecycle
    }
}

/// The first place of a name in a list.
pub fn position(states: &Vec<String>, name: &str) -> (r: Option<usize>)
    ensures
        r is Some == text::views(states@).contains(name@),
        r is Some ==> r->0 == place(text::views(states@), name@),
{
    let ghost all = text::views(states@);
    let mut i: usize = 0;
    while i < states.len()
        invariant
            i <= states@.len(),
            all == text::views(states@),
            forall|k: int| 0 <= k < i ==> #[trigger] all[k] != name@,
        decreases states@.len() - i,
    {
        assert(all[i as int] == states@[i as int]@);
        if text::same(states[i].as_str(), name) {
            proof {
                lemma_place(all, name@, i as int);
            }
            return Some(i);
        }
        i = i + 1;
    }
    None
}

/// The first place of a name is the one before which it does not stand.
proof fn lemma_place(states: Seq<Seq<char>>, name: Seq<char>, i: int)
    requires
        0 <= i < states.len(),
        states[i] == name,
        forall|k: int| 0 <= k < i ==> #[trigger] states[k] != name,
    ensures
        states.contains(name),
        place(states, name) == i,
{
    states.index_of_first_ensures(name);
}

pub fn lifecycle_allows(states: &Vec<String>, from: &str, to: &str, board: &str) -> (r: Result<
    (),
    StateError,
>)
    ensures
        ({
            let verdict = lifecycle_verdict(text::views(states@), from@, to@, board@);
            &&& r is Ok == verdict is Ok
            &&& r is Err ==> r->Err_0@ == verdict->Err_0
        }),
{
    let start: usize = match position(states, from) {
        Some(i) => i,
        None => return Err(
            StateError::InvalidState { state: text::owned(from), board: text::owned(board) },
        ),
    };
    let end: usize = match position(states, to) {
        Some(i) => i,
        None => return Err(
            StateError::InvalidState { state: text::owned(to), board: text::owned(board) },
        ),
    };
    if end >= start || !is_terminal_state(from) {
        return Ok(());
    }
    Err(
        StateError::InvalidTransition {
            from: text::owned(from),
            to: text::owned(to),
            board: text::owned(board),
        },
    )
}

/// Whether a board allows a move, by a given model.
pub fn validate_transition_in(
    model: &Vec<LifecycleState>,
    board: &BoardConfig,
    from: &str,
    to: &str,
    item_type: Option<&str>,
) -> (r: Result<(), StateError>)
    ensures
        ({
            let verdict = move_verdict(
                state_model::state_views(model@),
                *board,
                from@,
                to@,
                relation_vocab::str_view(item_type),
            );
            &&& r is Ok == verdict is Ok
            &&& r is Err ==> r->Err_0@ == verdict->Err_0
        }),
{
    let own: bool = match item_type {
        Some(t) => keyed::lookup(&board.type_states, t).is_some(),
        None => false,
    };
    if text::same(board.name.as_str(), "development") && !own {
        match state_model::is_legal_in(model, from, to) {
            TransitionVerdict::Legal => return Ok(()),
            TransitionVerdict::Illegal { legal_targets } => return Err(
                StateError::IllegalPerModel {
                    from: text::owned(from),
                    to: text::owned(to),
                    targets: text::join(&legal_targets, ", "),
                },
            ),
            TransitionVerdict::UnknownState => {},
        }
    }
    let states: &Vec<String> = match item_type {
        Some(t) => board.states_for_type(t),
        None => &board.states,
    };
    lifecycle_allows(states, from, to, board.name.as_str())
}

/// Whether a board allows items of a type to move from one state to another.
pub fn validate_transition_for_type(
    board: &BoardConfig,
    from: &str,
    to: &str,
    item_type: Option<&str>,
) -> (r: Result<(), StateError>)
    ensures
        ({
            let verdict = move_verdict(
                state_model::model_spec(ontology::kanban_text()),
                *board,
                from@,
                to@,
                relation_vocab::str_view(item_type),
            );
            &&& r is Ok == verdict is Ok
            &&& r is Err ==> r->Err_0@ == verdict->Err_0
        }),
{
    let model: Vec<LifecycleState> = state_model::states();
    validate_transition_in(&model, board, from, to, item_type)
}

/// Whether a board allows items to move from one state to another.
pub fn validate_transition(board: &BoardConfig, from: &str, to: &str) -> (r: Result<
    (),
    StateError,
>)
    ensures
        ({
            let verdict = move_verdict(
                state_model::model_spec(ontology::kanban_text()),
                *board,
                from@,
                to@,
                None,
            );
            &&& r is Ok == verdict is Ok
            &&& r is Err ==> r->Err_0@ == verdict->Err_0
        }),
{
    validate_transition_for_type(board, from, to, None)
}

// ---- lifecycles of types -----------------------------------------------------------------------

/// What the lifecycle of a type says of a move.
#[derive(Debug, Clone, PartialEq, Eq)]
pub enum TypeTransitionVerdict {
    /// Both states are of the lifecycle and the move is allowed.
    Legal,
    /// Both states are of the lifecycle and the move is not allowed. The moves that are
    /// come along.
    Illegal { legal_targets: Vec<String> },
    /// The type has no lifecycle of its own, or one of the states is not in it.
    OutsideLifecycle,
}

#[verifier::ext_equal]
pub enum TypeVerdictView {
    Legal,
    Illegal { legal_targets: Seq<Seq<char>> },
    OutsideLifecycle,
}

impl View for TypeTransitionVerdict {
    type V = TypeVerdictView;

    open spec fn view(&self) -> TypeVerdictView {
        match *self {
            TypeTransitionVerdict::Legal => TypeVerdictView::Legal,
            TypeTransitionVerdict::Illegal { legal_targets } => TypeVerdictView::Illegal {
                legal_targets: text::views(legal_targets@),
            },
            TypeTransitionVerdict::OutsideLifecycle => TypeVerdictView::OutsideLifecycle,
        }
    }
}

/// The other states among the first `n` that a lifecycle allows a move to.
pub open spec fn targets_spec(
    states: Seq<Seq<char>>,
    from: Seq<char>,
    board: Seq<char>,
    n: nat,
) -> Seq<Seq<char>>
    decreases n,
{
    if n == 0 {
        Seq::empty()
    } else {
        let before = targets_spec(states, from, board, (n - 1) as nat);
        if states[n - 1] != from && lifecycle_verdict(states, from, states[n - 1], board) is Ok {
            before.push(states[n - 1])
        } else {
            before
        }
    }
}

/// What the lifecycle of a type says of a move.
pub open spec fn type_verdict_spec(
    board: BoardConfig,
    from: Seq<char>,
    to: Seq<char>,
    item_type: Seq<char>,
) -> TypeVerdictView {
    match board.lifecycle(item_type) {
        None => TypeVerdictView::OutsideLifecycle,
        Some(states) => if !states.contains(from) || !states.contains(to) {
            TypeVerdictView::OutsideLifecycle
        } else if lifecycle_verdict(states, from, to, board.name@) is Ok {
            TypeVerdictView::Legal
        } else {
            TypeVerdictView::Illegal {
                legal_targets: targets_spec(states, from, board.name@, states.len()),
            }
        },
    }
}

/// What the lifecycle of a type says of a move.
pub fn type_transition_verdict(board: &BoardConfig, from: &str, to: &str, item_type: &str) -> (r:
    TypeTransitionVerdict)
    ensures
        r@ == type_verdict_spec(*board, from@, to@, item_type@),
{
    let states: &Vec<String> = match keyed::lookup(&board.type_states, item_type) {
        Some(states) => states,
        None => return TypeTransitionVerdict::OutsideLifecycle,
    };
    if !text::contains_string(states, from) || !text::contains_string(states, to) {
        return TypeTransitionVerdict::OutsideLifecycle;
    }
    if lifecycle_allows(states, from, to, board.name.as_str()).is_ok() {
        return TypeTransitionVerdict::Legal;
    }
    let ghost all = text::views(states@);
    let mut legal_targets: Vec<String> = Vec::new();
    let mut i: usize = 0;
    assert(text::views(legal_targets@) =~= Seq::<Seq<char>>::empty());
    while i < states.len()
        invariant
            i <= states@.len(),
            all == text::views(states@),
            text::views(legal_targets@) == targets_spec(all, from@, board.name@, i as nat),
        decreases states@.len() - i,
    {
        assert(all[i as int] == states@[i as int]@);
        let ghost before = text::views(legal_targets@);
        if !text::same(states[i].as_str(), from) && lifecycle_allows(
            states,
            from,
            states[i].as_str(),
            board.name.as_str(),
        ).is_ok() {
            legal_targets.push(states[i].clone());
            assert(text::views(legal_targets@) =~= before.push(all[i as int]));
        }
        i = i + 1;
    }
    TypeTransitionVerdict::Illegal { legal_targets }
}

// ---- work in progress ---------------------------------------------------------------------------

/// The category of states that a limit is set for; empty for states without a limit.
pub open spec fn category_spec(status: Seq<char>, board: Seq<char>) -> Seq<char> {
    if board == "development"@ {
        if status == "backlog"@ || status == "planning"@ || status == "ready"@ {
            "provisioning"@
        } else if status == "in_progress"@ {
            "underway"@
        } else if status == "review"@ {
            "approaching"@
        } else {
            ""@
        }
    } else if board == "research"@ && status == "active"@ {
        "active"@
    } else {
        ""@
    }
}

/// The category of states that a limit is set for; empty for states without a limit.
pub fn status_to_wip_category(status: &str, board_name: &str) -> (r: &'static str)
    ensures
        r@ == category_spec(status@, board_name@),
{
    if text::same(board_name, "development") {
        if text::same(status, "backlog") || text::same(status, "planning") || text::same(
            status,
            "ready",
        ) {
            "provisioning"
        } else if text::same(status, "in_progress") {
            "underway"
        } else if text::same(status, "review") {
            "approaching"
        } else {
            ""
        }
    } else if text::same(board_name, "research") && text::same(status, "active") {
        "active"
    } else {
        ""
    }
}

/// Whether the limit of a state is reached, for items of a type. A state without a
/// category has no limit, whatever limits the board sets.
pub open spec fn limit_reached(
    board: BoardConfig,
    status: Seq<char>,
    count: u32,
    item_type: Seq<char>,
) -> bool {
    &&& !text::views(board.wip_exempt_types@).contains(item_type)
    &&& category_spec(status, board.name@).len() > 0
    &&& board.limit(category_spec(status, board.name@)) is Some
    &&& count >= board.limit(category_spec(status, board.name@))->0
}

/// Whether one more item of a type may enter a state.
pub fn check_wip_limit(
    board: &BoardConfig,
    target_status: &str,
    current_count: u32,
    item_type: &str,
) -> (r: Result<(), StateError>)
    ensures
        r is Err == limit_reached(*board, target_status@, current_count, item_type@),
        r is Err ==> r->Err_0@ == (StateErrorView::WipLimitReached {
            status: target_status@,
            current: current_count,
            limit: board.limit(category_spec(target_status@, board.name@))->0,
        }),
{
    if board.is_wip_exempt(item_type) {
        return Ok(());
    }
    let category: &str = status_to_wip_category(target_status, board.name.as_str());
    if category.is_empty() {
        return Ok(());
    }
    match board.wip_limit(category) {
        Some(limit) => if current_count >= limit {
            Err(
                StateError::WipLimitReached {
                    status: text::owned(target_status),
                    current: current_count,
                    limit,
                },
            )
        } else {
            Ok(())
        },
        None => Ok(()),
    }
}

// ---- statuses --------------------------------------------------------------------------------------

/// Every status that a lifecycle can give an item, on any board.
pub const VALID_STATUSES: [&'static str; 20] = [
    "backlog",
    "in_progress",
    "review",
    "done",
    "blocked",
    "draft",
    "active",
    "retired",
    "complete",
    "abandoned",
    "planned",
    "running",
    "outline",
    "writing",
    "captured",
    "formalized",
    "planning",
    "ready",
    "stale",
    "refining",
];

pub open spec fn statuses() -> Seq<Seq<char>> {
    Seq::new(20, |i: int| VALID_STATUSES@[i]@)
}

fn all_statuses() -> (r: Vec<String>)
    ensures
        text::views(r@) == statuses(),
{
    let names: [&'static str; 20] = VALID_STATUSES;
    let mut list: Vec<String> = Vec::new();
    let mut i: usize = 0;
    while i < 20
        invariant
            i <= 20,
            names == VALID_STATUSES,
            list@.len() == i,
            forall|k: int| 0 <= k < i ==> (#[trigger] list@[k])@ == names@[k]@,
        decreases 20 - i,
    {
        list.push(text::owned(names[i]));
        i = i + 1;
    }
    assert(text::views(list@) =~= statuses());
    list
}

/// Refuses to look for a status that no item can have, and names those that an item can
/// have. A status that no item happens to have is no error.
pub fn validate_status_filter(status: &str) -> (r: Result<(), String>)
    ensures
        r is Ok == statuses().contains(status@),
        r is Err ==> r->Err_0@ == "unknown --status '"@ + status@ + "' — valid statuses: "@
            + text::join_spec(statuses(), ", "@),
{
    let list: Vec<String> = all_statuses();
    if text::contains_string(&list, status) {
        return Ok(());
    }
    let mut message: String = text::owned("unknown --status '");
    message.append(status);
    message.append("' — valid statuses: ");
    let names: String = text::join(&list, ", ");
    message.append(names.as_str());
    Err(message)
}

// ---- what holds of moves ---------------------------------------------------------------------------

/// To move an item to the state it is in is allowed, in every state of its lifecycle.
pub proof fn law_staying_is_allowed(
    states: Seq<Seq<char>>,
    at: Seq<char>,
    board: Seq<char>,
)
    requires
        states.contains(at),
    ensures
        lifecycle_verdict(states, at, at, board) is Ok,
{
}

/// An item that is not closed may move to every state of its lifecycle, forward or
/// back.
pub proof fn law_open_items_move_freely(
    states: Seq<Seq<char>>,
    from: Seq<char>,
    to: Seq<char>,
    board: Seq<char>,
)
    requires
        states.contains(from),
        states.contains(to),
        !is_terminal(from),
    ensures
        lifecycle_verdict(states, from, to, board) is Ok,
{
}

/// A closed item may not move back.
pub proof fn law_closed_items_stay_closed(
    states: Seq<Seq<char>>,
    from: Seq<char>,
    to: Seq<char>,
    board: Seq<char>,
)
    requires
        states.contains(from),
        states.contains(to),
        is_terminal(from),
        place(states, to) < place(states, from),
    ensures
        lifecycle_verdict(states, from, to, board) == Err::<(), StateErrorView>(
            StateErrorView::InvalidTransition { from, to, board },
        ),
{
}

/// The verdict of a type's lifecycle agrees with what the board allows: where it is
/// `Legal` the board allows the move, and where it is `Illegal` the board refuses it.
pub proof fn law_type_verdict_agrees(
    model: Seq<StateView>,
    board: BoardConfig,
    from: Seq<char>,
    to: Seq<char>,
    item_type: Seq<char>,
)
    ensures
        type_verdict_spec(board, from, to, item_type) is Legal ==> move_verdict(
            model,
            board,
            from,
            to,
            Some(item_type),
        ) is Ok,
        type_verdict_spec(board, from, to, item_type) is Illegal ==> move_verdict(
            model,
            board,
            from,
            to,
            Some(item_type),
        ) is Err,
{
}

proof fn lemma_targets(states: Seq<Seq<char>>, from: Seq<char>, board: Seq<char>, n: nat, t: Seq<char>)
    requires
        n <= states.len(),
    ensures
        targets_spec(states, from, board, n).contains(t) <==> (t != from && lifecycle_verdict(
            states,
            from,
            t,
            board,
        ) is Ok && states.take(n as int).contains(t)),
    decreases n,
{
    if n > 0 {
        let m = (n - 1) as nat;
        lemma_targets(states, from, board, m, t);
        let last = states[n - 1];
        let before = targets_spec(states, from, board, m);
        let now = targets_spec(states, from, board, n);
        assert(states.take(n as int) =~= states.take(m as int).push(last));
        lemma_push(states.take(m as int), last, t);
        lemma_push(before, last, t);
        assert(now == before || now == before.push(last));
    }
}

proof fn lemma_push(list: Seq<Seq<char>>, last: Seq<char>, t: Seq<char>)
    ensures
        list.push(last).contains(t) <==> list.contains(t) || t == last,
{
    let longer = list.push(last);
    if list.contains(t) {
        let k = choose|k: int| 0 <= k < list.len() && list[k] == t;
        assert(longer[k] == t);
    }
    if t == last {
        assert(longer[list.len() as int] == t);
    }
    if longer.contains(t) {
        let k = choose|k: int| 0 <= k < longer.len() && longer[k] == t;
        if k < list.len() {
            assert(list[k] == t);
        }
    }
}

/// A refusal by the lifecycle of a type names exactly the other states that the board
/// does allow the item to move to.
pub proof fn law_refusal_names_what_is_allowed(
    model: Seq<StateView>,
    board: BoardConfig,
    from: Seq<char>,
    to: Seq<char>,
    item_type: Seq<char>,
    t: Seq<char>,
)
    requires
        type_verdict_spec(board, from, to, item_type) is Illegal,
    ensures
        type_verdict_spec(board, from, to, item_type)->legal_targets.contains(t) <==> (t != from
            && move_verdict(model, board, from, t, Some(item_type)) is Ok),
{
    let states = board.lifecycle(item_type)->0;
    lemma_targets(states, from, board.name@, states.len(), t);
    assert(states.take(states.len() as int) =~= states);
}

/// Whether every state of a model is a status that can be looked for.
pub open spec fn states_are_statuses(model: Seq<StateView>) -> bool {
    forall|i: int| 0 <= i < model.len() ==> statuses().contains((#[trigger] model[i]).name)
}

/// Every state of the fixed model is a status that can be looked for.
pub proof fn law_fixed_states_are_statuses()
    ensures
        states_are_statuses(state_model::fallback_spec()),
{
    assert(statuses()[0] == "backlog"@);
    assert(statuses()[1] == "in_progress"@);
    assert(statuses()[2] == "review"@);
    assert(statuses()[3] == "done"@);
}

/// Every terminal state is a status that can be looked for.
pub proof fn law_terminal_states_are_statuses(status: Seq<char>)
    requires
        is_terminal(status),
    ensures
        statuses().contains(status),
{
    assert(statuses()[3] == "done"@);
    assert(statuses()[7] == "retired"@);
    assert(statuses()[8] == "complete"@);
    assert(statuses()[9] == "abandoned"@);
}

// ---- moves, by their words -----------------------------------------------------------------------------------

/// Whether a status is one of the four that close an item.
pub open spec fn is_closing_word(s: Seq<char>) -> bool {
    s == "done"@ || s == "complete"@ || s == "abandoned"@ || s == "retired"@
}

/// A resolution is one of seven words, and only for an item that is closed; without one
/// there is nothing to refuse.
pub proof fn law_resolutions_close_items(resolution: Option<Seq<char>>, status: Seq<char>)
    ensures
        ({
            let verdict = resolution_verdict(resolution, status);
            let known = resolution matches Some(r) && (r == "completed"@ || r == "superseded"@ || r
                == "wont_do"@ || r == "duplicate"@ || r == "obsolete"@ || r == "merged"@ || r
                == "refuted"@);
            &&& verdict is Ok <==> resolution is None || (known && is_closing_word(status))
            &&& (resolution is Some && !known) ==> verdict == Err::<(), StateErrorView>(
                StateErrorView::InvalidResolution { resolution: resolution->0 },
            )
            &&& (known && !is_closing_word(status)) ==> verdict == Err::<(), StateErrorView>(
                StateErrorView::ResolutionOnNonTerminal { status },
            )
        }),
{
}

/// Whether a state stands first at a place.
pub open spec fn stands_first_at(states: Seq<Seq<char>>, i: int) -> bool {
    0 <= i < states.len() && forall|k: int| 0 <= k < i ==> #[trigger] states[k] != states[i]
}

/// Within a lifecycle every move is allowed but those that lead back out of a state that
/// closes an item.
pub proof fn law_only_reopening_is_refused(
    states: Seq<Seq<char>>,
    i: int,
    j: int,
    board: Seq<char>,
)
    requires
        stands_first_at(states, i),
        stands_first_at(states, j),
    ensures
        lifecycle_verdict(states, states[i], states[j], board) is Err <==> is_closing_word(
            states[i],
        ) && j < i,
{
    lemma_first_place(states, i);
    lemma_first_place(states, j);
}

proof fn lemma_first_place(states: Seq<Seq<char>>, i: int)
    requires
        stands_first_at(states, i),
    ensures
        states.contains(states[i]),
        place(states, states[i]) == i,
{
    states.index_of_first_ensures(states[i]);
    let k = place(states, states[i]);
    if i < k {
        assert(states[i] != states[i]);
    } else if k < i {
        assert(states[k] != states[i]);
    }
}

/// On the development board a type without a lifecycle of its own follows the model: from
/// one state of the model to another exactly the moves that the first lists are allowed.
pub proof fn law_development_follows_the_model(
    model: Seq<StateView>,
    board: BoardConfig,
    item_type: Option<Seq<char>>,
    i: int,
    j: int,
)
    requires
        board.name@ == "development"@,
        item_type matches Some(t) ==> forall|k: int|
            0 <= k < board.type_states@.len() ==> (#[trigger] board.type_states@[k]).0@ != t,
        0 <= i < model.len(),
        0 <= j < model.len(),
        forall|k: int| 0 <= k < i ==> (#[trigger] model[k]).name != model[i].name,
        model[i].name != model[j].name,
    ensures
        move_verdict(model, board, model[i].name, model[j].name, item_type) is Ok
            <==> model[i].transitions_to.contains(model[j].name),
        move_verdict(model, board, model[i].name, model[i].name, item_type) is Ok,
{
    if item_type is Some {
        config::law_the_last_entry_counts(board.type_states@, item_type->0);
    }
    lemma_state_at(model, i);
    lemma_state_there(model, j);
}

proof fn lemma_state_there(model: Seq<StateView>, j: int)
    requires
        0 <= j < model.len(),
    ensures
        state_model::state_named(model, model[j].name) is Some,
    decreases model.len(),
{
    if j < model.len() - 1 {
        lemma_state_there(model.drop_last(), j);
    }
}

proof fn lemma_state_at(model: Seq<StateView>, i: int)
    requires
        0 <= i < model.len(),
        forall|k: int| 0 <= k < i ==> (#[trigger] model[k]).name != model[i].name,
    ensures
        state_model::state_named(model, model[i].name) == Some(model[i]),
    decreases model.len(),
{
    let init = model.drop_last();
    if i < model.len() - 1 {
        assert forall|k: int| 0 <= k < i implies (#[trigger] init[k]).name != init[i].name by {
            assert(model[k].name != model[i].name);
        }
        lemma_state_at(init, i);
    } else {
        lemma_state_absent(init, model[i].name);
    }
}

proof fn lemma_state_absent(model: Seq<StateView>, name: Seq<char>)
    requires
        forall|k: int| 0 <= k < model.len() ==> (#[trigger] model[k]).name != name,
    ensures
        state_model::state_named(model, name) is None,
    decreases model.len(),
{
    if model.len() > 0 {
        let init = model.drop_last();
        assert forall|k: int| 0 <= k < init.len() implies (#[trigger] init[k]).name != name by {
            assert(model[k].name != name);
        }
        lemma_state_absent(init, name);
        assert(model[model.len() - 1].name != name);
    }
}

/// On every other board, and for a type with a lifecycle of its own, the order of the
/// states decides; a state that is not among them is refused by name.
pub proof fn law_other_moves_follow_the_states(
    model: Seq<StateView>,
    board: BoardConfig,
    item_type: Option<Seq<char>>,
    from: Seq<char>,
    to: Seq<char>,
)
    requires
        board.name@ != "development"@ || exists|l: int|
            item_type is Some && config::is_last_with_key(board.type_states@, l, item_type->0),
    ensures
        ({
            let states = board.states_of(item_type);
            let verdict = move_verdict(model, board, from, to, item_type);
            &&& !states.contains(from) ==> verdict == Err::<(), StateErrorView>(
                StateErrorView::InvalidState { state: from, board: board.name@ },
            )
            &&& states.contains(from) && !states.contains(to) ==> verdict == Err::<
                (),
                StateErrorView,
            >(StateErrorView::InvalidState { state: to, board: board.name@ })
            &&& forall|i: int, j: int|
                #![trigger stands_first_at(states, i), stands_first_at(states, j)]
                stands_first_at(states, i) && stands_first_at(states, j) && states[i] == from
                    && states[j] == to ==> (verdict is Err <==> is_closing_word(from) && j < i)
        }),
{
    if item_type is Some {
        config::law_the_last_entry_counts(board.type_states@, item_type->0);
    }
    let states = board.states_of(item_type);
    assert forall|i: int, j: int|
        #![trigger stands_first_at(states, i), stands_first_at(states, j)]
        stands_first_at(states, i) && stands_first_at(states, j) && states[i] == from && states[j]
            == to implies (move_verdict(model, board, from, to, item_type) is Err
        <==> is_closing_word(from) && j < i) by {
        law_only_reopening_is_refused(states, i, j, board.name@);
    }
}

/// Whether a status is counted in a category on a board.
pub open spec fn is_counted_in(board: Seq<char>, status: Seq<char>, category: Seq<char>) -> bool {
    ||| board == "development"@ && category == "provisioning"@ && (status == "backlog"@ || status
        == "planning"@ || status == "ready"@)
    ||| board == "development"@ && category == "underway"@ && status == "in_progress"@
    ||| board == "development"@ && category == "approaching"@ && status == "review"@
    ||| board == "research"@ && category == "active"@ && status == "active"@
}

proof fn lemma_category(board: Seq<char>, status: Seq<char>, category: Seq<char>)
    ensures
        (category_spec(status, board).len() > 0 && category_spec(status, board) == category)
            == is_counted_in(board, status, category),
{
    reveal_strlit("");
    reveal_strlit("provisioning");
    reveal_strlit("underway");
    reveal_strlit("approaching");
    reveal_strlit("active");
    reveal_strlit("development");
    reveal_strlit("research");
    reveal_strlit("backlog");
    reveal_strlit("planning");
    reveal_strlit("ready");
    reveal_strlit("in_progress");
    reveal_strlit("review");
    assert("development"@[0] == 'd' && "research"@[0] == 'r');
    assert("backlog"@[0] == 'b' && "planning"@[0] == 'p' && "in_progress"@[0] == 'i');
    assert("ready"@[2] == 'a' && "review"@[2] == 'v');
}

/// A move is refused for a limit if and only if the status is counted in a category, the
/// board has a limit on it that is reached, and the type is not exempt.
pub proof fn law_limits_hold_by_category(
    board: BoardConfig,
    status: Seq<char>,
    count: u32,
    item_type: Seq<char>,
)
    ensures
        limit_reached(board, status, count, item_type) <==> (forall|t: int|
            0 <= t < board.wip_exempt_types@.len() ==> (#[trigger] board.wip_exempt_types@[t])@
                != item_type) && exists|category: Seq<char>, l: int| #[trigger]
            config::is_last_with_key(board.wip_limits@, l, category) && is_counted_in(
                board.name@,
                status,
                category,
            ) && count >= board.wip_limits@[l].1,
{
    let category = category_spec(status, board.name@);
    let exempt = text::views(board.wip_exempt_types@);
    config::law_the_last_entry_counts(board.wip_limits@, category);
    lemma_category(board.name@, status, category);
    if exempt.contains(item_type) {
        let t = choose|t: int| 0 <= t < exempt.len() && exempt[t] == item_type;
        assert(board.wip_exempt_types@[t]@ == item_type);
    } else {
        assert forall|t: int| 0 <= t < board.wip_exempt_types@.len() implies (
        #[trigger] board.wip_exempt_types@[t])@ != item_type by {
            assert(exempt[t] == board.wip_exempt_types@[t]@);
            assert(exempt.contains(exempt[t]));
        }
    }
    if exists|c: Seq<char>, l: int| #[trigger]
        config::is_last_with_key(board.wip_limits@, l, c) && is_counted_in(board.name@, status, c)
            && count >= board.wip_limits@[l].1 {
        let (c, l) = choose|c: Seq<char>, l: int| #[trigger]
            config::is_last_with_key(board.wip_limits@, l, c) && is_counted_in(
                board.name@,
                status,
                c,
            ) && count >= board.wip_limits@[l].1;
        lemma_category(board.name@, status, c);
        assert(c == category);
    }
    if board.limit(category) is Some {
        let l = choose|l: int| #[trigger]
            config::is_last_with_key(board.wip_limits@, l, category) && board.wip_limits@[l].1
                == board.limit(category)->0;
        assert(config::is_last_with_key(board.wip_limits@, l, category));
    }
}

/// An item can have one of twenty statuses, and can be looked for by these alone.
pub proof fn law_statuses_are_twenty(s: Seq<char>)
    ensures
        statuses().contains(s) <==> s == "backlog"@ || s == "in_progress"@ || s == "review"@ || s
            == "done"@ || s == "blocked"@ || s == "draft"@ || s == "active"@ || s == "retired"@ || s
            == "complete"@ || s == "abandoned"@ || s == "planned"@ || s == "running"@ || s
            == "outline"@ || s == "writing"@ || s == "captured"@ || s == "formalized"@ || s
            == "planning"@ || s == "ready"@ || s == "stale"@ || s == "refining"@,
{
    let all = statuses();
    assert(all[0] == "backlog"@ && all[1] == "in_progress"@ && all[2] == "review"@ && all[3]
        == "done"@ && all[4] == "blocked"@ && all[5] == "draft"@ && all[6] == "active"@ && all[7]
        == "retired"@ && all[8] == "complete"@ && all[9] == "abandoned"@ && all[10] == "planned"@
        && all[11] == "running"@ && all[12] == "outline"@ && all[13] == "writing"@ && all[14]
        == "captured"@ && all[15] == "formalized"@ && all[16] == "planning"@ && all[17] == "ready"@
        && all[18] == "stale"@ && all[19] == "refining"@);
}

proof fn lemma_names_part(a: Seq<char>, part: Seq<char>, b: Seq<char>)
    ensures
        text::contains_spec(a + part + b, part),
{
    assert(part.subrange(0, part.len() as int) =~= part);
    assert(text::occurs_at(part, part, 0));
    text::lemma_contains_in_part(a, part, b, part);
}

proof fn lemma_part_stays(a: Seq<char>, b: Seq<char>, part: Seq<char>)
    requires
        text::contains_spec(a, part),
    ensures
        text::contains_spec(a + b, part),
{
    let none = Seq::<char>::empty();
    text::lemma_contains_in_part(none, a, b, part);
    assert(none + a + b =~= a + b);
}

proof fn lemma_part_ends(a: Seq<char>, part: Seq<char>)
    ensures
        text::contains_spec(a + part, part),
{
    let none = Seq::<char>::empty();
    lemma_names_part(a, part, none);
    assert(a + part + none =~= a + part);
}

/// The refusal of a move names both states and what refuses it: the board, or the moves
/// that are allowed instead.
pub proof fn law_refusals_name_the_states(from: Seq<char>, to: Seq<char>, other: Seq<char>)
    ensures
        text::contains_spec(
            message_spec(StateErrorView::InvalidTransition { from, to, board: other }),
            from,
        ),
        text::contains_spec(
            message_spec(StateErrorView::InvalidTransition { from, to, board: other }),
            to,
        ),
        text::contains_spec(
            message_spec(StateErrorView::InvalidTransition { from, to, board: other }),
            other,
        ),
        text::contains_spec(
            message_spec(StateErrorView::IllegalPerModel { from, to, targets: other }),
            to,
        ),
        text::contains_spec(
            message_spec(StateErrorView::IllegalPerModel { from, to, targets: other }),
            other,
        ),
{
    let a = "Invalid transition: '"@ + from;
    let b = a + "' → '"@ + to;
    let c = b + "' is not allowed on board '"@ + other;
    lemma_part_ends("Invalid transition: '"@, from);
    lemma_part_stays(a, "' → '"@, from);
    lemma_part_stays(a + "' → '"@, to, from);
    lemma_part_stays(b, "' is not allowed on board '"@, from);
    lemma_part_stays(b + "' is not allowed on board '"@, other, from);
    lemma_part_stays(c, "'"@, from);
    lemma_part_ends(a + "' → '"@, to);
    lemma_part_stays(b, "' is not allowed on board '"@, to);
    lemma_part_stays(b + "' is not allowed on board '"@, other, to);
    lemma_part_stays(c, "'"@, to);
    lemma_part_ends(b + "' is not allowed on board '"@, other);
    lemma_part_stays(c, "'"@, other);
    let d = b + "' is not in the lifecycle model. Legal from '"@;
    lemma_part_stays(b, "' is not in the lifecycle model. Legal from '"@, to);
    lemma_part_stays(d, from, to);
    lemma_part_stays(d + from, "': "@, to);
    lemma_part_stays(d + from + "': "@, other, to);
    lemma_part_ends(d + from + "': "@, other);
}

/// The refusal for a limit says how many items there are and how many there may be.
pub proof fn law_refusals_say_the_numbers(status: Seq<char>, current: u32, limit: u32)
    ensures
        ("WIP limit reached: "@ + text::decimal_spec(current as nat) + "/"@ + text::decimal_spec(
            limit as nat,
        )).is_prefix_of(
            message_spec(StateErrorView::WipLimitReached { status, current, limit }),
        ),
        text::contains_spec(
            message_spec(StateErrorView::WipLimitReached { status, current, limit }),
            status,
        ),
{
    let head = "WIP limit reached: "@ + text::decimal_spec(current as nat) + "/"@
        + text::decimal_spec(limit as nat);
    let all = message_spec(StateErrorView::WipLimitReached { status, current, limit });
    assert(head.is_prefix_of(all));
    lemma_part_ends(head + " items at '"@, status);
    lemma_part_stays(head + " items at '"@ + status, "' (use --force to override)"@, status);
}

} // verus!
