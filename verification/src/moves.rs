//! Commands that change items: what they are allowed to do, and what they say.
use vstd::prelude::*;
use vstd::string::StringExecFns;
use crate::config::BoardConfig;
use crate::critical_path;
use crate::critical_path::{ItemInfo, ItemView};
use crate::ontology;
use crate::parquet_store::{Commit, CommitsTable};
use crate::relation_vocab;
use crate::request::Command;
use crate::state_machine;
use crate::state_machine::{StateError, StateErrorView};
use crate::state_model;
use crate::state_model::StateView;
use crate::text;

verus! {

// ---- statuses that commands look for -------------------------------------------------------------

/// The status that a command looks for, if it takes one.
pub open spec fn status_filter(command: Command) -> Option<Seq<char>> {
    match command {
        Command::List { status, .. } => relation_vocab::option_view(status),
        Command::Validate { status, .. } => relation_vocab::option_view(status),
        Command::Export { status, .. } => relation_vocab::option_view(status),
        _ => None,
    }
}

fn filter_of(command: &Command) -> (r: &Option<String>)
    ensures
        relation_vocab::option_view(*r) == status_filter(*command),
{
    match command {
        Command::List { status, .. } => status,
        Command::Validate { status, .. } => status,
        Command::Export { status, .. } => status,
        _ => &None,
    }
}

/// Refuses a command that looks for a status no item can have.
pub fn check_status_filter(command: &Command) -> (r: Result<(), String>)
    ensures
        r is Ok == (status_filter(*command) is Some ==> state_machine::statuses().contains(
            status_filter(*command)->0,
        )),
        r is Err ==> r->Err_0@ == "unknown --status '"@ + status_filter(*command)->0
            + "' — valid statuses: "@ + text::join_spec(state_machine::statuses(), ", "@),
{
    match filter_of(command) {
        Some(status) => state_machine::validate_status_filter(status.as_str()),
        None => Ok(()),
    }
}

// ---- moves ----------------------------------------------------------------------------------------

/// The verdict on moving an item: its resolution has to be one for the status, and unless
/// the move is forced the board has to allow it and have room for it.
pub open spec fn move_check(
    model: Seq<StateView>,
    board: BoardConfig,
    from: Seq<char>,
    to: Seq<char>,
    item_type: Seq<char>,
    resolution: Option<Seq<char>>,
    force: bool,
    count: u32,
) -> Result<(), StateErrorView> {
    match state_machine::resolution_verdict(resolution, to) {
        Err(e) => Err(e),
        Ok(_) => if force {
            Ok(())
        } else {
            match state_machine::move_verdict(model, board, from, to, Some(item_type)) {
                Err(e) => Err(e),
                Ok(_) => if state_machine::limit_reached(board, to, count, item_type) {
                    Err(
                        StateErrorView::WipLimitReached {
                            status: to,
                            current: count,
                            limit: board.limit(
                                state_machine::category_spec(to, board.name@),
                            )->0,
                        },
                    )
                } else {
                    Ok(())
                },
            }
        },
    }
}

/// Whether an item may be moved, given how many items have the status already.
pub fn check_move(
    board: &BoardConfig,
    from: &str,
    to: &str,
    item_type: &str,
    resolution: Option<&str>,
    force: bool,
    count: u32,
) -> (r: Result<(), StateError>)
    ensures
        ({
            let verdict = move_check(
                state_model::model_spec(ontology::kanban_text()),
                *board,
                from@,
                to@,
                item_type@,
                relation_vocab::str_view(resolution),
                force,
                count,
            );
            &&& r is Ok == verdict is Ok
            &&& r is Err ==> r->Err_0@ == verdict->Err_0
        }),
{
    match state_machine::validate_resolution(resolution, to) {
        Ok(_) => {},
        Err(error) => return Err(error),
    }
    if force {
        return Ok(());
    }
    match state_machine::validate_transition_for_type(board, from, to, Some(item_type)) {
        Ok(_) => {},
        Err(error) => return Err(error),
    }
    state_machine::check_wip_limit(board, to, count, item_type)
}

/// How many of the first `n` items have a status and are of a type that counts towards
/// the limits of a board.
pub open spec fn counted(items: Seq<ItemView>, status: Seq<char>, exempt: Seq<Seq<char>>, n: nat) -> nat
    decreases n,
{
    if n == 0 {
        0
    } else {
        counted(items, status, exempt, (n - 1) as nat) + if items[n - 1].status == status
            && !exempt.contains(items[n - 1].item_type) {
            1nat
        } else {
            0nat
        }
    }
}

/// How many items have a status and are of a type that counts towards the limits of a
/// board.
pub fn count_at_status(items: &[ItemInfo], status: &str, board: &BoardConfig) -> (r: u32)
    requires
        items@.len() <= u32::MAX,
    ensures
        r == counted(
            critical_path::item_views(items@),
            status@,
            text::views(board.wip_exempt_types@),
            items@.len(),
        ),
{
    let ghost all = critical_path::item_views(items@);
    let ghost exempt = text::views(board.wip_exempt_types@);
    let mut count: u32 = 0;
    let mut i: usize = 0;
    while i < items.len()
        invariant
            i <= items@.len() <= u32::MAX,
            all == critical_path::item_views(items@),
            exempt == text::views(board.wip_exempt_types@),
            count == counted(all, status@, exempt, i as nat),
            count <= i,
        decreases items@.len() - i,
    {
        assert(all[i as int] == items@[i as int]@);
        if text::same(items[i].status.as_str(), status) && !board.is_wip_exempt(
            items[i].item_type.as_str(),
        ) {
            count = count + 1;
        }
        i = i + 1;
    }
    count
}

/// Whether a claim is refused: another agent has the item in progress already, and the
/// claim is not forced.
pub open spec fn claim_refused(
    from: Seq<char>,
    holder: Seq<char>,
    to: Seq<char>,
    agent: Option<Seq<char>>,
    force: bool,
) -> bool {
    &&& !force
    &&& to == "in_progress"@
    &&& from == "in_progress"@
    &&& holder.len() > 0
    &&& agent is Some
    &&& agent->0 != holder
}

/// Whether an agent may claim an item by moving it. An item in progress belongs to its
/// holder until the claim is forced.
pub fn check_claim(
    id: &str,
    from: &str,
    holder: &str,
    to: &str,
    agent: Option<&str>,
    force: bool,
) -> (r: Result<(), String>)
    ensures
        r is Err == claim_refused(from@, holder@, to@, relation_vocab::str_view(agent), force),
        r is Err ==> r->Err_0@ == id@ + " is already claimed by "@ + holder@
            + " (use --force to take it over)"@,
{
    match agent {
        Some(agent) => if !force && text::same(to, "in_progress") && text::same(
            from,
            "in_progress",
        ) && !holder.is_empty() && !text::same(agent, holder) {
            let mut message: String = text::owned(id);
            message.append(" is already claimed by ");
            message.append(holder);
            message.append(" (use --force to take it over)");
            Err(message)
        } else {
            Ok(())
        },
        None => Ok(()),
    }
}

/// What is said of a move.
pub fn move_message(id: &str, from: &str, to: &str, force: bool, resolution: Option<&str>) -> (r:
    String)
    ensures
        r@ == "Moved "@ + id@ + " from "@ + from@ + " to "@ + to@ + (if force {
            " (forced)"@
        } else {
            ""@
        }) + (match resolution {
            Some(res) => " [resolution: "@ + res@ + "]"@,
            None => Seq::empty(),
        }),
{
    let mut s: String = text::owned("Moved ");
    s.append(id);
    s.append(" from ");
    s.append(from);
    s.append(" to ");
    s.append(to);
    s.append(
        if force {
            " (forced)"
        } else {
            ""
        },
    );
    let ghost plain = s@;
    match resolution {
        Some(res) => {
            let mut note: String = text::owned(" [resolution: ");
            note.append(res);
            note.append("]");
            s.append(note.as_str());
        },
        None => {
            assert(s@ =~= plain + Seq::<char>::empty());
        },
    }
    s
}

// ---- ratification ----------------------------------------------------------------------------------

/// What came of ratifying a phase: an error where items are still pending, and else what
/// was done.
pub fn ratify_outcome(phase: &str, stripped: usize, voyages: &Vec<String>, remaining: usize) -> (r:
    Result<String, String>)
    ensures
        r is Err == (remaining != 0),
        r is Err ==> r->Err_0@ == "ratify "@ + phase@ + ": "@ + text::decimal_spec(
            remaining as nat,
        )
            + " item(s) still pending-ratification after strip (partial ratification — NOT sprint-started)"@,
        r is Ok ==> r->Ok_0@ == "Ratified "@ + phase@ + ": stripped pending-ratification from "@
            + text::decimal_spec(stripped as nat) + " item(s); started "@ + text::decimal_spec(
            voyages@.len(),
        ) + " voyage(s)"@ + (if voyages@.len() == 0 {
            Seq::empty()
        } else {
            " ("@ + text::join_spec(text::views(voyages@), ", "@) + ")"@
        }),
{
    if remaining != 0 {
        let mut message: String = text::owned("ratify ");
        message.append(phase);
        message.append(": ");
        let left: String = text::decimal(remaining);
        message.append(left.as_str());
        message.append(
            " item(s) still pending-ratification after strip (partial ratification — NOT sprint-started)",
        );
        return Err(message);
    }
    let mut s: String = text::owned("Ratified ");
    s.append(phase);
    s.append(": stripped pending-ratification from ");
    let count: String = text::decimal(stripped);
    s.append(count.as_str());
    s.append(" item(s); started ");
    let started: String = text::decimal(voyages.len());
    s.append(started.as_str());
    s.append(" voyage(s)");
    let ghost plain = s@;
    if voyages.len() > 0 {
        let mut note: String = text::owned(" (");
        let names: String = text::join(voyages, ", ");
        note.append(names.as_str());
        note.append(")");
        s.append(note.as_str());
    } else {
        assert(s@ =~= plain + Seq::<char>::empty());
    }
    Ok(s)
}

// ---- updates ----------------------------------------------------------------------------------------

/// A name, where something was given for it.
pub open spec fn name_when(given: bool, name: Seq<char>) -> Seq<Seq<char>> {
    if given {
        seq![name]
    } else {
        Seq::empty()
    }
}

/// The names of the fields that an update changes, given whether edges were added or
/// taken away.
pub open spec fn updated_spec(command: Command, added: bool, removed: bool) -> Seq<Seq<char>> {
    match command {
        Command::Update {
            title,
            priority,
            assign,
            tags,
            body,
            body_file,
            related,
            depends_on,
            ..
        } => name_when(title is Some, "title"@) + name_when(priority is Some, "priority"@)
            + name_when(assign is Some, "assignee"@) + name_when(tags is Some, "tags"@) + name_when(
            body is Some,
            "body"@,
        ) + name_when(body_file is Some, "body"@) + name_when(related is Some, "related"@)
            + name_when(depends_on is Some, "depends_on"@) + name_when(
            added,
            "relationships_added"@,
        ) + name_when(removed, "relationships_removed"@),
        _ => Seq::empty(),
    }
}

fn push_name(names: &mut Vec<String>, given: bool, name: &str)
    ensures
        text::views(final(names)@) == text::views(old(names)@) + name_when(given, name@),
{
    let ghost before = text::views(names@);
    if given {
        names.push(text::owned(name));
    }
    assert(text::views(names@) =~= before + name_when(given, name@));
}

/// The names of the fields that an update changes.
pub fn updated_fields(command: &Command, added: bool, removed: bool) -> (r: Vec<String>)
    requires
        command is Update,
    ensures
        text::views(r@) == updated_spec(*command, added, removed),
{
    let mut names: Vec<String> = Vec::new();
    assert(text::views(names@) =~= Seq::<Seq<char>>::empty());
    if let Command::Update {
        title,
        priority,
        assign,
        tags,
        body,
        body_file,
        related,
        depends_on,
        ..
    } = command {
        push_name(&mut names, title.is_some(), "title");
        push_name(&mut names, priority.is_some(), "priority");
        push_name(&mut names, assign.is_some(), "assignee");
        push_name(&mut names, tags.is_some(), "tags");
        push_name(&mut names, body.is_some(), "body");
        push_name(&mut names, body_file.is_some(), "body");
        push_name(&mut names, related.is_some(), "related");
        push_name(&mut names, depends_on.is_some(), "depends_on");
        push_name(&mut names, added, "relationships_added");
        push_name(&mut names, removed, "relationships_removed");
        assert(text::views(names@) =~= updated_spec(*command, added, removed));
    }
    names
}

/// What is said of an update.
pub fn update_message(id: &str, updated: &Vec<String>) -> (r: String)
    ensures
        r@ == (if updated@.len() == 0 {
            "No fields specified to update. Use --title, --priority, --assign, --tags, --body, --body-file, --related, --depends-on, --relate, or --unrelate."@
        } else {
            "Updated "@ + id@ + ": "@ + text::join_spec(text::views(updated@), ", "@)
        }),
{
    if updated.len() == 0 {
        return text::owned(
            "No fields specified to update. Use --title, --priority, --assign, --tags, --body, --body-file, --related, --depends-on, --relate, or --unrelate.",
        );
    }
    let mut s: String = text::owned("Updated ");
    s.append(id);
    s.append(": ");
    let names: String = text::join(updated, ", ");
    s.append(names.as_str());
    s
}

// ---- commits -----------------------------------------------------------------------------------------

/// What is said of a new item.
pub fn created_message(verb: &str, id: &str, title: &str) -> (r: String)
    ensures
        r@ == verb@ + " "@ + id@ + ": "@ + title@,
{
    let mut s: String = text::owned(verb);
    s.append(" ");
    s.append(id);
    s.append(": ");
    s.append(title);
    s
}

/// The commit of a new item, after the last one of a log.
pub fn creation_commit(
    log: &CommitsTable,
    commit_id: String,
    timestamp_ms: i64,
    id: &str,
    title: &str,
) -> (r: Commit)
    ensures
        r.commit_id == commit_id,
        r.timestamp_ms == timestamp_ms,
        r.message@ == "Create"@ + " "@ + id@ + ": "@ + title@,
        r.author@ == "arrow-kanban"@,
        text::views(r.parent_ids@) == (if log@.len() == 0 {
            Seq::empty()
        } else {
            seq![log@.last().commit_id@]
        }),
{
    let commits: &[Commit] = log.all();
    let mut parent_ids: Vec<String> = Vec::new();
    if commits.len() > 0 {
        parent_ids.push(commits[commits.len() - 1].commit_id.clone());
    }
    assert(text::views(parent_ids@) =~= (if log@.len() == 0 {
        Seq::empty()
    } else {
        seq![log@.last().commit_id@]
    }));
    Commit {
        commit_id,
        parent_ids,
        timestamp_ms,
        message: created_message("Create", id, title),
        author: text::owned("arrow-kanban"),
    }
}

/// What to do after an attempt to push.
#[derive(Debug, Clone, Copy, PartialEq, Eq, Structural)]
pub enum PushStep {
    Done,
    /// Take over what others have pushed, and try again.
    Rebase,
    GiveUp,
}

/// What to do after an attempt to push: three are made.
pub fn after_push(attempt: u32, success: bool) -> (r: PushStep)
    ensures
        r == (if success {
            PushStep::Done
        } else if attempt < 3 {
            PushStep::Rebase
        } else {
            PushStep::GiveUp
        }),
{
    if success {
        PushStep::Done
    } else if attempt < 3 {
        PushStep::Rebase
    } else {
        PushStep::GiveUp
    }
}

// ---- what holds of commands -----------------------------------------------------------------------------

/// No forced move is refused for the state it leads to or for want of room.
pub proof fn law_force_overrides_the_board(
    model: Seq<StateView>,
    board: BoardConfig,
    from: Seq<char>,
    to: Seq<char>,
    item_type: Seq<char>,
    resolution: Option<Seq<char>>,
    count: u32,
)
    requires
        resolution is None,
    ensures
        move_check(model, board, from, to, item_type, resolution, true, count) is Ok,
{
}

/// Force does not make a resolution out of any word: one that is not known is refused.
pub proof fn law_force_does_not_override_resolutions(
    model: Seq<StateView>,
    board: BoardConfig,
    from: Seq<char>,
    to: Seq<char>,
    item_type: Seq<char>,
    resolution: Seq<char>,
    force: bool,
    count: u32,
)
    requires
        !state_machine::is_resolution(resolution),
    ensures
        move_check(model, board, from, to, item_type, Some(resolution), force, count) == Err::<
            (),
            StateErrorView,
        >(StateErrorView::InvalidResolution { resolution }),
{
}

/// Each commit of new items in a log names the one before it, so the log is a chain.
pub proof fn law_commits_form_a_chain(log: Seq<Commit>, next: Commit)
    requires
        log.len() > 0,
        text::views(next.parent_ids@) == seq![log.last().commit_id@],
    ensures
        text::views(log.push(next).last().parent_ids@).contains(
            log.push(next)[log.len() - 1].commit_id@,
        ),
{
    let parents = text::views(next.parent_ids@);
    assert(parents[0] == log.last().commit_id@);
}

// ---- moves as a whole ----------------------------------------------------------------------------------------

/// A move is allowed if and only if its resolution is, and it is forced, or the states
/// allow it and no limit is reached.
pub proof fn law_moves_pass_three_checks(
    model: Seq<StateView>,
    board: BoardConfig,
    from: Seq<char>,
    to: Seq<char>,
    item_type: Seq<char>,
    resolution: Option<Seq<char>>,
    force: bool,
    count: u32,
)
    ensures
        ({
            let verdict = move_check(model, board, from, to, item_type, resolution, force, count);
            let resolved = state_machine::resolution_verdict(resolution, to);
            let allowed = state_machine::move_verdict(model, board, from, to, Some(item_type));
            let full = state_machine::limit_reached(board, to, count, item_type);
            &&& verdict is Ok <==> resolved is Ok && (force || (allowed is Ok && !full))
            &&& resolved is Err ==> verdict == resolved
            &&& resolved is Ok && !force && allowed is Err ==> verdict == allowed
            &&& resolved is Ok && !force && allowed is Ok && full ==> (
            verdict matches Err(StateErrorView::WipLimitReached { status, current, limit })
                && status == to && current == count && current >= limit)
        }),
{
}

/// Items at a status are counted one by one, but for those of exempt types.
pub proof fn law_items_at_a_status_are_counted(
    items: Seq<ItemView>,
    status: Seq<char>,
    exempt: Seq<Seq<char>>,
    n: nat,
)
    requires
        n <= items.len(),
    ensures
        counted(items, status, exempt, n) == items.take(n as int).filter(
            |x: ItemView| x.status == status && !exempt.contains(x.item_type),
        ).len(),
    decreases n,
{
    reveal(Seq::filter);
    if n > 0 {
        let m = (n - 1) as nat;
        law_items_at_a_status_are_counted(items, status, exempt, m);
        assert(items.take(n as int).drop_last() =~= items.take(m as int));
        assert(items.take(n as int).last() == items[n - 1]);
    }
}

/// Work in progress stays with the agent that has it: another agent may take it only by
/// force. Whoever asks for no agent, for the same agent, for work that nobody has or that
/// is not in progress, is not refused.
pub proof fn law_claims_are_kept(
    from: Seq<char>,
    holder: Seq<char>,
    to: Seq<char>,
    agent: Option<Seq<char>>,
)
    ensures
        !claim_refused(from, holder, to, agent, true),
        claim_refused(from, holder, to, agent, false) <==> from == "in_progress"@ && to
            == "in_progress"@ && holder != Seq::<char>::empty() && agent != None::<Seq<char>> && agent
            != Some(holder),
{
    assert(holder.len() == 0 ==> holder =~= Seq::<char>::empty());
}

proof fn lemma_named(given: bool, name: Seq<char>, x: Seq<char>)
    ensures
        name_when(given, name).contains(x) <==> given && x == name,
{
    if given {
        assert(seq![name][0] == name);
    }
}

/// A change names exactly the fields that were given.
pub proof fn law_changes_name_their_fields(command: Command, added: bool, removed: bool, x: Seq<char>)
    requires
        command is Update,
    ensures
        updated_spec(command, added, removed).contains(x) <==> (x == "title"@
            && command->Update_title is Some) || (x == "priority"@ && command->Update_priority is Some)
            || (x == "assignee"@ && command->Update_assign is Some) || (x == "tags"@
            && command->Update_tags is Some) || (x == "body"@ && (command->Update_body is Some
            || command->Update_body_file is Some)) || (x == "related"@
            && command->Update_related is Some) || (x == "depends_on"@
            && command->Update_depends_on is Some) || (x == "relationships_added"@ && added) || (x
            == "relationships_removed"@ && removed),
{
    let c0 = name_when(command->Update_title is Some, "title"@);
    let c1 = name_when(command->Update_priority is Some, "priority"@);
    let c2 = name_when(command->Update_assign is Some, "assignee"@);
    let c3 = name_when(command->Update_tags is Some, "tags"@);
    let c4 = name_when(command->Update_body is Some, "body"@);
    let c5 = name_when(command->Update_body_file is Some, "body"@);
    let c6 = name_when(command->Update_related is Some, "related"@);
    let c7 = name_when(command->Update_depends_on is Some, "depends_on"@);
    let c8 = name_when(added, "relationships_added"@);
    let c9 = name_when(removed, "relationships_removed"@);
    lemma_named(command->Update_title is Some, "title"@, x);
    lemma_named(command->Update_priority is Some, "priority"@, x);
    lemma_named(command->Update_assign is Some, "assignee"@, x);
    lemma_named(command->Update_tags is Some, "tags"@, x);
    lemma_named(command->Update_body is Some, "body"@, x);
    lemma_named(command->Update_body_file is Some, "body"@, x);
    lemma_named(command->Update_related is Some, "related"@, x);
    lemma_named(command->Update_depends_on is Some, "depends_on"@, x);
    lemma_named(added, "relationships_added"@, x);
    lemma_named(removed, "relationships_removed"@, x);
    vstd::seq_lib::lemma_seq_concat_contains_all_elements(c0, c1, x);
    vstd::seq_lib::lemma_seq_concat_contains_all_elements(c0 + c1, c2, x);
    vstd::seq_lib::lemma_seq_concat_contains_all_elements(c0 + c1 + c2, c3, x);
    vstd::seq_lib::lemma_seq_concat_contains_all_elements(c0 + c1 + c2 + c3, c4, x);
    vstd::seq_lib::lemma_seq_concat_contains_all_elements(c0 + c1 + c2 + c3 + c4, c5, x);
    vstd::seq_lib::lemma_seq_concat_contains_all_elements(c0 + c1 + c2 + c3 + c4 + c5, c6, x);
    vstd::seq_lib::lemma_seq_concat_contains_all_elements(c0 + c1 + c2 + c3 + c4 + c5 + c6, c7, x);
    vstd::seq_lib::lemma_seq_concat_contains_all_elements(
        c0 + c1 + c2 + c3 + c4 + c5 + c6 + c7,
        c8,
        x,
    );
    vstd::seq_lib::lemma_seq_concat_contains_all_elements(
        c0 + c1 + c2 + c3 + c4 + c5 + c6 + c7 + c8,
        c9,
        x,
    );
}

/// The status that is asked for is looked at where items are listed, checked or exported.
pub proof fn law_three_commands_filter_by_status(command: Command, s: Seq<char>)
    ensures
        status_filter(command) == Some(s) <==> (command is List && (
        command->List_status matches Some(t) && t@ == s)) || (command is Validate && (
        command->Validate_status matches Some(t) && t@ == s)) || (command is Export && (
        command->Export_status matches Some(t) && t@ == s)),
{
}

} // verus!
