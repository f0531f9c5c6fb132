//! The commands of the board, and the requests they become for a server.
use vstd::prelude::*;
use crate::relation_vocab;
use crate::text;

verus! {

/// A command of the research board.
#[derive(Debug)]
pub enum HddCommand {
    /// Make a paper.
    Paper {
        title: String,
        tags: Option<String>,
    },
    /// Make a hypothesis of a paper.
    Hypothesis {
        title: String,
        paper: u32,
        tags: Option<String>,
    },
    /// Make an experiment on a hypothesis.
    Experiment {
        title: String,
        hypothesis: String,
        tags: Option<String>,
    },
    /// Make a measure.
    Measure {
        title: String,
        experiment: Option<String>,
        tags: Option<String>,
    },
    /// Make an idea.
    Idea {
        title: String,
        tags: Option<String>,
    },
    /// Make a reference to literature.
    Literature {
        title: String,
        tags: Option<String>,
    },
    /// Check the research board.
    Validate,
    /// Show what belongs to which paper.
    Registry,
    /// Start a run of an experiment.
    Run {
        experiment_id: String,
        agent: Option<String>,
    },
    /// Show the runs of an experiment.
    Status {
        experiment_id: String,
    },
    /// Complete a run.
    Complete {
        experiment_id: String,
        run: u32,
        results: Option<String>,
    },
}

/// A command.
#[derive(Debug)]
pub enum Command {
    /// Make a new item.
    Create {
        item_type: String,
        title: String,
        priority: Option<String>,
        assign: Option<String>,
        tags: Option<String>,
        body: Option<String>,
        body_file: Option<String>,
        body_stdin: bool,
        template: Option<String>,
        relate: Vec<String>,
        push: bool,
    },
    /// Move an item to another status.
    Move {
        id: String,
        status: String,
        assign: Option<String>,
        force: bool,
        resolution: Option<String>,
        closed_by: Option<String>,
    },
    /// Ratify a phase.
    Ratify {
        phase: String,
    },
    /// Change the fields of an item.
    Update {
        id: String,
        title: Option<String>,
        priority: Option<String>,
        assign: Option<String>,
        tags: Option<String>,
        body: Option<String>,
        body_file: Option<String>,
        related: Option<String>,
        depends_on: Option<String>,
        relate: Vec<String>,
        unrelate: Vec<String>,
    },
    /// Add a comment to an item.
    Comment {
        id: String,
        text: String,
    },
    /// List items.
    List {
        status: Option<String>,
        board: Option<String>,
        item_type: Option<String>,
        assignee: Option<String>,
        resolution: Option<String>,
        priority: Option<String>,
        tag: Vec<String>,
        ready: bool,
    },
    /// Show a board.
    Board {
        board: String,
    },
    /// Show an item.
    Show {
        id: String,
        format: String,
        relations: bool,
    },
    /// Search items.
    Query {
        query: Vec<String>,
        search: Option<String>,
        sparql: Option<String>,
        json: bool,
        verbose: bool,
        no_semantic: bool,
        top: usize,
        embedding_provider: Option<String>,
    },
    /// Show statistics of a board.
    Stats {
        board: String,
        velocity: bool,
        burndown: bool,
        by_agent: bool,
        since: Option<String>,
        weeks: u32,
    },
    /// Show what was completed.
    History {
        week: bool,
        month: bool,
        since: Option<String>,
        by_assignee: Option<String>,
    },
    /// Show the roadmap.
    Roadmap {
        flat: bool,
        ready: bool,
        campaign: Option<String>,
    },
    /// Show the critical path.
    CriticalPath,
    /// Show what each agent should work on.
    Worklist {
        agents: String,
        depth: usize,
    },
    /// Show blocked items.
    Blocked,
    /// Check items against their shapes.
    Validate {
        id: Option<String>,
        fix: bool,
        board: Option<String>,
        all: bool,
        status: Option<String>,
    },
    /// Write a board or an item in some format.
    Export {
        id: Option<String>,
        format: String,
        board: String,
        item_type: Option<String>,
        status: Option<String>,
        output: Option<String>,
    },
    /// Show the next free id of a type.
    NextId {
        item_type: String,
        json: bool,
    },
    /// Take over items from markdown files.
    Migrate {
        dry_run: bool,
    },
    /// A command of the research board.
    Hdd {
        command: HddCommand,
    },
    /// Rank an item.
    Rank {
        id: String,
        rank: u32,
    },
    /// Suggest the next item.
    Next {
        assignee: Option<String>,
    },
    /// Set up a board.
    Init {
        theme: String,
    },
    /// List the boards.
    Boards,
    /// Show the templates of bodies.
    Templates {
        item_type: Option<String>,
    },
    /// Serve the board over a protocol on standard input and output.
    McpServer {
        nats_url: String,
    },
    /// Write out an item and those around it.
    MaterializeItem {
        id: String,
        scope: String,
        depth: u32,
        output: Option<String>,
    },
    /// Take or list snapshots.
    Backup {
        list: bool,
        inspect: Option<String>,
    },
    /// Restore a snapshot.
    Restore {
        snapshot: String,
        force: bool,
    },
}

// ---- payloads ---------------------------------------------------------------------------------

/// A value in a request.
#[derive(Debug, PartialEq, Eq)]
pub enum Argument {
    Null,
    Flag(bool),
    Number(u64),
    Text(String),
    Texts(Vec<String>),
}

#[verifier::ext_equal]
pub enum ArgumentView {
    Null,
    Flag(bool),
    Number(u64),
    Text(Seq<char>),
    Texts(Seq<Seq<char>>),
}

impl View for Argument {
    type V = ArgumentView;

    open spec fn view(&self) -> ArgumentView {
        match *self {
            Argument::Null => ArgumentView::Null,
            Argument::Flag(b) => ArgumentView::Flag(b),
            Argument::Number(n) => ArgumentView::Number(n),
            Argument::Text(s) => ArgumentView::Text(s@),
            Argument::Texts(list) => ArgumentView::Texts(text::views(list@)),
        }
    }
}

/// The values of a request under their names, each name once.
pub type Payload = Vec<(String, Argument)>;

pub open spec fn payload_view(payload: Seq<(String, Argument)>) -> Seq<(Seq<char>, ArgumentView)> {
    Seq::new(payload.len(), |i: int| (payload[i].0@, payload[i].1@))
}

/// A value that may be missing.
pub open spec fn optional_spec(s: Option<String>) -> ArgumentView {
    match s {
        Some(s) => ArgumentView::Text(s@),
        None => ArgumentView::Null,
    }
}

/// The parts of a list with commas between them, trimmed.
pub open spec fn parts_spec(s: Seq<char>) -> Seq<Seq<char>> {
    Seq::new(
        text::split_spec(s, ',').len(),
        |i: int| text::trim_spec(text::split_spec(s, ',')[i]),
    )
}

/// The tags of a list with commas between them; none where there is no list.
pub open spec fn tags_spec(tags: Option<String>) -> Seq<Seq<char>> {
    match tags {
        Some(s) => parts_spec(s@),
        None => Seq::empty(),
    }
}

/// The parts of a list with commas between them, trimmed.
pub fn split_list(s: &str) -> (r: Vec<String>)
    ensures
        text::views(r@) == parts_spec(s@),
{
    let pieces: Vec<String> = text::split(s, ',');
    let ghost all = text::split_spec(s@, ',');
    let mut r: Vec<String> = Vec::new();
    let mut i: usize = 0;
    while i < pieces.len()
        invariant
            i <= pieces@.len(),
            all == text::views(pieces@),
            r@.len() == i,
            forall|k: int| 0 <= k < i ==> (#[trigger] r@[k])@ == text::trim_spec(all[k]),
        decreases pieces@.len() - i,
    {
        assert(all[i as int] == pieces@[i as int]@);
        r.push(text::trim(pieces[i].as_str()));
        i = i + 1;
    }
    assert(text::views(r@) =~= parts_spec(s@));
    r
}

/// The tags of a list with commas between them; none where there is no list.
pub fn parse_nats_tags(tags: &Option<String>) -> (r: Vec<String>)
    ensures
        text::views(r@) == tags_spec(*tags),
{
    match tags {
        Some(s) => split_list(s.as_str()),
        None => {
            let r: Vec<String> = Vec::new();
            assert(text::views(r@) =~= Seq::<Seq<char>>::empty());
            r
        },
    }
}

fn text_field(s: &str) -> (r: Argument)
    ensures
        r@ == ArgumentView::Text(s@),
{
    Argument::Text(text::owned(s))
}

/// A value that may be missing.
pub(crate) fn optional(s: &Option<String>) -> (r: Argument)
    ensures
        r@ == optional_spec(*s),
{
    match s {
        Some(s) => Argument::Text(s.clone()),
        None => Argument::Null,
    }
}

fn texts(list: &Vec<String>) -> (r: Argument)
    ensures
        r@ == ArgumentView::Texts(text::views(list@)),
{
    Argument::Texts(text::clone_strings(list))
}

fn entry(name: &str, value: Argument) -> (r: (String, Argument))
    ensures
        r.0@ == name@,
        r.1 == value,
{
    (text::owned(name), value)
}

fn request(subject: &str, payload: Payload) -> (r: (String, Payload))
    ensures
        r.0@ == subject@,
        r.1 == payload,
{
    (text::owned(subject), payload)
}

/// A value that is put in only where there is one.
pub open spec fn when_some(name: Seq<char>, value: Option<Seq<char>>) -> Seq<(Seq<char>, ArgumentView)> {
    match value {
        Some(s) => seq![(name, ArgumentView::Text(s))],
        None => Seq::empty(),
    }
}

/// A list that is put in only where there is one.
pub open spec fn when_list(name: Seq<char>, value: Option<String>) -> Seq<(Seq<char>, ArgumentView)> {
    match value {
        Some(s) => seq![(name, ArgumentView::Texts(parts_spec(s@)))],
        None => Seq::empty(),
    }
}

/// Texts that are put in only where there are any.
pub open spec fn when_any(name: Seq<char>, value: Seq<Seq<char>>) -> Seq<(Seq<char>, ArgumentView)> {
    if value.len() > 0 {
        seq![(name, ArgumentView::Texts(value))]
    } else {
        Seq::empty()
    }
}

fn push_some(payload: &mut Payload, name: &str, value: &Option<String>)
    ensures
        payload_view(final(payload)@) == payload_view(old(payload)@) + when_some(
            name@,
            relation_vocab::option_view(*value),
        ),
{
    let ghost before = payload_view(payload@);
    if let Some(s) = value {
        payload.push(entry(name, text_field(s.as_str())));
    }
    assert(payload_view(payload@) =~= before + when_some(
        name@,
        relation_vocab::option_view(*value),
    ));
}

fn push_list(payload: &mut Payload, name: &str, value: &Option<String>)
    ensures
        payload_view(final(payload)@) == payload_view(old(payload)@) + when_list(name@, *value),
{
    let ghost before = payload_view(payload@);
    if let Some(s) = value {
        payload.push(entry(name, Argument::Texts(split_list(s.as_str()))));
    }
    assert(payload_view(payload@) =~= before + when_list(name@, *value));
}

fn push_any(payload: &mut Payload, name: &str, value: &Vec<String>)
    ensures
        payload_view(final(payload)@) == payload_view(old(payload)@) + when_any(
            name@,
            text::views(value@),
        ),
{
    let ghost before = payload_view(payload@);
    if value.len() > 0 {
        payload.push(entry(name, texts(value)));
    }
    assert(payload_view(payload@) =~= before + when_any(name@, text::views(value@)));
}

// ---- bodies -------------------------------------------------------------------------------------

/// Where the body of a new item comes from.
#[derive(Debug)]
pub enum BodySource {
    Inline(String),
    File(String),
    Stdin,
    Template,
    Nowhere,
}

#[verifier::ext_equal]
pub enum SourceView {
    Inline(Seq<char>),
    File(Seq<char>),
    Stdin,
    Template,
    Nowhere,
}

impl View for BodySource {
    type V = SourceView;

    open spec fn view(&self) -> SourceView {
        match *self {
            BodySource::Inline(s) => SourceView::Inline(s@),
            BodySource::File(s) => SourceView::File(s@),
            BodySource::Stdin => SourceView::Stdin,
            BodySource::Template => SourceView::Template,
            BodySource::Nowhere => SourceView::Nowhere,
        }
    }
}

/// Where the body of a new item comes from: the text that was given, or else the file, or
/// else standard input, or else a template.
pub fn body_source(
    body: &Option<String>,
    body_file: &Option<String>,
    body_stdin: bool,
    template: &Option<String>,
) -> (r: BodySource)
    ensures
        r@ == (if body is Some {
            SourceView::Inline(body->0@)
        } else if body_file is Some {
            SourceView::File(body_file->0@)
        } else if body_stdin {
            SourceView::Stdin
        } else if template is Some {
            SourceView::Template
        } else {
            SourceView::Nowhere
        }),
{
    if let Some(b) = body {
        BodySource::Inline(b.clone())
    } else if let Some(f) = body_file {
        BodySource::File(f.clone())
    } else if body_stdin {
        BodySource::Stdin
    } else if template.is_some() {
        BodySource::Template
    } else {
        BodySource::Nowhere
    }
}

/// A file that a body was to be read from.
#[derive(Debug)]
pub enum BodyFile {
    /// None was named.
    Unnamed,
    /// It could not be read.
    Unreadable,
    Content(String),
}

/// The new body of an item: that of the file where one is named, trimmed, and else the
/// text that was given. A file that cannot be read gives none.
pub open spec fn updated_body(body: Option<String>, file: BodyFile) -> Option<Seq<char>> {
    match file {
        BodyFile::Content(s) => Some(text::trim_spec(s@)),
        BodyFile::Unreadable => None,
        BodyFile::Unnamed => relation_vocab::option_view(body),
    }
}

/// The new body of an item.
pub fn update_body(body: &Option<String>, file: &BodyFile) -> (r: Option<String>)
    ensures
        relation_vocab::option_view(r) == updated_body(*body, *file),
{
    match file {
        BodyFile::Content(s) => Some(text::trim(s.as_str())),
        BodyFile::Unreadable => None,
        BodyFile::Unnamed => match body {
            Some(s) => Some(s.clone()),
            None => None,
        },
    }
}

// ---- requests ----------------------------------------------------------------------------------------

/// Whether a command never goes to a server.
pub open spec fn is_local(command: Command) -> bool {
    command is MaterializeItem || command is Backup || command is Restore
}

/// The request of a command of the research board.
pub open spec fn hdd_request_spec(command: HddCommand) -> (Seq<char>, Seq<(Seq<char>, ArgumentView)>) {
    match command {
        HddCommand::Paper { title, tags } => (
            "hdd.paper"@,
            seq![
                ("title"@, ArgumentView::Text(title@)),
                ("tags"@, ArgumentView::Texts(tags_spec(tags))),
            ],
        ),
        HddCommand::Hypothesis { title, paper, tags } => (
            "hdd.hypothesis"@,
            seq![
                ("title"@, ArgumentView::Text(title@)),
                ("paper"@, ArgumentView::Number(paper as u64)),
                ("tags"@, ArgumentView::Texts(tags_spec(tags))),
            ],
        ),
        HddCommand::Experiment { title, hypothesis, tags } => (
            "hdd.experiment"@,
            seq![
                ("title"@, ArgumentView::Text(title@)),
                ("hypothesis"@, ArgumentView::Text(hypothesis@)),
                ("tags"@, ArgumentView::Texts(tags_spec(tags))),
            ],
        ),
        HddCommand::Measure { title, experiment, tags } => (
            "hdd.measure"@,
            seq![
                ("title"@, ArgumentView::Text(title@)),
                ("experiment"@, optional_spec(experiment)),
                ("tags"@, ArgumentView::Texts(tags_spec(tags))),
            ],
        ),
        HddCommand::Idea { title, tags } => (
            "hdd.idea"@,
            seq![
                ("title"@, ArgumentView::Text(title@)),
                ("tags"@, ArgumentView::Texts(tags_spec(tags))),
            ],
        ),
        HddCommand::Literature { title, tags } => (
            "hdd.literature"@,
            seq![
                ("title"@, ArgumentView::Text(title@)),
                ("tags"@, ArgumentView::Texts(tags_spec(tags))),
            ],
        ),
        HddCommand::Validate => (
            "hdd.validate"@,
            Seq::empty(),
        ),
        HddCommand::Registry => (
            "hdd.registry"@,
            Seq::empty(),
        ),
        HddCommand::Run { experiment_id, agent } => (
            "hdd.run"@,
            seq![
                ("experiment_id"@, ArgumentView::Text(experiment_id@)),
                ("agent"@, optional_spec(agent)),
            ],
        ),
        HddCommand::Status { experiment_id } => (
            "hdd.run.status"@,
            seq![
                ("experiment_id"@, ArgumentView::Text(experiment_id@)),
            ],
        ),
        HddCommand::Complete { experiment_id, run, results } => (
            "hdd.run.complete"@,
            seq![
                ("experiment_id"@, ArgumentView::Text(experiment_id@)),
                ("run"@, ArgumentView::Number(run as u64)),
                ("results"@, optional_spec(results)),
            ],
        ),
    }
}

/// The request of a command: where it goes and what it carries. The body is that of a new
/// item, or the new body of one.
pub open spec fn request_spec(command: Command, body: Option<Seq<char>>) -> (
    Seq<char>,
    Seq<(Seq<char>, ArgumentView)>,
) {
    match command {
        Command::Create { item_type, title, priority, assign, tags, relate, .. } => (
            "create"@,
            seq![
                ("title"@, ArgumentView::Text(title@)),
                ("item_type"@, ArgumentView::Text(item_type@)),
                ("priority"@, optional_spec(priority)),
                ("assignee"@, optional_spec(assign)),
                ("tags"@, ArgumentView::Texts(tags_spec(tags))),
                (
                    "body"@,
                    match body {
                        Some(s) => ArgumentView::Text(s),
                        None => ArgumentView::Null,
                    },
                ),
                ("relate"@, ArgumentView::Texts(text::views(relate@))),
            ],
        ),
        Command::Move { id, status, assign, force, resolution, closed_by } => (
            "move"@,
            seq![
                ("id"@, ArgumentView::Text(id@)),
                ("status"@, ArgumentView::Text(status@)),
                ("assignee"@, optional_spec(assign)),
                ("force"@, ArgumentView::Flag(force)),
                ("resolution"@, optional_spec(resolution)),
                ("closed_by"@, optional_spec(closed_by)),
            ],
        ),
        Command::Ratify { phase } => (
            "ratify"@,
            seq![
                ("phase_tag"@, ArgumentView::Text(phase@)),
            ],
        ),
        Command::Update {
            id,
            title,
            priority,
            assign,
            tags,
            related,
            depends_on,
            relate,
            unrelate,
            ..
        } => (
            "update"@,
            seq![("id"@, ArgumentView::Text(id@))] + when_any("relate"@, text::views(relate@))
                + when_any("unrelate"@, text::views(unrelate@)) + when_some(
                "title"@,
                relation_vocab::option_view(title),
            ) + when_some("priority"@, relation_vocab::option_view(priority)) + when_some(
                "assignee"@,
                relation_vocab::option_view(assign),
            ) + when_list("tags"@, tags) + when_some("body"@, body) + when_list("related"@, related)
                + when_list("depends_on"@, depends_on),
        ),
        Command::Comment { id, text } => (
            "comment"@,
            seq![
                ("id"@, ArgumentView::Text(id@)),
                ("text"@, ArgumentView::Text(text@)),
            ],
        ),
        Command::List { status, board, item_type, assignee, resolution, priority, tag, ready } => (
            "list"@,
            seq![
                ("status"@, optional_spec(status)),
                ("board"@, optional_spec(board)),
                ("item_type"@, optional_spec(item_type)),
                ("assignee"@, optional_spec(assignee)),
                ("resolution"@, optional_spec(resolution)),
                ("priority"@, optional_spec(priority)),
                ("tags"@, ArgumentView::Texts(text::views(tag@))),
                ("ready"@, ArgumentView::Flag(ready)),
            ],
        ),
        Command::Board { board } => (
            "board"@,
            seq![
                ("board"@, ArgumentView::Text(board@)),
            ],
        ),
        Command::Show { id, format, relations } => (
            "show"@,
            seq![
                ("id"@, ArgumentView::Text(id@)),
                ("format"@, ArgumentView::Text(format@)),
                ("relations"@, ArgumentView::Flag(relations)),
            ],
        ),
        Command::Query { query, search, sparql, top, embedding_provider, .. } => (
            "query"@,
            seq![("query"@, ArgumentView::Text(text::join_spec(text::views(query@), " "@)))]
                + when_some("search"@, relation_vocab::option_view(search)) + (if search is Some
                || top != 10 {
                seq![("top"@, ArgumentView::Number(top as u64))]
            } else {
                Seq::empty()
            }) + when_some("sparql"@, relation_vocab::option_view(sparql)) + when_some(
                "embedding_provider"@,
                relation_vocab::option_view(embedding_provider),
            ),
        ),
        Command::Stats { board, velocity, burndown, by_agent, since, weeks } => (
            "stats"@,
            seq![
                ("board"@, ArgumentView::Text(board@)),
                ("velocity"@, ArgumentView::Flag(velocity)),
                ("burndown"@, ArgumentView::Flag(burndown)),
                ("by_agent"@, ArgumentView::Flag(by_agent)),
                ("since"@, optional_spec(since)),
                ("weeks"@, ArgumentView::Number(weeks as u64)),
            ],
        ),
        Command::History { week, month, since, by_assignee } => (
            "history"@,
            seq![
                ("week"@, ArgumentView::Flag(week)),
                ("month"@, ArgumentView::Flag(month)),
                ("since"@, optional_spec(since)),
                ("by_assignee"@, optional_spec(by_assignee)),
            ],
        ),
        Command::Roadmap { flat, ready, campaign } => (
            "roadmap"@,
            seq![
                ("flat"@, ArgumentView::Flag(flat)),
                ("ready"@, ArgumentView::Flag(ready)),
                ("campaign"@, optional_spec(campaign)),
            ],
        ),
        Command::CriticalPath => (
            "critical-path"@,
            Seq::empty(),
        ),
        Command::Worklist { agents, depth } => (
            "worklist"@,
            seq![
                ("agents"@, ArgumentView::Text(agents@)),
                ("depth"@, ArgumentView::Number(depth as u64)),
            ],
        ),
        Command::Blocked => (
            "blocked"@,
            Seq::empty(),
        ),
        Command::Validate { id, fix, board, all, status } => (
            "validate"@,
            seq![
                ("id"@, optional_spec(id)),
                ("fix"@, ArgumentView::Flag(fix)),
                ("board"@, optional_spec(board)),
                ("all"@, ArgumentView::Flag(all)),
                ("status"@, optional_spec(status)),
            ],
        ),
        Command::Export { id, format, board, item_type, status, .. } => (
            "export"@,
            seq![
                ("id"@, optional_spec(id)),
                ("format"@, ArgumentView::Text(format@)),
                ("board"@, ArgumentView::Text(board@)),
                ("item_type"@, optional_spec(item_type)),
                ("status"@, optional_spec(status)),
            ],
        ),
        Command::NextId { item_type, .. } => (
            "next-id"@,
            seq![
                ("item_type"@, ArgumentView::Text(item_type@)),
            ],
        ),
        Command::Migrate { .. } => (
            "stats"@,
            Seq::empty(),
        ),
        Command::Hdd { command } => hdd_request_spec(command),
        Command::Rank { id, rank } => (
            "rank"@,
            seq![
                ("id"@, ArgumentView::Text(id@)),
                ("rank"@, ArgumentView::Number(rank as u64)),
            ],
        ),
        Command::Next { assignee } => (
            "list"@,
            seq![
                ("status"@, ArgumentView::Text("backlog"@)),
                ("assignee"@, optional_spec(assignee)),
            ],
        ),
        Command::Init { .. } => (
            "stats"@,
            Seq::empty(),
        ),
        Command::Boards => (
            "stats"@,
            Seq::empty(),
        ),
        Command::Templates { item_type } => (
            "templates"@,
            seq![
                ("item_type"@, optional_spec(item_type)),
            ],
        ),
        Command::McpServer { .. } => (
            "stats"@,
            Seq::empty(),
        ),
        Command::MaterializeItem { .. } => (Seq::empty(), Seq::empty()),
        Command::Backup { .. } => (Seq::empty(), Seq::empty()),
        Command::Restore { .. } => (Seq::empty(), Seq::empty()),
    }
}

fn hdd_request(command: &HddCommand) -> (r: (String, Payload))
    ensures
        (r.0@, payload_view(r.1@)) == hdd_request_spec(*command),
{
    let r: (String, Payload) = match command {
        HddCommand::Paper { title, tags } => {
            let payload: Payload = vec![
                entry("title", text_field(title.as_str())),
                entry("tags", Argument::Texts(parse_nats_tags(tags))),
            ];
            request("hdd.paper", payload)
        },
        HddCommand::Hypothesis { title, paper, tags } => {
            let payload: Payload = vec![
                entry("title", text_field(title.as_str())),
                entry("paper", Argument::Number(*paper as u64)),
                entry("tags", Argument::Texts(parse_nats_tags(tags))),
            ];
            request("hdd.hypothesis", payload)
        },
        HddCommand::Experiment { title, hypothesis, tags } => {
            let payload: Payload = vec![
                entry("title", text_field(title.as_str())),
                entry("hypothesis", text_field(hypothesis.as_str())),
                entry("tags", Argument::Texts(parse_nats_tags(tags))),
            ];
            request("hdd.experiment", payload)
        },
        HddCommand::Measure { title, experiment, tags } => {
            let payload: Payload = vec![
                entry("title", text_field(title.as_str())),
                entry("experiment", optional(experiment)),
                entry("tags", Argument::Texts(parse_nats_tags(tags))),
            ];
            request("hdd.measure", payload)
        },
        HddCommand::Idea { title, tags } => {
            let payload: Payload = vec![
                entry("title", text_field(title.as_str())),
                entry("tags", Argument::Texts(parse_nats_tags(tags))),
            ];
            request("hdd.idea", payload)
        },
        HddCommand::Literature { title, tags } => {
            let payload: Payload = vec![
                entry("title", text_field(title.as_str())),
                entry("tags", Argument::Texts(parse_nats_tags(tags))),
            ];
            request("hdd.literature", payload)
        },
        HddCommand::Validate => request("hdd.validate", Vec::new()),
        HddCommand::Registry => request("hdd.registry", Vec::new()),
        HddCommand::Run { experiment_id, agent } => {
            let payload: Payload = vec![
                entry("experiment_id", text_field(experiment_id.as_str())),
                entry("agent", optional(agent)),
            ];
            request("hdd.run", payload)
        },
        HddCommand::Status { experiment_id } => {
            let payload: Payload = vec![
                entry("experiment_id", text_field(experiment_id.as_str())),
            ];
            request("hdd.run.status", payload)
        },
        HddCommand::Complete { experiment_id, run, results } => {
            let payload: Payload = vec![
                entry("experiment_id", text_field(experiment_id.as_str())),
                entry("run", Argument::Number(*run as u64)),
                entry("results", optional(results)),
            ];
            request("hdd.run.complete", payload)
        },
    };
    assert(payload_view(r.1@) =~= hdd_request_spec(*command).1);
    r
}

/// The request of a command: where it goes and what it carries. The body is that of a new
/// item, or the new body of one.
pub fn command_to_nats(command: &Command, body: &Option<String>) -> (r: (String, Payload))
    requires
        !is_local(*command),
    ensures
        (r.0@, payload_view(r.1@)) == request_spec(*command, relation_vocab::option_view(*body)),
{
    let r: (String, Payload) = match command {
        Command::Create { item_type, title, priority, assign, tags, relate, .. } => {
            let payload: Payload = vec![
                entry("title", text_field(title.as_str())),
                entry("item_type", text_field(item_type.as_str())),
                entry("priority", optional(priority)),
                entry("assignee", optional(assign)),
                entry("tags", Argument::Texts(parse_nats_tags(tags))),
                entry("body", optional(body)),
                entry("relate", texts(relate)),
            ];
            request("create", payload)
        },
        Command::Move { id, status, assign, force, resolution, closed_by } => {
            let payload: Payload = vec![
                entry("id", text_field(id.as_str())),
                entry("status", text_field(status.as_str())),
                entry("assignee", optional(assign)),
                entry("force", Argument::Flag(*force)),
                entry("resolution", optional(resolution)),
                entry("closed_by", optional(closed_by)),
            ];
            request("move", payload)
        },
        Command::Ratify { phase } => {
            let payload: Payload = vec![
                entry("phase_tag", text_field(phase.as_str())),
            ];
            request("ratify", payload)
        },
        Command::Update {
            id,
            title,
            priority,
            assign,
            tags,
            related,
            depends_on,
            relate,
            unrelate,
            ..
        } => {
            let mut payload: Payload = vec![entry("id", text_field(id.as_str()))];
            assert(payload_view(payload@) =~= seq![("id"@, ArgumentView::Text(id@))]);
            push_any(&mut payload, "relate", relate);
            push_any(&mut payload, "unrelate", unrelate);
            push_some(&mut payload, "title", title);
            push_some(&mut payload, "priority", priority);
            push_some(&mut payload, "assignee", assign);
            push_list(&mut payload, "tags", tags);
            push_some(&mut payload, "body", body);
            push_list(&mut payload, "related", related);
            push_list(&mut payload, "depends_on", depends_on);
            request("update", payload)
        },
        Command::Comment { id, text } => {
            let payload: Payload = vec![
                entry("id", text_field(id.as_str())),
                entry("text", text_field(text.as_str())),
            ];
            request("comment", payload)
        },
        Command::List { status, board, item_type, assignee, resolution, priority, tag, ready } => {
            let payload: Payload = vec![
                entry("status", optional(status)),
                entry("board", optional(board)),
                entry("item_type", optional(item_type)),
                entry("assignee", optional(assignee)),
                entry("resolution", optional(resolution)),
                entry("priority", optional(priority)),
                entry("tags", texts(tag)),
                entry("ready", Argument::Flag(*ready)),
            ];
            request("list", payload)
        },
        Command::Board { board } => {
            let payload: Payload = vec![
                entry("board", text_field(board.as_str())),
            ];
            request("board", payload)
        },
        Command::Show { id, format, relations } => {
            let payload: Payload = vec![
                entry("id", text_field(id.as_str())),
                entry("format", text_field(format.as_str())),
                entry("relations", Argument::Flag(*relations)),
            ];
            request("show", payload)
        },
        Command::Query { query, search, sparql, top, embedding_provider, .. } => {
            let words: String = text::join(query, " ");
            let mut payload: Payload = vec![entry("query", text_field(words.as_str()))];
            assert(payload_view(payload@) =~= seq![
                ("query"@, ArgumentView::Text(text::join_spec(text::views(query@), " "@))),
            ]);
            push_some(&mut payload, "search", search);
            let ghost before = payload_view(payload@);
            if search.is_some() || *top != 10 {
                payload.push(entry("top", Argument::Number(*top as u64)));
            }
            assert(payload_view(payload@) =~= before + (if search is Some || *top != 10 {
                seq![("top"@, ArgumentView::Number(*top as u64))]
            } else {
                Seq::empty()
            }));
            push_some(&mut payload, "sparql", sparql);
            push_some(&mut payload, "embedding_provider", embedding_provider);
            request("query", payload)
        },
        Command::Stats { board, velocity, burndown, by_agent, since, weeks } => {
            let payload: Payload = vec![
                entry("board", text_field(board.as_str())),
                entry("velocity", Argument::Flag(*velocity)),
                entry("burndown", Argument::Flag(*burndown)),
                entry("by_agent", Argument::Flag(*by_agent)),
                entry("since", optional(since)),
                entry("weeks", Argument::Number(*weeks as u64)),
            ];
            request("stats", payload)
        },
        Command::History { week, month, since, by_assignee } => {
            let payload: Payload = vec![
                entry("week", Argument::Flag(*week)),
                entry("month", Argument::Flag(*month)),
                entry("since", optional(since)),
                entry("by_assignee", optional(by_assignee)),
            ];
            request("history", payload)
        },
        Command::Roadmap { flat, ready, campaign } => {
            let payload: Payload = vec![
                entry("flat", Argument::Flag(*flat)),
                entry("ready", Argument::Flag(*ready)),
                entry("campaign", optional(campaign)),
            ];
            request("roadmap", payload)
        },
        Command::CriticalPath => request("critical-path", Vec::new()),
        Command::Worklist { agents, depth } => {
            let payload: Payload = vec![
                entry("agents", text_field(agents.as_str())),
                entry("depth", Argument::Number(*depth as u64)),
            ];
            request("worklist", payload)
        },
        Command::Blocked => request("blocked", Vec::new()),
        Command::Validate { id, fix, board, all, status } => {
            let payload: Payload = vec![
                entry("id", optional(id)),
                entry("fix", Argument::Flag(*fix)),
                entry("board", optional(board)),
                entry("all", Argument::Flag(*all)),
                entry("status", optional(status)),
            ];
            request("validate", payload)
        },
        Command::Export { id, format, board, item_type, status, .. } => {
            let payload: Payload = vec![
                entry("id", optional(id)),
                entry("format", text_field(format.as_str())),
                entry("board", text_field(board.as_str())),
                entry("item_type", optional(item_type)),
                entry("status", optional(status)),
            ];
            request("export", payload)
        },
        Command::NextId { item_type, .. } => {
            let payload: Payload = vec![
                entry("item_type", text_field(item_type.as_str())),
            ];
            request("next-id", payload)
        },
        Command::Migrate { .. } => request("stats", Vec::new()),
        Command::Hdd { command } => hdd_request(command),
        Command::Rank { id, rank } => {
            let payload: Payload = vec![
                entry("id", text_field(id.as_str())),
                entry("rank", Argument::Number(*rank as u64)),
            ];
            request("rank", payload)
        },
        Command::Next { assignee } => {
            let payload: Payload = vec![
                entry("status", text_field("backlog")),
                entry("assignee", optional(assignee)),
            ];
            request("list", payload)
        },
        Command::Init { .. } => request("stats", Vec::new()),
        Command::Boards => request("stats", Vec::new()),
        Command::Templates { item_type } => {
            let payload: Payload = vec![
                entry("item_type", optional(item_type)),
            ];
            request("templates", payload)
        },
        Command::McpServer { .. } => request("stats", Vec::new()),
        Command::MaterializeItem { .. } => request("", Vec::new()),
        Command::Backup { .. } => request("", Vec::new()),
        Command::Restore { .. } => request("", Vec::new()),
    };
    assert(payload_view(r.1@) =~= request_spec(
        *command,
        relation_vocab::option_view(*body),
    ).1);
    r
}

// ---- what holds of requests ------------------------------------------------------------------------------

/// An update carries nothing that was not asked for: without any field it carries the id
/// alone.
pub proof fn law_empty_updates_carry_the_id_alone(command: Command)
    requires
        command is Update,
        command->Update_title is None,
        command->Update_priority is None,
        command->Update_assign is None,
        command->Update_tags is None,
        command->Update_related is None,
        command->Update_depends_on is None,
        command->Update_relate@.len() == 0,
        command->Update_unrelate@.len() == 0,
    ensures
        request_spec(command, None).1 == seq![("id"@, ArgumentView::Text(command->Update_id@))],
{
    assert(request_spec(command, None).1 =~= seq![
        ("id"@, ArgumentView::Text(command->Update_id@)),
    ]);
}

/// The edges that an update asks for travel as they were written, so that the server
/// checks what a local board checks.
pub proof fn law_edges_travel_unchanged(command: Command, body: Option<Seq<char>>)
    requires
        command is Update,
        command->Update_relate@.len() > 0,
    ensures
        request_spec(command, body).1[1] == (
            "relate"@,
            ArgumentView::Texts(text::views(command->Update_relate@)),
        ),
{
}

// ---- what a request carries ------------------------------------------------------------------------------------------

/// Whether a request carries a value under a name.
pub open spec fn carries(
    payload: Seq<(Seq<char>, ArgumentView)>,
    name: Seq<char>,
    value: ArgumentView,
) -> bool {
    exists|i: int| 0 <= i < payload.len() && #[trigger] payload[i] == (name, value)
}

/// Whether a request carries a text that may be left out under a name: the text, or that
/// there is none.
pub open spec fn carries_text(
    payload: Seq<(Seq<char>, ArgumentView)>,
    name: Seq<char>,
    value: Option<String>,
) -> bool {
    match value {
        Some(s) => carries(payload, name, ArgumentView::Text(s@)),
        None => carries(payload, name, ArgumentView::Null),
    }
}

/// The parts of a list in a text are what stands between its commas, trimmed, one for each.
pub proof fn law_lists_are_split_at_commas(a: Seq<char>, b: Seq<char>)
    requires
        forall|k: int| 0 <= k < a.len() ==> #[trigger] a[k] != ',',
    ensures
        parts_spec(a) == seq![text::trim_spec(a)],
        parts_spec(a.push(',') + b) == seq![text::trim_spec(a)] + parts_spec(b),
{
    text::law_splitting_goes_on_behind_the_separator(a, ',', b);
    assert(parts_spec(a) =~= seq![text::trim_spec(a)]);
    assert(parts_spec(a.push(',') + b) =~= seq![text::trim_spec(a)] + parts_spec(b));
}

/// A request to make an item carries its type, title and all else that was given.
pub proof fn law_new_items_travel_whole(command: Command, body: Option<Seq<char>>)
    requires
        command is Create,
    ensures
        ({
            let (name, payload) = request_spec(command, body);
            &&& name == "create"@
            &&& carries(payload, "title"@, ArgumentView::Text(command->Create_title@))
            &&& carries(payload, "item_type"@, ArgumentView::Text(command->Create_item_type@))
            &&& carries_text(payload, "priority"@, command->Create_priority)
            &&& carries_text(payload, "assignee"@, command->Create_assign)
            &&& carries(
                payload,
                "tags"@,
                ArgumentView::Texts(
                    match command->Create_tags {
                        Some(s) => parts_spec(s@),
                        None => Seq::empty(),
                    },
                ),
            )
            &&& carries(
                payload,
                "body"@,
                match body {
                    Some(s) => ArgumentView::Text(s),
                    None => ArgumentView::Null,
                },
            )
            &&& carries(
                payload,
                "relate"@,
                ArgumentView::Texts(text::views(command->Create_relate@)),
            )
        }),
{
    let payload = request_spec(command, body).1;
    assert(payload[0].0 == "title"@ && payload[1].0 == "item_type"@ && payload[2].0 == "priority"@
        && payload[3].0 == "assignee"@ && payload[4].0 == "tags"@ && payload[5].0 == "body"@
        && payload[6].0 == "relate"@);
}

/// A request to move an item carries its id, the status, and all that was said of the move.
pub proof fn law_moves_travel_whole(command: Command, body: Option<Seq<char>>)
    requires
        command is Move,
    ensures
        ({
            let (name, payload) = request_spec(command, body);
            &&& name == "move"@
            &&& carries(payload, "id"@, ArgumentView::Text(command->Move_id@))
            &&& carries(payload, "status"@, ArgumentView::Text(command->Move_status@))
            &&& carries_text(payload, "assignee"@, command->Move_assign)
            &&& carries(payload, "force"@, ArgumentView::Flag(command->Move_force))
            &&& carries_text(payload, "resolution"@, command->Move_resolution)
            &&& carries_text(payload, "closed_by"@, command->Move_closed_by)
        }),
{
    let payload = request_spec(command, body).1;
    assert(payload[0].0 == "id"@ && payload[1].0 == "status"@ && payload[2].0 == "assignee"@
        && payload[3].0 == "force"@ && payload[4].0 == "resolution"@ && payload[5].0
        == "closed_by"@);
}

proof fn lemma_carried(
    a: Seq<(Seq<char>, ArgumentView)>,
    b: Seq<(Seq<char>, ArgumentView)>,
    name: Seq<char>,
    value: ArgumentView,
)
    ensures
        carries(a + b, name, value) <==> carries(a, name, value) || carries(b, name, value),
{
    let all = a + b;
    if carries(a, name, value) {
        let i = choose|i: int| 0 <= i < a.len() && #[trigger] a[i] == (name, value);
        assert(all[i] == (name, value));
    }
    if carries(b, name, value) {
        let i = choose|i: int| 0 <= i < b.len() && #[trigger] b[i] == (name, value);
        assert(all[a.len() + i] == (name, value));
    }
    if carries(all, name, value) {
        let i = choose|i: int| 0 <= i < all.len() && #[trigger] all[i] == (name, value);
        if i < a.len() {
            assert(a[i] == (name, value));
        } else {
            assert(b[i - a.len()] == (name, value));
        }
    }
}

/// Whether a change under a name is the one that is asked for: a text, a list, or one of
/// the changes to the relations, each only where it was given.
pub open spec fn is_asked_change(
    command: Command,
    body: Option<Seq<char>>,
    name: Seq<char>,
    value: ArgumentView,
) -> bool {
    ||| name == "id"@ && value == ArgumentView::Text(command->Update_id@)
    ||| name == "relate"@ && command->Update_relate@.len() > 0 && value == ArgumentView::Texts(
        text::views(command->Update_relate@),
    )
    ||| name == "unrelate"@ && command->Update_unrelate@.len() > 0 && value == ArgumentView::Texts(
        text::views(command->Update_unrelate@),
    )
    ||| name == "title"@ && (command->Update_title matches Some(s) && value == ArgumentView::Text(
        s@,
    ))
    ||| name == "priority"@ && (command->Update_priority matches Some(s) && value
        == ArgumentView::Text(s@))
    ||| name == "assignee"@ && (command->Update_assign matches Some(s) && value
        == ArgumentView::Text(s@))
    ||| name == "tags"@ && (command->Update_tags matches Some(s) && value == ArgumentView::Texts(
        parts_spec(s@),
    ))
    ||| name == "body"@ && (body matches Some(s) && value == ArgumentView::Text(s))
    ||| name == "related"@ && (command->Update_related matches Some(s) && value
        == ArgumentView::Texts(parts_spec(s@)))
    ||| name == "depends_on"@ && (command->Update_depends_on matches Some(s) && value
        == ArgumentView::Texts(parts_spec(s@)))
}

/// A request to change an item carries its id and exactly the changes that are asked for.
pub proof fn law_changes_travel_as_asked(
    command: Command,
    body: Option<Seq<char>>,
    name: Seq<char>,
    value: ArgumentView,
)
    requires
        command is Update,
    ensures
        request_spec(command, body).0 == "update"@,
        carries(request_spec(command, body).1, name, value) <==> is_asked_change(
            command,
            body,
            name,
            value,
        ),
{
    let c0 = seq![("id"@, ArgumentView::Text(command->Update_id@))];
    let c1 = when_any("relate"@, text::views(command->Update_relate@));
    let c2 = when_any("unrelate"@, text::views(command->Update_unrelate@));
    let c3 = when_some("title"@, relation_vocab::option_view(command->Update_title));
    let c4 = when_some("priority"@, relation_vocab::option_view(command->Update_priority));
    let c5 = when_some("assignee"@, relation_vocab::option_view(command->Update_assign));
    let c6 = when_list("tags"@, command->Update_tags);
    let c7 = when_some("body"@, body);
    let c8 = when_list("related"@, command->Update_related);
    let c9 = when_list("depends_on"@, command->Update_depends_on);
    lemma_one("id"@, ArgumentView::Text(command->Update_id@), name, value);
    lemma_any("relate"@, text::views(command->Update_relate@), name, value);
    lemma_any("unrelate"@, text::views(command->Update_unrelate@), name, value);
    lemma_some("title"@, relation_vocab::option_view(command->Update_title), name, value);
    lemma_some("priority"@, relation_vocab::option_view(command->Update_priority), name, value);
    lemma_some("assignee"@, relation_vocab::option_view(command->Update_assign), name, value);
    lemma_list("tags"@, command->Update_tags, name, value);
    lemma_some("body"@, body, name, value);
    lemma_list("related"@, command->Update_related, name, value);
    lemma_list("depends_on"@, command->Update_depends_on, name, value);
    lemma_carried(c0, c1, name, value);
    lemma_carried(c0 + c1, c2, name, value);
    lemma_carried(c0 + c1 + c2, c3, name, value);
    lemma_carried(c0 + c1 + c2 + c3, c4, name, value);
    lemma_carried(c0 + c1 + c2 + c3 + c4, c5, name, value);
    lemma_carried(c0 + c1 + c2 + c3 + c4 + c5, c6, name, value);
    lemma_carried(c0 + c1 + c2 + c3 + c4 + c5 + c6, c7, name, value);
    lemma_carried(c0 + c1 + c2 + c3 + c4 + c5 + c6 + c7, c8, name, value);
    lemma_carried(c0 + c1 + c2 + c3 + c4 + c5 + c6 + c7 + c8, c9, name, value);
}

proof fn lemma_one(key: Seq<char>, v: ArgumentView, name: Seq<char>, value: ArgumentView)
    ensures
        carries(seq![(key, v)], name, value) <==> name == key && value == v,
{
    assert(seq![(key, v)][0] == (key, v));
}

proof fn lemma_any(key: Seq<char>, list: Seq<Seq<char>>, name: Seq<char>, value: ArgumentView)
    ensures
        carries(when_any(key, list), name, value) <==> name == key && list.len() > 0 && value
            == ArgumentView::Texts(list),
{
    lemma_one(key, ArgumentView::Texts(list), name, value);
}

proof fn lemma_some(key: Seq<char>, s: Option<Seq<char>>, name: Seq<char>, value: ArgumentView)
    ensures
        carries(when_some(key, s), name, value) <==> name == key && (s matches Some(s) && value
            == ArgumentView::Text(s)),
{
    if s is Some {
        lemma_one(key, ArgumentView::Text(s->0), name, value);
    }
}

proof fn lemma_list(key: Seq<char>, s: Option<String>, name: Seq<char>, value: ArgumentView)
    ensures
        carries(when_list(key, s), name, value) <==> name == key && (s matches Some(s) && value
            == ArgumentView::Texts(parts_spec(s@))),
{
    if s is Some {
        lemma_one(key, ArgumentView::Texts(parts_spec(s->0@)), name, value);
    }
}

/// A request to list or to search items carries every filter that was given.
pub proof fn law_filters_travel_whole(command: Command, body: Option<Seq<char>>)
    ensures
        command is List ==> ({
            let (name, payload) = request_spec(command, body);
            &&& name == "list"@
            &&& carries_text(payload, "status"@, command->List_status)
            &&& carries_text(payload, "board"@, command->List_board)
            &&& carries_text(payload, "item_type"@, command->List_item_type)
            &&& carries_text(payload, "assignee"@, command->List_assignee)
            &&& carries_text(payload, "resolution"@, command->List_resolution)
            &&& carries_text(payload, "priority"@, command->List_priority)
            &&& carries(payload, "tags"@, ArgumentView::Texts(text::views(command->List_tag@)))
            &&& carries(payload, "ready"@, ArgumentView::Flag(command->List_ready))
        }),
        command is Next ==> ({
            let (name, payload) = request_spec(command, body);
            &&& name == "list"@
            &&& carries(payload, "status"@, ArgumentView::Text("backlog"@))
            &&& carries_text(payload, "assignee"@, command->Next_assignee)
        }),
        command is Export ==> ({
            let (name, payload) = request_spec(command, body);
            &&& name == "export"@
            &&& carries_text(payload, "id"@, command->Export_id)
            &&& carries(payload, "format"@, ArgumentView::Text(command->Export_format@))
            &&& carries(payload, "board"@, ArgumentView::Text(command->Export_board@))
            &&& carries_text(payload, "item_type"@, command->Export_item_type)
            &&& carries_text(payload, "status"@, command->Export_status)
        }),
        command is Validate ==> ({
            let (name, payload) = request_spec(command, body);
            &&& name == "validate"@
            &&& carries_text(payload, "id"@, command->Validate_id)
            &&& carries(payload, "fix"@, ArgumentView::Flag(command->Validate_fix))
            &&& carries_text(payload, "board"@, command->Validate_board)
            &&& carries(payload, "all"@, ArgumentView::Flag(command->Validate_all))
            &&& carries_text(payload, "status"@, command->Validate_status)
        }),
{
    let payload = request_spec(command, body).1;
    if command is List {
        assert(payload[0].0 == "status"@ && payload[1].0 == "board"@ && payload[2].0
            == "item_type"@ && payload[3].0 == "assignee"@ && payload[4].0 == "resolution"@
            && payload[5].0 == "priority"@ && payload[6].0 == "tags"@ && payload[7].0 == "ready"@);
    }
    if command is Next {
        assert(payload[0].0 == "status"@ && payload[1].0 == "assignee"@);
    }
    if command is Export {
        assert(payload[0].0 == "id"@ && payload[1].0 == "format"@ && payload[2].0 == "board"@
            && payload[3].0 == "item_type"@ && payload[4].0 == "status"@);
    }
    if command is Validate {
        assert(payload[0].0 == "id"@ && payload[1].0 == "fix"@ && payload[2].0 == "board"@
            && payload[3].0 == "all"@ && payload[4].0 == "status"@);
    }
}

/// The further requests carry what they are about.
pub proof fn law_requests_carry_their_subject(command: Command, body: Option<Seq<char>>)
    ensures
        ({
            let (name, payload) = request_spec(command, body);
            &&& command is Ratify ==> name == "ratify"@ && carries(
                payload,
                "phase_tag"@,
                ArgumentView::Text(command->Ratify_phase@),
            )
            &&& command is Comment ==> name == "comment"@ && carries(
                payload,
                "id"@,
                ArgumentView::Text(command->Comment_id@),
            ) && carries(payload, "text"@, ArgumentView::Text(command->Comment_text@))
            &&& command is Board ==> name == "board"@ && carries(
                payload,
                "board"@,
                ArgumentView::Text(command->Board_board@),
            )
            &&& command is Show ==> name == "show"@ && carries(
                payload,
                "id"@,
                ArgumentView::Text(command->Show_id@),
            ) && carries(payload, "format"@, ArgumentView::Text(command->Show_format@)) && carries(
                payload,
                "relations"@,
                ArgumentView::Flag(command->Show_relations),
            )
            &&& command is Roadmap ==> name == "roadmap"@ && carries(
                payload,
                "flat"@,
                ArgumentView::Flag(command->Roadmap_flat),
            ) && carries(payload, "ready"@, ArgumentView::Flag(command->Roadmap_ready))
                && carries_text(payload, "campaign"@, command->Roadmap_campaign)
            &&& command is Worklist ==> name == "worklist"@ && carries(
                payload,
                "agents"@,
                ArgumentView::Text(command->Worklist_agents@),
            ) && carries(payload, "depth"@, ArgumentView::Number(command->Worklist_depth as u64))
            &&& command is History ==> name == "history"@ && carries(
                payload,
                "week"@,
                ArgumentView::Flag(command->History_week),
            ) && carries(payload, "month"@, ArgumentView::Flag(command->History_month))
                && carries_text(payload, "since"@, command->History_since) && carries_text(
                payload,
                "by_assignee"@,
                command->History_by_assignee,
            )
            &&& command is NextId ==> name == "next-id"@ && carries(
                payload,
                "item_type"@,
                ArgumentView::Text(command->NextId_item_type@),
            )
            &&& command is Rank ==> name == "rank"@ && carries(
                payload,
                "id"@,
                ArgumentView::Text(command->Rank_id@),
            ) && carries(payload, "rank"@, ArgumentView::Number(command->Rank_rank as u64))
            &&& command is CriticalPath ==> name == "critical-path"@
            &&& command is Blocked ==> name == "blocked"@
        }),
{
    let payload = request_spec(command, body).1;
    if payload.len() > 0 {
        assert(payload[0] == payload[0]);
    }
    if command is Comment || command is Worklist || command is Rank {
        assert(payload[1] == payload[1]);
    }
    if command is Show || command is Roadmap {
        assert(payload[1] == payload[1] && payload[2] == payload[2]);
    }
    if command is History {
        assert(payload[1] == payload[1] && payload[2] == payload[2] && payload[3] == payload[3]);
    }
}

/// A body that is read from a file goes before one on the command line, and is trimmed; a
/// file that cannot be read means that there is none.
pub proof fn law_files_go_before_bodies(body: Option<String>, content: String)
    ensures
        updated_body(body, BodyFile::Content(content)) == Some(text::trim_spec(content@)),
        updated_body(body, BodyFile::Unreadable) is None,
        body matches Some(s) ==> updated_body(body, BodyFile::Unnamed) == Some(s@),
        body is None ==> updated_body(body, BodyFile::Unnamed) is None,
{
}

/// The requests of the research board carry what they are about.
pub proof fn law_research_requests_carry_their_subject(command: HddCommand)
    ensures
        ({
            let (name, payload) = hdd_request_spec(command);
            &&& command is Paper ==> name == "hdd.paper"@ && carries(
                payload,
                "title"@,
                ArgumentView::Text(command->Paper_title@),
            ) && carries(payload, "tags"@, ArgumentView::Texts(tags_spec(command->Paper_tags)))
            &&& command is Hypothesis ==> name == "hdd.hypothesis"@ && carries(
                payload,
                "title"@,
                ArgumentView::Text(command->Hypothesis_title@),
            ) && carries(payload, "paper"@, ArgumentView::Number(command->paper as u64)) && carries(
                payload,
                "tags"@,
                ArgumentView::Texts(tags_spec(command->Hypothesis_tags)),
            )
            &&& command is Experiment ==> name == "hdd.experiment"@ && carries(
                payload,
                "title"@,
                ArgumentView::Text(command->Experiment_title@),
            ) && carries(payload, "hypothesis"@, ArgumentView::Text(command->hypothesis@))
                && carries(
                payload,
                "tags"@,
                ArgumentView::Texts(tags_spec(command->Experiment_tags)),
            )
            &&& command is Measure ==> name == "hdd.measure"@ && carries(
                payload,
                "title"@,
                ArgumentView::Text(command->Measure_title@),
            ) && carries_text(payload, "experiment"@, command->experiment) && carries(
                payload,
                "tags"@,
                ArgumentView::Texts(tags_spec(command->Measure_tags)),
            )
            &&& command is Idea ==> name == "hdd.idea"@ && carries(
                payload,
                "title"@,
                ArgumentView::Text(command->Idea_title@),
            )
            &&& command is Literature ==> name == "hdd.literature"@ && carries(
                payload,
                "title"@,
                ArgumentView::Text(command->Literature_title@),
            )
            &&& command is Run ==> name == "hdd.run"@ && carries(
                payload,
                "experiment_id"@,
                ArgumentView::Text(command->Run_experiment_id@),
            ) && carries_text(payload, "agent"@, command->agent)
            &&& command is Status ==> name == "hdd.run.status"@ && carries(
                payload,
                "experiment_id"@,
                ArgumentView::Text(command->Status_experiment_id@),
            )
            &&& command is Complete ==> name == "hdd.run.complete"@ && carries(
                payload,
                "experiment_id"@,
                ArgumentView::Text(command->Complete_experiment_id@),
            ) && carries(payload, "run"@, ArgumentView::Number(command->run as u64))
                && carries_text(payload, "results"@, command->results)
        }),
{
    let payload = hdd_request_spec(command).1;
    if payload.len() > 0 {
        lemma_carried_at(payload, 0);
    }
    if payload.len() > 1 {
        lemma_carried_at(payload, 1);
    }
    if payload.len() > 2 {
        lemma_carried_at(payload, 2);
    }
}

proof fn lemma_carried_at(payload: Seq<(Seq<char>, ArgumentView)>, i: int)
    requires
        0 <= i < payload.len(),
    ensures
        carries(payload, payload[i].0, payload[i].1),
{
    assert(payload[i] == (payload[i].0, payload[i].1));
}

/// A search carries its words, and what was asked for besides them only where it was; how
/// many results are wanted is said where it is not the usual ten, or where meaning is
/// searched for.
pub proof fn law_searches_travel_as_asked(
    command: Command,
    body: Option<Seq<char>>,
    name: Seq<char>,
    value: ArgumentView,
)
    requires
        command is Query,
    ensures
        request_spec(command, body).0 == "query"@,
        carries(request_spec(command, body).1, name, value) <==> (name == "query"@ && value
            == ArgumentView::Text(text::join_spec(text::views(command->Query_query@), " "@))) || (
        name == "search"@ && (command->Query_search matches Some(s) && value == ArgumentView::Text(
            s@,
        ))) || (name == "top"@ && (command->Query_search is Some || command->Query_top != 10)
            && value == ArgumentView::Number(command->Query_top as u64)) || (name == "sparql"@ && (
        command->Query_sparql matches Some(s) && value == ArgumentView::Text(s@))) || (name
            == "embedding_provider"@ && (command->Query_embedding_provider matches Some(s) && value
            == ArgumentView::Text(s@))),
{
    let c0 = seq![
        (
            "query"@,
            ArgumentView::Text(text::join_spec(text::views(command->Query_query@), " "@)),
        ),
    ];
    let c1 = when_some("search"@, relation_vocab::option_view(command->Query_search));
    let asked = command->Query_search is Some || command->Query_top != 10;
    let c2 = if asked {
        seq![("top"@, ArgumentView::Number(command->Query_top as u64))]
    } else {
        Seq::empty()
    };
    let c3 = when_some("sparql"@, relation_vocab::option_view(command->Query_sparql));
    let c4 = when_some(
        "embedding_provider"@,
        relation_vocab::option_view(command->Query_embedding_provider),
    );
    lemma_one(
        "query"@,
        ArgumentView::Text(text::join_spec(text::views(command->Query_query@), " "@)),
        name,
        value,
    );
    lemma_some("search"@, relation_vocab::option_view(command->Query_search), name, value);
    lemma_one("top"@, ArgumentView::Number(command->Query_top as u64), name, value);
    lemma_some("sparql"@, relation_vocab::option_view(command->Query_sparql), name, value);
    lemma_some(
        "embedding_provider"@,
        relation_vocab::option_view(command->Query_embedding_provider),
        name,
        value,
    );
    lemma_carried(c0, c1, name, value);
    lemma_carried(c0 + c1, c2, name, value);
    lemma_carried(c0 + c1 + c2, c3, name, value);
    lemma_carried(c0 + c1 + c2 + c3, c4, name, value);
}

} // verus!
