//! Where a command is carried out: here, or by a server.
use vstd::prelude::*;
use crate::export_pages::PAGE;
use crate::request;
use crate::request::{Command, Argument, ArgumentView, Payload};
use crate::text;

verus! {

/// Where a command is carried out.
#[derive(Debug, Clone, Copy, PartialEq, Eq, Structural)]
pub enum Route {
    /// Here, as a server on standard input and output.
    Serve,
    /// Here, whether or not a server is named: it is about files of this machine.
    Files,
    /// By the server, in one request.
    Server,
    /// By the server, page by page.
    ServerPages,
    /// Here, before there is any configuration.
    SetUp,
    /// Here, on the board of this machine.
    Board,
}

/// Whether a command is answered in pages by a server: the export of a whole board as
/// JSON or as a table.
pub open spec fn is_paged(command: Command) -> bool {
    match command {
        Command::Export { id, format, .. } => id is None && (format@ == "json"@ || format@
            == "markdown"@),
        _ => false,
    }
}

/// Where a command is carried out, where a server is named and where none is.
pub open spec fn route_spec(command: Command, has_server: bool) -> Route {
    if command is McpServer {
        Route::Serve
    } else if request::is_local(command) {
        Route::Files
    } else if has_server {
        if is_paged(command) {
            Route::ServerPages
        } else {
            Route::Server
        }
    } else if command is Init {
        Route::SetUp
    } else {
        Route::Board
    }
}

fn paged(command: &Command) -> (r: bool)
    ensures
        r == is_paged(*command),
{
    match command {
        Command::Export { id: None, format, .. } => text::same(format.as_str(), "json")
            || text::same(format.as_str(), "markdown"),
        _ => false,
    }
}

/// Where a command is carried out.
pub fn route(command: &Command, has_server: bool) -> (r: Route)
    ensures
        r == route_spec(*command, has_server),
{
    match command {
        Command::McpServer { .. } => Route::Serve,
        Command::MaterializeItem { .. } | Command::Backup { .. } | Command::Restore { .. } => {
            Route::Files
        },
        Command::Init { .. } => if has_server {
            Route::Server
        } else {
            Route::SetUp
        },
        _ => if !has_server {
            Route::Board
        } else if paged(command) {
            Route::ServerPages
        } else {
            Route::Server
        },
    }
}

/// Where a server is named, the board of this machine is never read or written: there is
/// no falling back to what may be out of date.
pub proof fn law_a_server_is_the_only_source(command: Command)
    ensures
        route_spec(command, true) != Route::Board,
        route_spec(command, true) != Route::SetUp,
{
}

/// What goes to a server can be made a request.
pub proof fn law_what_is_sent_is_a_request(command: Command, has_server: bool)
    requires
        route_spec(command, has_server) is Server || route_spec(command, has_server) is ServerPages,
    ensures
        has_server,
        !request::is_local(command),
{
}

/// The values of a request for one page.
pub open spec fn page_spec(command: Command, offset: usize) -> Seq<(Seq<char>, ArgumentView)>
    recommends
        is_paged(command),
{
    match command {
        Command::Export { format, board, item_type, status, .. } => seq![
            ("id"@, ArgumentView::Null),
            ("format"@, ArgumentView::Text(format@)),
            ("board"@, ArgumentView::Text(board@)),
            ("item_type"@, request::optional_spec(item_type)),
            ("status"@, request::optional_spec(status)),
            ("offset"@, ArgumentView::Number(offset as u64)),
            ("limit"@, ArgumentView::Number(PAGE as u64)),
        ],
        _ => Seq::empty(),
    }
}

/// The values of a request for the page that starts at an offset.
pub fn page_request(command: &Command, offset: usize) -> (r: Payload)
    requires
        is_paged(*command),
    ensures
        request::payload_view(r@) == page_spec(*command, offset),
{
    let r: Payload = match command {
        Command::Export { format, board, item_type, status, .. } => vec![
            (text::owned("id"), Argument::Null),
            (text::owned("format"), Argument::Text(format.clone())),
            (text::owned("board"), Argument::Text(board.clone())),
            (text::owned("item_type"), request::optional(item_type)),
            (text::owned("status"), request::optional(status)),
            (text::owned("offset"), Argument::Number(offset as u64)),
            (text::owned("limit"), Argument::Number(PAGE as u64)),
        ],
        _ => Vec::new(),
    };
    assert(request::payload_view(r@) =~= page_spec(*command, offset));
    r
}

/// What is about files of this machine stays here, whether or not a server is named; all
/// else goes to the server where one is named.
pub proof fn law_only_files_stay_here(command: Command)
    ensures
        (command is MaterializeItem || command is Backup || command is Restore) <==> route_spec(
            command,
            true,
        ) == Route::Files,
        (command is MaterializeItem || command is Backup || command is Restore) <==> route_spec(
            command,
            false,
        ) == Route::Files,
        command is Init <==> route_spec(command, false) == Route::SetUp,
        command is McpServer <==> route_spec(command, true) == Route::Serve,
        route_spec(command, true) == Route::ServerPages <==> command is Export
            && command->Export_id is None && (command->Export_format@ == "json"@
            || command->Export_format@ == "markdown"@),
{
}

/// The request for a page carries the filters of the export, where the page starts, and how
/// much it may hold.
pub proof fn law_pages_are_asked_for_whole(command: Command, offset: usize)
    requires
        is_paged(command),
    ensures
        ({
            let payload = page_spec(command, offset);
            &&& request::carries(
                payload,
                "format"@,
                ArgumentView::Text(command->Export_format@),
            )
            &&& request::carries(payload, "board"@, ArgumentView::Text(command->Export_board@))
            &&& request::carries_text(payload, "item_type"@, command->Export_item_type)
            &&& request::carries_text(payload, "status"@, command->Export_status)
            &&& request::carries(payload, "offset"@, ArgumentView::Number(offset as u64))
            &&& request::carries(payload, "limit"@, ArgumentView::Number(PAGE as u64))
        }),
{
    let payload = page_spec(command, offset);
    assert(payload[1].0 == "format"@ && payload[2].0 == "board"@ && payload[3].0 == "item_type"@
        && payload[4].0 == "status"@ && payload[5].0 == "offset"@ && payload[6].0 == "limit"@);
}

} // verus!
