//! The lifecycle of items: the states of a board and the moves between them, as the
//! ontology declares them.
//!
//! States are declared as `kb:LifecycleState` and moves with `kb:transitionsTo`, apart
//! from the vocabulary of relations: a state is neither a relation nor a class that a
//! relation may point at. A text that cannot be read, or that declares no state, gives
//! the four historical states with every move between them.
use vstd::prelude::*;
use vstd::string::StringExecFns;
use crate::ontology;
use crate::relation_vocab;
use crate::text;
use crate::turtle;
use crate::turtle::Statement;

verus! {

/// A state and where items may move from it.
#[derive(Debug, PartialEq, Eq)]
pub struct LifecycleState {
    /// The name, as items carry it.
    pub name: String,
    /// The board that the state belongs to.
    pub board: String,
    /// The states that a move may lead to.
    pub transitions_to: Vec<String>,
    /// What the state means, in one line.
    pub doc: String,
}

#[verifier::ext_equal]
pub struct StateView {
    pub name: Seq<char>,
    pub board: Seq<char>,
    pub transitions_to: Seq<Seq<char>>,
    pub doc: Seq<char>,
}

impl View for LifecycleState {
    type V = StateView;

    open spec fn view(&self) -> StateView {
        StateView {
            name: self.name@,
            board: self.board@,
            transitions_to: text::views(self.transitions_to@),
            doc: self.doc@,
        }
    }
}

impl Clone for LifecycleState {
    fn clone(&self) -> (r: Self)
        ensures
            r@ == self@,
    {
        LifecycleState {
            name: self.name.clone(),
            board: self.board.clone(),
            transitions_to: text::clone_strings(&self.transitions_to),
            doc: self.doc.clone(),
        }
    }
}

pub open spec fn state_views(list: Seq<LifecycleState>) -> Seq<StateView> {
    Seq::new(list.len(), |i: int| list[i]@)
}

/// What a model says of a move.
#[derive(Debug, Clone, PartialEq, Eq)]
pub enum TransitionVerdict {
    /// The move is in the model.
    Legal,
    /// Both states are in the model and the move is not. The states that a move may lead
    /// to instead come along.
    Illegal { legal_targets: Vec<String> },
    /// One of the states, or both, is not in the model.
    UnknownState,
}

#[verifier::ext_equal]
pub enum VerdictView {
    Legal,
    Illegal { legal_targets: Seq<Seq<char>> },
    UnknownState,
}

impl View for TransitionVerdict {
    type V = VerdictView;

    open spec fn view(&self) -> VerdictView {
        match *self {
            TransitionVerdict::Legal => VerdictView::Legal,
            TransitionVerdict::Illegal { legal_targets } => VerdictView::Illegal {
                legal_targets: text::views(legal_targets@),
            },
            TransitionVerdict::UnknownState => VerdictView::UnknownState,
        }
    }
}

// ---- reading states ----------------------------------------------------------------------

/// What the clauses of a declaration have said so far.
#[verifier::ext_equal]
pub struct DeclarationView {
    pub board: Seq<char>,
    pub label: Option<Seq<char>>,
    pub doc: Option<Seq<char>>,
    pub targets: Seq<Seq<char>>,
}

pub open spec fn blank_declaration() -> DeclarationView {
    DeclarationView { board: Seq::empty(), label: None, doc: None, targets: Seq::empty() }
}

/// The states that the first `n` terms of a list name, after those already named.
pub open spec fn more_targets(named: Seq<Seq<char>>, terms: Seq<Seq<char>>, n: nat) -> Result<
    Seq<Seq<char>>,
    Seq<char>,
>
    decreases n,
{
    if n == 0 {
        Ok(named)
    } else {
        match more_targets(named, terms, (n - 1) as nat) {
            Err(e) => Err(e),
            Ok(before) => match turtle::local_spec(text::trim_spec(terms[n - 1])) {
                Err(e) => Err(e),
                Ok(name) => Ok(before.push(name)),
            },
        }
    }
}

/// A declaration with one more clause. Clauses that say something else are passed
/// over.
pub open spec fn with_clause(d: DeclarationView, clause: Seq<char>, local: Seq<char>) -> Result<
    DeclarationView,
    Seq<char>,
> {
    let c = text::trim_spec(clause);
    if c.len() == 0 {
        Ok(d)
    } else {
        match turtle::cut_clause(c) {
            None => Err(turtle::bad_clause(c, local)),
            Some((word, rest)) => if word == "kb:board"@ {
                match turtle::quoted_spec(rest) {
                    Ok(board) => Ok(DeclarationView { board, ..d }),
                    Err(e) => Err(e),
                }
            } else if word == "rdfs:label"@ {
                match turtle::quoted_spec(rest) {
                    Ok(label) => Ok(DeclarationView { label: Some(label), ..d }),
                    Err(e) => Err(e),
                }
            } else if word == "rdfs:comment"@ {
                match turtle::quoted_spec(rest) {
                    Ok(doc) => Ok(DeclarationView { doc: Some(doc), ..d }),
                    Err(e) => Err(e),
                }
            } else if word == "kb:transitionsTo"@ {
                let terms = turtle::split_quoted(rest, ',').0;
                match more_targets(d.targets, terms, terms.len()) {
                    Ok(targets) => Ok(DeclarationView { targets, ..d }),
                    Err(e) => Err(e),
                }
            } else {
                Ok(d)
            },
        }
    }
}

pub open spec fn with_clauses(clauses: Seq<Seq<char>>, local: Seq<char>, n: nat) -> Result<
    DeclarationView,
    Seq<char>,
>
    decreases n,
{
    if n == 0 {
        Ok(blank_declaration())
    } else {
        match with_clauses(clauses, local, (n - 1) as nat) {
            Ok(d) => with_clause(d, clauses[n - 1], local),
            Err(e) => Err(e),
        }
    }
}

/// The state that a declaration gives: it has the label for a name, or else its own,
/// and it is of the development board unless the declaration names another.
pub open spec fn declared_state(d: DeclarationView, local: Seq<char>) -> StateView {
    StateView {
        name: match d.label {
            Some(label) => label,
            None => local,
        },
        board: if d.board.len() == 0 {
            "development"@
        } else {
            d.board
        },
        transitions_to: d.targets,
        doc: match d.doc {
            Some(doc) => doc,
            None => Seq::empty(),
        },
    }
}

/// The state that a statement declares, if it declares one.
pub open spec fn state_of(statement: Seq<char>) -> Result<Option<StateView>, Seq<char>> {
    let head = turtle::head_spec(statement);
    if !turtle::declares(head, "kb:LifecycleState"@) {
        Ok(None)
    } else {
        match turtle::local_spec(text::first_word_spec(head)) {
            Err(e) => Err(e),
            Ok(local) => {
                let clauses = turtle::clauses_spec(statement);
                match with_clauses(clauses, local, clauses.len()) {
                    Err(e) => Err(e),
                    Ok(d) => Ok(Some(declared_state(d, local))),
                }
            },
        }
    }
}

/// The states that the first `n` statements declare.
pub open spec fn declared_states(statements: Seq<Seq<char>>, n: nat) -> Result<
    Seq<StateView>,
    Seq<char>,
>
    decreases n,
{
    if n == 0 {
        Ok(Seq::empty())
    } else {
        match declared_states(statements, (n - 1) as nat) {
            Err(e) => Err(e),
            Ok(before) => match state_of(statements[n - 1]) {
                Err(e) => Err(e),
                Ok(None) => Ok(before),
                Ok(Some(s)) => Ok(before.push(s)),
            },
        }
    }
}

pub open spec fn has_state(model: Seq<StateView>, name: Seq<char>) -> bool {
    exists|i: int| 0 <= i < model.len() && (#[trigger] model[i]).name == name
}

/// The first of the first `n` names that is not a state of the model.
pub open spec fn stray(model: Seq<StateView>, names: Seq<Seq<char>>, n: nat) -> Option<Seq<char>>
    decreases n,
{
    if n == 0 {
        None
    } else {
        match stray(model, names, (n - 1) as nat) {
            Some(name) => Some(name),
            None => if has_state(model, names[n - 1]) {
                None
            } else {
                Some(names[n - 1])
            },
        }
    }
}

/// What is wrong where one of the first `n` states leads to a state that is not
/// declared.
pub open spec fn dangling(model: Seq<StateView>, n: nat) -> Option<Seq<char>>
    decreases n,
{
    if n == 0 {
        None
    } else {
        match dangling(model, (n - 1) as nat) {
            Some(e) => Some(e),
            None => {
                let s = model[n - 1];
                match stray(model, s.transitions_to, s.transitions_to.len()) {
                    None => None,
                    Some(target) => Some(
                        "state '"@ + s.name + "' transitions to undeclared state '"@ + target
                            + "'"@,
                    ),
                }
            },
        }
    }
}

/// The states that a text declares.
pub open spec fn states_spec(ttl: Seq<char>) -> Result<Seq<StateView>, Seq<char>> {
    match turtle::statements_spec(ttl) {
        Err(e) => Err(e),
        Ok(statements) => match declared_states(statements, statements.len()) {
            Err(e) => Err(e),
            Ok(list) => match dangling(list, list.len()) {
                Some(e) => Err(e),
                None => Ok(list),
            },
        },
    }
}

#[derive(Debug)]
struct Declaration {
    board: String,
    label: Option<String>,
    doc: Option<String>,
    targets: Vec<String>,
}

impl View for Declaration {
    type V = DeclarationView;

    closed spec fn view(&self) -> DeclarationView {
        DeclarationView {
            board: self.board@,
            label: relation_vocab::option_view(self.label),
            doc: relation_vocab::option_view(self.doc),
            targets: text::views(self.targets@),
        }
    }
}

fn add_targets(named: Vec<String>, rest: &str) -> (r: Result<Vec<String>, String>)
    ensures
        ({
            let terms = turtle::split_quoted(rest@, ',').0;
            let spec = more_targets(text::views(named@), terms, terms.len());
            &&& r is Ok == spec is Ok
            &&& r is Ok ==> text::views(r->Ok_0@) == spec->Ok_0
            &&& r is Err ==> r->Err_0@ == spec->Err_0
        }),
{
    let ghost start = text::views(named@);
    let terms: Vec<String> = turtle::split_outside_quotes(rest, ',');
    let ghost all = text::views(terms@);
    let mut targets: Vec<String> = named;
    let mut i: usize = 0;
    while i < terms.len()
        invariant
            i <= terms@.len(),
            all == text::views(terms@),
            all == turtle::split_quoted(rest@, ',').0,
            start == text::views(named@),
            more_targets(start, all, i as nat) is Ok,
            more_targets(start, all, i as nat)->Ok_0 == text::views(targets@),
        decreases terms@.len() - i,
    {
        let term: String = text::trim(terms[i].as_str());
        match turtle::kb_local(term.as_str()) {
            Ok(name) => {
                let ghost before = text::views(targets@);
                let ghost next = name@;
                targets.push(name);
                assert(text::views(targets@) =~= before.push(next));
            },
            Err(message) => {
                proof {
                    lemma_targets_stay_wrong(start, all, (i + 1) as nat, all.len());
                }
                return Err(message);
            },
        }
        i = i + 1;
    }
    Ok(targets)
}

proof fn lemma_targets_stay_wrong(
    named: Seq<Seq<char>>,
    terms: Seq<Seq<char>>,
    m: nat,
    n: nat,
)
    requires
        m <= n,
        more_targets(named, terms, m) is Err,
    ensures
        more_targets(named, terms, n) == more_targets(named, terms, m),
    decreases n - m,
{
    if m < n {
        lemma_targets_stay_wrong(named, terms, m, (n - 1) as nat);
    }
}

fn add_clause(d: Declaration, clause: &str, local: &str) -> (r: Result<Declaration, String>)
    ensures
        r is Ok == with_clause(d@, clause@, local@) is Ok,
        r is Ok ==> r->Ok_0@ == with_clause(d@, clause@, local@)->Ok_0,
        r is Err ==> r->Err_0@ == with_clause(d@, clause@, local@)->Err_0,
{
    let c: String = text::trim(clause);
    if c.as_str().is_empty() {
        return Ok(d);
    }
    let (word, rest) = match turtle::split_clause(c.as_str(), local) {
        Ok(parts) => parts,
        Err(message) => return Err(message),
    };
    if text::same(word.as_str(), "kb:board") {
        match turtle::quoted(rest.as_str()) {
            Ok(board) => Ok(
                Declaration { board, label: d.label, doc: d.doc, targets: d.targets },
            ),
            Err(message) => Err(message),
        }
    } else if text::same(word.as_str(), "rdfs:label") {
        match turtle::quoted(rest.as_str()) {
            Ok(label) => Ok(
                Declaration {
                    board: d.board,
                    label: Some(label),
                    doc: d.doc,
                    targets: d.targets,
                },
            ),
            Err(message) => Err(message),
        }
    } else if text::same(word.as_str(), "rdfs:comment") {
        match turtle::quoted(rest.as_str()) {
            Ok(doc) => Ok(
                Declaration {
                    board: d.board,
                    label: d.label,
                    doc: Some(doc),
                    targets: d.targets,
                },
            ),
            Err(message) => Err(message),
        }
    } else if text::same(word.as_str(), "kb:transitionsTo") {
        match add_targets(d.targets, rest.as_str()) {
            Ok(targets) => Ok(
                Declaration { board: d.board, label: d.label, doc: d.doc, targets },
            ),
            Err(message) => Err(message),
        }
    } else {
        Ok(d)
    }
}

proof fn lemma_clauses_stay_wrong(clauses: Seq<Seq<char>>, local: Seq<char>, m: nat, n: nat)
    requires
        m <= n,
        with_clauses(clauses, local, m) is Err,
    ensures
        with_clauses(clauses, local, n) == with_clauses(clauses, local, m),
    decreases n - m,
{
    if m < n {
        lemma_clauses_stay_wrong(clauses, local, m, (n - 1) as nat);
    }
}

fn read_clauses(clauses: &Vec<String>, local: &str) -> (r: Result<Declaration, String>)
    ensures
        ({
            let spec = with_clauses(text::views(clauses@), local@, clauses@.len());
            &&& r is Ok == spec is Ok
            &&& r is Ok ==> r->Ok_0@ == spec->Ok_0
            &&& r is Err ==> r->Err_0@ == spec->Err_0
        }),
{
    let ghost all = text::views(clauses@);
    let mut d: Declaration = Declaration {
        board: String::new(),
        label: None,
        doc: None,
        targets: Vec::new(),
    };
    assert(d@ =~= blank_declaration()) by {
        assert(d@.board =~= Seq::<char>::empty());
        assert(d@.targets =~= Seq::<Seq<char>>::empty());
    }
    let mut i: usize = 0;
    while i < clauses.len()
        invariant
            i <= clauses@.len(),
            all == text::views(clauses@),
            with_clauses(all, local@, i as nat) is Ok,
            with_clauses(all, local@, i as nat)->Ok_0 == d@,
        decreases clauses@.len() - i,
    {
        d = match add_clause(d, clauses[i].as_str(), local) {
            Ok(next) => next,
            Err(message) => {
                proof {
                    lemma_clauses_stay_wrong(all, local@, (i + 1) as nat, all.len());
                }
                return Err(message);
            },
        };
        i = i + 1;
    }
    Ok(d)
}

fn read_state(statement: &str) -> (r: Result<Option<LifecycleState>, String>)
    ensures
        r is Ok == state_of(statement@) is Ok,
        r is Ok ==> (match r->Ok_0 {
            Some(s) => state_of(statement@)->Ok_0 == Some(s@),
            None => state_of(statement@)->Ok_0 is None,
        }),
        r is Err ==> r->Err_0@ == state_of(statement@)->Err_0,
{
    let parts: Statement = turtle::read_statement(statement);
    if !turtle::head_declares(parts.head.as_str(), "kb:LifecycleState") {
        return Ok(None);
    }
    let subject: String = text::first_word(parts.head.as_str());
    let local: String = match turtle::kb_local(subject.as_str()) {
        Ok(local) => local,
        Err(message) => return Err(message),
    };
    let d: Declaration = match read_clauses(&parts.clauses, local.as_str()) {
        Ok(d) => d,
        Err(message) => return Err(message),
    };
    let board: String = if d.board.as_str().is_empty() {
        text::owned("development")
    } else {
        d.board
    };
    let name: String = match d.label {
        Some(label) => label,
        None => local,
    };
    let doc: String = match d.doc {
        Some(doc) => doc,
        None => String::new(),
    };
    Ok(Some(LifecycleState { name, board, transitions_to: d.targets, doc }))
}

proof fn lemma_states_stay_wrong(statements: Seq<Seq<char>>, m: nat, n: nat)
    requires
        m <= n,
        declared_states(statements, m) is Err,
    ensures
        declared_states(statements, n) == declared_states(statements, m),
    decreases n - m,
{
    if m < n {
        lemma_states_stay_wrong(statements, m, (n - 1) as nat);
    }
}

/// The first state of a model with a name.
pub open spec fn state_named(model: Seq<StateView>, name: Seq<char>) -> Option<StateView>
    decreases model.len(),
{
    if model.len() == 0 {
        None
    } else {
        match state_named(model.drop_last(), name) {
            Some(s) => Some(s),
            None => if model.last().name == name {
                Some(model.last())
            } else {
                None
            },
        }
    }
}

proof fn lemma_state_named(model: Seq<StateView>, name: Seq<char>, i: int)
    requires
        0 <= i <= model.len(),
        forall|k: int| 0 <= k < i ==> (#[trigger] model[k]).name != name,
        i < model.len() ==> model[i].name == name,
    ensures
        state_named(model, name) == (if i < model.len() {
            Some(model[i])
        } else {
            None::<StateView>
        }),
    decreases model.len(),
{
    if model.len() > 0 {
        let shorter = model.drop_last();
        assert forall|k: int| 0 <= k < shorter.len() implies shorter[k] == #[trigger] model[k] by {}
        if i < model.len() - 1 {
            lemma_state_named(shorter, name, i);
        } else {
            lemma_state_named(shorter, name, model.len() - 1);
        }
    }
}

/// A state is found exactly where the model has one of that name.
proof fn lemma_named_iff(model: Seq<StateView>, name: Seq<char>)
    ensures
        state_named(model, name) is Some == has_state(model, name),
        state_named(model, name) is Some ==> state_named(model, name)->0.name == name,
    decreases model.len(),
{
    if model.len() > 0 {
        let shorter = model.drop_last();
        lemma_named_iff(shorter, name);
        if has_state(shorter, name) {
            let k = choose|k: int| 0 <= k < shorter.len() && (#[trigger] shorter[k]).name == name;
            assert(model[k].name == name);
        }
        if has_state(model, name) {
            let k = choose|k: int| 0 <= k < model.len() && (#[trigger] model[k]).name == name;
            if k < shorter.len() {
                assert(shorter[k].name == name);
            }
        }
    }
}

pub fn state_in(model: &Vec<LifecycleState>, name: &str) -> (r: Option<LifecycleState>)
    ensures
        r is Some == state_named(state_views(model@), name@) is Some,
        r is Some ==> r->0@ == state_named(state_views(model@), name@)->0,
{
    let ghost views = state_views(model@);
    let mut i: usize = 0;
    while i < model.len()
        invariant
            i <= model@.len(),
            views == state_views(model@),
            forall|k: int| 0 <= k < i ==> (#[trigger] views[k]).name != name@,
        decreases model@.len() - i,
    {
        assert(views[i as int] == model@[i as int]@);
        if text::same(model[i].name.as_str(), name) {
            proof {
                lemma_state_named(views, name@, i as int);
            }
            return Some(model[i].clone());
        }
        i = i + 1;
    }
    proof {
        lemma_state_named(views, name@, i as int);
    }
    None
}

proof fn lemma_stray_stays(model: Seq<StateView>, names: Seq<Seq<char>>, m: nat, n: nat)
    requires
        m <= n,
        stray(model, names, m) is Some,
    ensures
        stray(model, names, n) == stray(model, names, m),
    decreases n - m,
{
    if m < n {
        lemma_stray_stays(model, names, m, (n - 1) as nat);
    }
}

fn find_stray(model: &Vec<LifecycleState>, names: &Vec<String>) -> (r: Option<String>)
    ensures
        relation_vocab::option_view(r) == stray(
            state_views(model@),
            text::views(names@),
            names@.len(),
        ),
{
    let ghost views = state_views(model@);
    let ghost all = text::views(names@);
    let mut i: usize = 0;
    while i < names.len()
        invariant
            i <= names@.len(),
            views == state_views(model@),
            all == text::views(names@),
            stray(views, all, i as nat) is None,
        decreases names@.len() - i,
    {
        assert(all[i as int] == names@[i as int]@);
        proof {
            lemma_named_iff(views, all[i as int]);
        }
        if state_in(model, names[i].as_str()).is_none() {
            proof {
                lemma_stray_stays(views, all, (i + 1) as nat, all.len());
            }
            return Some(names[i].clone());
        }
        i = i + 1;
    }
    None
}

proof fn lemma_dangling_stays(model: Seq<StateView>, m: nat, n: nat)
    requires
        m <= n,
        dangling(model, m) is Some,
    ensures
        dangling(model, n) == dangling(model, m),
    decreases n - m,
{
    if m < n {
        lemma_dangling_stays(model, m, (n - 1) as nat);
    }
}

fn find_dangling(model: &Vec<LifecycleState>) -> (r: Option<String>)
    ensures
        relation_vocab::option_view(r) == dangling(state_views(model@), model@.len()),
{
    let ghost views = state_views(model@);
    let mut i: usize = 0;
    while i < model.len()
        invariant
            i <= model@.len(),
            views == state_views(model@),
            dangling(views, i as nat) is None,
        decreases model@.len() - i,
    {
        assert(views[i as int] == model@[i as int]@);
        if let Some(target) = find_stray(model, &model[i].transitions_to) {
            let mut message: String = text::owned("state '");
            message.append(model[i].name.as_str());
            message.append("' transitions to undeclared state '");
            message.append(target.as_str());
            message.append("'");
            proof {
                lemma_dangling_stays(views, (i + 1) as nat, views.len());
            }
            return Some(message);
        }
        i = i + 1;
    }
    None
}

/// Reads the states that a text declares. A move to a state that is not declared makes
/// the whole text an error.
pub fn parse_lifecycle_states(ttl: &str) -> (r: Result<Vec<LifecycleState>, String>)
    ensures
        r is Ok == states_spec(ttl@) is Ok,
        r is Ok ==> state_views(r->Ok_0@) == states_spec(ttl@)->Ok_0,
        r is Err ==> r->Err_0@ == states_spec(ttl@)->Err_0,
{
    let statements: Vec<String> = match turtle::logical_statements(ttl) {
        Ok(statements) => statements,
        Err(message) => return Err(message),
    };
    let ghost all = text::views(statements@);
    let mut list: Vec<LifecycleState> = Vec::new();
    let mut i: usize = 0;
    assert(state_views(list@) =~= Seq::<StateView>::empty());
    while i < statements.len()
        invariant
            i <= statements@.len(),
            all == text::views(statements@),
            turtle::statements_spec(ttl@) is Ok,
            turtle::statements_spec(ttl@)->Ok_0 == all,
            declared_states(all, i as nat) is Ok,
            declared_states(all, i as nat)->Ok_0 == state_views(list@),
        decreases statements@.len() - i,
    {
        match read_state(statements[i].as_str()) {
            Ok(Some(s)) => {
                let ghost before = state_views(list@);
                let ghost next = s@;
                list.push(s);
                assert(state_views(list@) =~= before.push(next));
            },
            Ok(None) => {},
            Err(message) => {
                proof {
                    lemma_states_stay_wrong(all, (i + 1) as nat, all.len());
                }
                return Err(message);
            },
        }
        i = i + 1;
    }
    match find_dangling(&list) {
        Some(message) => Err(message),
        None => Ok(list),
    }
}

// ---- the model ----------------------------------------------------------------------------

/// The historical states of the development board, each with a move to every other and
/// to the two states of planning.
pub open spec fn fallback_spec() -> Seq<StateView> {
    seq![
        StateView {
            name: "backlog"@,
            board: "development"@,
            transitions_to: seq!["planning"@, "ready"@, "in_progress"@, "review"@, "done"@],
            doc: "raw intake (legacy fallback model)"@,
        },
        StateView {
            name: "in_progress"@,
            board: "development"@,
            transitions_to: seq!["backlog"@, "planning"@, "ready"@, "review"@, "done"@],
            doc: "claimed and being built (legacy fallback model)"@,
        },
        StateView {
            name: "review"@,
            board: "development"@,
            transitions_to: seq!["backlog"@, "planning"@, "ready"@, "in_progress"@, "done"@],
            doc: "under cross-agent review (legacy fallback model)"@,
        },
        StateView {
            name: "done"@,
            board: "development"@,
            transitions_to: seq!["backlog"@, "planning"@, "ready"@, "in_progress"@, "review"@],
            doc: "terminal with resolution (legacy fallback model)"@,
        },
    ]
}

fn fixed_state(name: &str, targets: [&str; 5], doc: &str) -> (r: LifecycleState)
    ensures
        r@.name == name@,
        r@.board == "development"@,
        r@.transitions_to == seq![
            targets@[0]@,
            targets@[1]@,
            targets@[2]@,
            targets@[3]@,
            targets@[4]@,
        ],
        r@.doc == doc@,
{
    let mut list: Vec<String> = Vec::new();
    list.push(text::owned(targets[0]));
    list.push(text::owned(targets[1]));
    list.push(text::owned(targets[2]));
    list.push(text::owned(targets[3]));
    list.push(text::owned(targets[4]));
    LifecycleState {
        name: text::owned(name),
        board: text::owned("development"),
        transitions_to: list,
        doc: text::owned(doc),
    }
}

/// The states that hold where the ontology gives none.
pub fn fallback_states() -> (r: Vec<LifecycleState>)
    ensures
        state_views(r@) == fallback_spec(),
{
    let mut list: Vec<LifecycleState> = Vec::new();
    list.push(
        fixed_state(
            "backlog",
            ["planning", "ready", "in_progress", "review", "done"],
            "raw intake (legacy fallback model)",
        ),
    );
    list.push(
        fixed_state(
            "in_progress",
            ["backlog", "planning", "ready", "review", "done"],
            "claimed and being built (legacy fallback model)",
        ),
    );
    list.push(
        fixed_state(
            "review",
            ["backlog", "planning", "ready", "in_progress", "done"],
            "under cross-agent review (legacy fallback model)",
        ),
    );
    list.push(
        fixed_state(
            "done",
            ["backlog", "planning", "ready", "in_progress", "review"],
            "terminal with resolution (legacy fallback model)",
        ),
    );
    assert(state_views(list@) =~= fallback_spec());
    list
}

/// The model that a text gives: its own states, or the fixed ones where it cannot be
/// read or declares none.
pub open spec fn model_spec(ttl: Seq<char>) -> Seq<StateView> {
    match states_spec(ttl) {
        Ok(list) => if list.len() > 0 {
            list
        } else {
            fallback_spec()
        },
        Err(_) => fallback_spec(),
    }
}

pub fn states_from(ttl: &str) -> (r: Vec<LifecycleState>)
    ensures
        state_views(r@) == model_spec(ttl@),
{
    match parse_lifecycle_states(ttl) {
        Ok(list) => if list.len() > 0 {
            list
        } else {
            fallback_states()
        },
        Err(_) => fallback_states(),
    }
}

/// The states of the board.
pub fn states() -> (r: Vec<LifecycleState>)
    ensures
        state_views(r@) == model_spec(ontology::kanban_text()),
{
    states_from(ontology::kanban_ttl().as_str())
}

/// The state of the board with a name.
pub fn state(name: &str) -> (r: Option<LifecycleState>)
    ensures
        r is Some == state_named(model_spec(ontology::kanban_text()), name@) is Some,
        r is Some ==> r->0@ == state_named(model_spec(ontology::kanban_text()), name@)->0,
{
    let model: Vec<LifecycleState> = states();
    state_in(&model, name)
}

// ---- moves ---------------------------------------------------------------------------------

/// What a model says of a move. To stay where one is is always legal.
pub open spec fn verdict_spec(model: Seq<StateView>, from: Seq<char>, to: Seq<char>) -> VerdictView {
    if from == to {
        VerdictView::Legal
    } else if state_named(model, from) is None || state_named(model, to) is None {
        VerdictView::UnknownState
    } else if state_named(model, from)->0.transitions_to.contains(to) {
        VerdictView::Legal
    } else {
        VerdictView::Illegal { legal_targets: state_named(model, from)->0.transitions_to }
    }
}

pub fn is_legal_in(model: &Vec<LifecycleState>, from: &str, to: &str) -> (r: TransitionVerdict)
    ensures
        r@ == verdict_spec(state_views(model@), from@, to@),
{
    if text::same(from, to) {
        return TransitionVerdict::Legal;
    }
    let source: LifecycleState = match state_in(model, from) {
        Some(s) => s,
        None => return TransitionVerdict::UnknownState,
    };
    if state_in(model, to).is_none() {
        return TransitionVerdict::UnknownState;
    }
    if text::contains_string(&source.transitions_to, to) {
        TransitionVerdict::Legal
    } else {
        TransitionVerdict::Illegal { legal_targets: source.transitions_to }
    }
}

/// Whether items may move from one state to another.
pub fn is_legal_transition(from: &str, to: &str) -> (r: TransitionVerdict)
    ensures
        r@ == verdict_spec(model_spec(ontology::kanban_text()), from@, to@),
{
    let model: Vec<LifecycleState> = states();
    is_legal_in(&model, from, to)
}

/// The states that items may move to from a state, if the board knows it.
pub fn legal_targets(from: &str) -> (r: Option<Vec<String>>)
    ensures
        r is Some == state_named(model_spec(ontology::kanban_text()), from@) is Some,
        r is Some ==> text::views(r->0@) == state_named(
            model_spec(ontology::kanban_text()),
            from@,
        )->0.transitions_to,
{
    match state(from) {
        Some(s) => Some(s.transitions_to),
        None => None,
    }
}

// ---- what holds of models --------------------------------------------------------------------

/// Every state that a declared model leads to is a state of the model.
pub proof fn law_moves_lead_to_states(ttl: Seq<char>, i: int, j: int)
    requires
        states_spec(ttl) is Ok,
        0 <= i < states_spec(ttl)->Ok_0.len(),
        0 <= j < states_spec(ttl)->Ok_0[i].transitions_to.len(),
    ensures
        has_state(states_spec(ttl)->Ok_0, states_spec(ttl)->Ok_0[i].transitions_to[j]),
{
    let model = states_spec(ttl)->Ok_0;
    let names = model[i].transitions_to;
    assert(dangling(model, model.len()) is None);
    if dangling(model, (i + 1) as nat) is Some {
        lemma_dangling_stays(model, (i + 1) as nat, model.len());
    }
    assert(stray(model, names, names.len()) is None);
    if stray(model, names, (j + 1) as nat) is Some {
        lemma_stray_stays(model, names, (j + 1) as nat, names.len());
    }
}

/// A text that cannot be read, or that declares no state, gives the fixed model.
pub proof fn law_model_falls_back(ttl: Seq<char>)
    requires
        states_spec(ttl) is Err || states_spec(ttl)->Ok_0.len() == 0,
    ensures
        model_spec(ttl) == fallback_spec(),
{
}

/// To move an item to the state it is in is legal, whatever the model.
pub proof fn law_staying_is_legal(model: Seq<StateView>, at: Seq<char>)
    ensures
        verdict_spec(model, at, at) == VerdictView::Legal,
{
}

/// A move between two different states of a model is either one of the moves that a
/// refusal would name, or refused with all of them.
pub proof fn law_refusals_name_the_moves(model: Seq<StateView>, from: Seq<char>, to: Seq<char>)
    requires
        from != to,
        has_state(model, from),
        has_state(model, to),
    ensures
        state_named(model, from) is Some,
        ({
            let targets = state_named(model, from)->0.transitions_to;
            verdict_spec(model, from, to) == (if targets.contains(to) {
                VerdictView::Legal
            } else {
                VerdictView::Illegal { legal_targets: targets }
            })
        }),
{
    lemma_named_iff(model, from);
    lemma_named_iff(model, to);
}

/// A move to or from a state that the model does not know is neither legal nor
/// illegal.
pub proof fn law_unknown_states_are_told_apart(
    model: Seq<StateView>,
    from: Seq<char>,
    to: Seq<char>,
)
    requires
        from != to,
        !has_state(model, from) || !has_state(model, to),
    ensures
        verdict_spec(model, from, to) == VerdictView::UnknownState,
{
    lemma_named_iff(model, from);
    lemma_named_iff(model, to);
}

/// A clause sets the field that its first word is for, and no other: the board, the label,
/// the comment, or further targets. A clause with another word changes nothing.
pub proof fn law_clauses_set_their_field(
    d: DeclarationView,
    clause: Seq<char>,
    local: Seq<char>,
    word: Seq<char>,
    rest: Seq<char>,
    s: Seq<char>,
)
    requires
        text::trim_spec(clause).len() > 0,
        turtle::cut_clause(text::trim_spec(clause)) == Some((word, rest)),
        turtle::quoted_spec(rest) == Ok::<Seq<char>, Seq<char>>(s),
    ensures
        word == "kb:board"@ ==> with_clause(d, clause, local) == Ok::<DeclarationView, Seq<char>>(
            DeclarationView { board: s, label: d.label, doc: d.doc, targets: d.targets },
        ),
        word == "rdfs:label"@ ==> with_clause(d, clause, local) == Ok::<DeclarationView, Seq<char>>(
            DeclarationView { board: d.board, label: Some(s), doc: d.doc, targets: d.targets },
        ),
        word == "rdfs:comment"@ ==> with_clause(d, clause, local) == Ok::<
            DeclarationView,
            Seq<char>,
        >(DeclarationView { board: d.board, label: d.label, doc: Some(s), targets: d.targets }),
        word != "kb:board"@ && word != "rdfs:label"@ && word != "rdfs:comment"@ && word
            != "kb:transitionsTo"@ ==> with_clause(d, clause, local) == Ok::<
            DeclarationView,
            Seq<char>,
        >(d),
{
    reveal_strlit("kb:board");
    reveal_strlit("rdfs:label");
    reveal_strlit("rdfs:comment");
    assert("kb:board"@[0] == 'k' && "rdfs:label"@[5] == 'l' && "rdfs:comment"@[5] == 'c');
    assert("rdfs:label"@[0] == 'r' && "rdfs:comment"@[0] == 'r');
}

proof fn lemma_targets(named: Seq<Seq<char>>, terms: Seq<Seq<char>>, n: nat)
    requires
        n <= terms.len(),
        forall|k: int|
            0 <= k < n ==> turtle::local_spec(text::trim_spec(#[trigger] terms[k])) is Ok,
    ensures
        more_targets(named, terms, n) == Ok::<Seq<Seq<char>>, Seq<char>>(
            named + Seq::new(
                n,
                |k: int| turtle::local_spec(text::trim_spec(terms[k]))->Ok_0,
            ),
        ),
    decreases n,
{
    let f = |k: int| turtle::local_spec(text::trim_spec(terms[k]))->Ok_0;
    if n > 0 {
        lemma_targets(named, terms, (n - 1) as nat);
        assert(turtle::local_spec(text::trim_spec(terms[n - 1])) is Ok);
        assert((named + Seq::new((n - 1) as nat, f)).push(f(n - 1)) =~= named + Seq::new(n, f));
    } else {
        assert(named + Seq::new(0, f) =~= named);
    }
}

/// A clause of targets adds each state that it names, in order, and keeps those before it.
pub proof fn law_targets_are_added_in_order(
    d: DeclarationView,
    clause: Seq<char>,
    local: Seq<char>,
    rest: Seq<char>,
)
    requires
        text::trim_spec(clause).len() > 0,
        turtle::cut_clause(text::trim_spec(clause)) == Some(("kb:transitionsTo"@, rest)),
        forall|k: int|
            0 <= k < turtle::split_quoted(rest, ',').0.len() ==> turtle::local_spec(
                text::trim_spec(#[trigger] turtle::split_quoted(rest, ',').0[k]),
            ) is Ok,
    ensures
        ({
            let terms = turtle::split_quoted(rest, ',').0;
            let after = with_clause(d, clause, local);
            &&& after is Ok
            &&& after->Ok_0.board == d.board
            &&& after->Ok_0.label == d.label
            &&& after->Ok_0.doc == d.doc
            &&& after->Ok_0.targets.len() == d.targets.len() + terms.len()
            &&& after->Ok_0.targets.take(d.targets.len() as int) == d.targets
            &&& forall|k: int|
                0 <= k < terms.len() ==> after->Ok_0.targets[d.targets.len() + k]
                    == turtle::local_spec(text::trim_spec(#[trigger] terms[k]))->Ok_0
        }),
{
    reveal_strlit("kb:board");
    reveal_strlit("rdfs:label");
    reveal_strlit("rdfs:comment");
    reveal_strlit("kb:transitionsTo");
    assert("kb:board"@[3] == 'b' && "kb:transitionsTo"@[3] == 't');
    assert("rdfs:label"@[0] == 'r' && "rdfs:comment"@[0] == 'r' && "kb:transitionsTo"@[0] == 'k');
    let terms = turtle::split_quoted(rest, ',').0;
    lemma_targets(d.targets, terms, terms.len());
    let after = with_clause(d, clause, local);
    assert(after->Ok_0.targets.take(d.targets.len() as int) =~= d.targets);
}

/// A state is named by its label, or else by its term; it is on the development board
/// where it does not say another.
pub proof fn law_states_have_their_names(d: DeclarationView, local: Seq<char>)
    ensures
        d.label matches Some(s) ==> declared_state(d, local).name == s,
        d.label is None ==> declared_state(d, local).name == local,
        d.board.len() > 0 ==> declared_state(d, local).board == d.board,
        d.board.len() == 0 ==> declared_state(d, local).board == "development"@,
        declared_state(d, local).transitions_to == d.targets,
        d.doc matches Some(s) ==> declared_state(d, local).doc == s,
        d.doc is None ==> declared_state(d, local).doc.len() == 0,
{
}

/// The states of a model are those that its statements declare.
pub proof fn law_declared_states_are_all_there(statements: Seq<Seq<char>>, n: nat, s: StateView)
    requires
        n <= statements.len(),
        declared_states(statements, n) is Ok,
    ensures
        declared_states(statements, n)->Ok_0.contains(s) <==> exists|i: int|
            0 <= i < n && state_of(#[trigger] statements[i]) == Ok::<Option<StateView>, Seq<char>>(
                Some(s),
            ),
    decreases n,
{
    if n > 0 {
        let m = (n - 1) as nat;
        law_declared_states_are_all_there(statements, m, s);
        let before = declared_states(statements, m)->Ok_0;
        match state_of(statements[n - 1]) {
            Ok(Some(x)) => {
                vstd::seq_lib::lemma_seq_contains_after_push(before, x, s);
            },
            _ => {},
        }
        if exists|i: int|
            0 <= i < m && state_of(#[trigger] statements[i]) == Ok::<Option<StateView>, Seq<char>>(
                Some(s),
            ) {
            let i = choose|i: int|
                0 <= i < m && state_of(#[trigger] statements[i]) == Ok::<
                    Option<StateView>,
                    Seq<char>,
                >(Some(s));
            assert(0 <= i < n && state_of(statements[i]) == Ok::<Option<StateView>, Seq<char>>(
                Some(s),
            ));
        }
        assert(state_of(statements[n - 1]) == Ok::<Option<StateView>, Seq<char>>(Some(s)) ==> 0 <= n
            - 1 < n);
    }
}

} // verus!
