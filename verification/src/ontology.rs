//! The ontology of the board: the classes of its items, the relations between them
//! and the states of their life.
use vstd::prelude::*;
use vstd::string::StringExecFns;

verus! {

/// The ontology, in Turtle, part by part. It is the one source of the vocabulary and of
/// the lifecycle model; growing either means editing this text.
///
/// Relations are declared as `owl:ObjectProperty`, kinds of things as `owl:Class`. A comma
/// between classes means: either of them. `kb:Item` means: any item.
pub const KANBAN_TTL: [&'static str; 33] = [
    // The items of the boards.
    r##"# The kanban ontology.

@prefix kb: <https://arrow-kanban.dev/ontology/> .
@prefix owl: <http://www.w3.org/2002/07/owl/> .
@prefix rdfs: <http://www.w3.org/2000/01/rdf-schema/> .

kb:Item a owl:Class ;
    rdfs:label "Item" .

kb:DevItem a owl:Class ;
    rdfs:subClassOf kb:Item ;
    rdfs:label "Development item" .

kb:ResearchItem a owl:Class ;
    rdfs:subClassOf kb:Item ;
    rdfs:label "Research item" .

kb:Expedition a owl:Class ;
    rdfs:subClassOf kb:DevItem ;
    rdfs:label "Expedition" .

kb:Voyage a owl:Class ;
    rdfs:subClassOf kb:DevItem ;
    rdfs:label "Voyage" .

kb:Campaign a owl:Class ;
    rdfs:subClassOf kb:DevItem ;
    rdfs:label "Campaign" .

kb:Chore a owl:Class ;
    rdfs:subClassOf kb:DevItem ;
    rdfs:label "Chore" .

kb:Hazard a owl:Class ;
    rdfs:subClassOf kb:DevItem ;
    rdfs:label "Hazard" .

kb:Signal a owl:Class ;
    rdfs:subClassOf kb:DevItem ;
    rdfs:label "Signal" .

kb:Feature a owl:Class ;
    rdfs:subClassOf kb:DevItem ;
    rdfs:label "Feature" .

"##,
    r##"kb:Paper a owl:Class ;
    rdfs:subClassOf kb:ResearchItem ;
    rdfs:label "Paper" .

kb:Hypothesis a owl:Class ;
    rdfs:subClassOf kb:ResearchItem ;
    rdfs:label "Hypothesis" .

kb:Experiment a owl:Class ;
    rdfs:subClassOf kb:ResearchItem ;
    rdfs:label "Experiment" .

kb:Measure a owl:Class ;
    rdfs:subClassOf kb:ResearchItem ;
    rdfs:label "Measure" .

kb:Idea a owl:Class ;
    rdfs:subClassOf kb:ResearchItem ;
    rdfs:label "Idea" .

kb:Literature a owl:Class ;
    rdfs:subClassOf kb:ResearchItem ;
    rdfs:label "Literature" .

"##,
    // Other kinds of things, which relations may point at although they are on no board, and
    // attributes. With an id prefix, ids of the kind can be recognised.
    r##"kb:Proposal a owl:Class ;
    kb:idPrefix "PROP" ;
    rdfs:label "Proposal" .

kb:Comment a owl:Class ;
    kb:idPrefix "CMT" ;
    rdfs:label "Comment" .

kb:Run a owl:Class ;
    rdfs:label "Run" .

kb:ExperimentRun a owl:Class ;
    rdfs:label "Experiment run" .

kb:CIResult a owl:Class ;
    rdfs:label "CI result" .

kb:status a owl:DatatypeProperty ;
    rdfs:domain kb:Item ;
    rdfs:label "status" .

kb:acfDimension a owl:DatatypeProperty ;
    rdfs:domain kb:Hypothesis ;
    rdfs:label "acfDimension" .

"##,
    // Relations between any items, and those of the boards.
    r##"kb:related a owl:ObjectProperty ;
    rdfs:domain kb:Item ;
    rdfs:range kb:Item ;
    rdfs:label "related" ;
    rdfs:comment "informational link between any two items (the existing --related)" .

"##,
    r##"kb:dependsOn a owl:ObjectProperty ;
    rdfs:domain kb:Item ;
    rdfs:range kb:Item ;
    owl:inverseOf kb:blocks ;
    rdfs:label "dependsOn" ;
    rdfs:comment "this item is BLOCKED BY the target (the existing --depends-on)" .

"##,
    r##"kb:blocks a owl:ObjectProperty ;
    rdfs:domain kb:Item ;
    rdfs:range kb:Item ;
    owl:inverseOf kb:dependsOn ;
    rdfs:label "blocks" ;
    rdfs:comment "this item BLOCKS the target (inverse of dependsOn; stored one way only)" .

"##,
    r##"kb:parent a owl:ObjectProperty ;
    rdfs:domain kb:Item ;
    rdfs:range kb:Item ;
    rdfs:label "parent" ;
    rdfs:comment "hierarchical containment — this item is contained by the target" .

"##,
    r##"kb:implements a owl:ObjectProperty ;
    rdfs:domain kb:Expedition ;
    rdfs:range kb:Voyage ;
    owl:inverseOf kb:spawns ;
    rdfs:label "implements" ;
    rdfs:comment "an expedition delivers work toward a voyage" .

"##,
    r##"kb:spawns a owl:ObjectProperty ;
    rdfs:domain kb:Voyage ;
    rdfs:range kb:Expedition ;
    owl:inverseOf kb:implements ;
    rdfs:label "spawns" ;
    rdfs:comment "a voyage creates and coordinates an expedition" .

"##,
    r##"kb:tests a owl:ObjectProperty ;
    rdfs:domain kb:Hypothesis ;
    rdfs:range kb:Paper ;
    rdfs:label "tests" ;
    rdfs:comment "a hypothesis is tested in the context of a paper" .

"##,
    r##"kb:validates a owl:ObjectProperty ;
    rdfs:domain kb:Experiment ;
    rdfs:range kb:Hypothesis ;
    rdfs:label "validates" ;
    rdfs:comment "an experiment produces evidence for or against a hypothesis" .

"##,
    r##"kb:measures a owl:ObjectProperty ;
    rdfs:domain kb:Measure ;
    rdfs:range kb:Experiment , kb:Hypothesis ;
    rdfs:label "measures" ;
    rdfs:comment "a measure tracks the outcome of an experiment (or, per current practice, a hypothesis)" .

"##,
    // Membership crosses types: a voyage is part of a campaign.
    r##"kb:partOf a owl:ObjectProperty ;
    rdfs:domain kb:Item ;
    rdfs:range kb:Item ;
    owl:inverseOf kb:hasMember ;
    rdfs:label "partOf" ;
    rdfs:comment "this item is a member of the target" .

"##,
    r##"kb:hasMember a owl:ObjectProperty ;
    rdfs:domain kb:Item ;
    rdfs:range kb:Item ;
    owl:inverseOf kb:partOf ;
    rdfs:label "hasMember" ;
    rdfs:comment "the target is a member of this item" .

"##,
    // Decisions and obligations.
    r##"kb:closes a owl:ObjectProperty ;
    rdfs:domain kb:Proposal ;
    rdfs:range kb:Item ;
    owl:inverseOf kb:closedBy ;
    rdfs:label "closes" ;
    rdfs:comment "a proposal closes an item" .

"##,
    r##"kb:closedBy a owl:ObjectProperty ;
    rdfs:domain kb:Item ;
    rdfs:range kb:Proposal ;
    owl:inverseOf kb:closes ;
    rdfs:label "closedBy" ;
    rdfs:comment "an item is closed by a proposal" .

"##,
    r##"kb:supersedes a owl:ObjectProperty ;
    rdfs:domain kb:Item ;
    rdfs:range kb:Item ;
    owl:inverseOf kb:supersededBy ;
    rdfs:label "supersedes" ;
    rdfs:comment "this item takes the place of the target" .

"##,
    r##"kb:supersededBy a owl:ObjectProperty ;
    rdfs:domain kb:Item ;
    rdfs:range kb:Item ;
    owl:inverseOf kb:supersedes ;
    rdfs:label "supersededBy" ;
    rdfs:comment "the target takes the place of this item" .

"##,
    r##"kb:leavesRemainder a owl:ObjectProperty ;
    rdfs:domain kb:Item ;
    rdfs:range kb:Item ;
    owl:inverseOf kb:remainderOf ;
    rdfs:label "leavesRemainder" ;
    rdfs:comment "this item leaves work over for the target" .

"##,
    r##"kb:remainderOf a owl:ObjectProperty ;
    rdfs:domain kb:Item ;
    rdfs:range kb:Item ;
    owl:inverseOf kb:leavesRemainder ;
    rdfs:label "remainderOf" ;
    rdfs:comment "this item is work left over from the target" .

"##,
    r##"kb:ruledBy a owl:ObjectProperty ;
    rdfs:domain kb:Item ;
    rdfs:range kb:Item ;
    owl:inverseOf kb:scopes ;
    rdfs:label "ruledBy" ;
    rdfs:comment "the target decides about this item" .

"##,
    r##"kb:scopes a owl:ObjectProperty ;
    rdfs:domain kb:Item ;
    rdfs:range kb:Item ;
    owl:inverseOf kb:ruledBy ;
    rdfs:label "scopes" ;
    rdfs:comment "this item decides about the target" .

"##,
    // What comments, runs and results belong to.
    r##"kb:commentOn a owl:ObjectProperty ;
    rdfs:domain kb:Comment ;
    rdfs:range kb:Item ;
    rdfs:label "commentOn" ;
    rdfs:comment "a comment is about an item" .

"##,
    r##"kb:evaluates a owl:ObjectProperty ;
    rdfs:domain kb:CIResult ;
    rdfs:range kb:Proposal ;
    rdfs:label "evaluates" ;
    rdfs:comment "a CI result evaluates a proposal" .

"##,
    r##"kb:transitions a owl:ObjectProperty ;
    rdfs:domain kb:Run ;
    rdfs:range kb:Item ;
    rdfs:label "transitions" ;
    rdfs:comment "a run moves an item from one state to another" .

"##,
    // States are neither kinds of things nor relations: they have a type of their own.
    r##"# LIFECYCLE STATES + TRANSITIONS

"##,
    r##"kb:backlog a kb:LifecycleState ;
    kb:board "development" ;
    rdfs:label "backlog" ;
    rdfs:comment "raw intake" ;
    kb:transitionsTo kb:planning , kb:in_progress , kb:done , kb:stale .

"##,
    r##"kb:planning a kb:LifecycleState ;
    kb:board "development" ;
    rdfs:label "planning" ;
    rdfs:comment "being planned, not to be claimed yet" ;
    kb:transitionsTo kb:ready , kb:backlog , kb:stale .

"##,
    r##"kb:ready a kb:LifecycleState ;
    kb:board "development" ;
    rdfs:label "ready" ;
    rdfs:comment "planned and released for work" ;
    kb:transitionsTo kb:in_progress , kb:planning .

"##,
    r##"kb:in_progress a kb:LifecycleState ;
    kb:board "development" ;
    rdfs:label "in_progress" ;
    rdfs:comment "claimed and being built" ;
    kb:transitionsTo kb:review , kb:backlog , kb:done .

"##,
    r##"kb:review a kb:LifecycleState ;
    kb:board "development" ;
    rdfs:label "review" ;
    rdfs:comment "under review by another agent" ;
    kb:transitionsTo kb:done , kb:in_progress .

"##,
    r##"kb:done a kb:LifecycleState ;
    kb:board "development" ;
    rdfs:label "done" ;
    rdfs:comment "terminal, with a resolution" ;
    kb:transitionsTo kb:backlog .

"##,
    r##"kb:stale a kb:LifecycleState ;
    kb:board "development" ;
    rdfs:label "stale" ;
    rdfs:comment "parked by an operator" ;
    kb:transitionsTo kb:backlog .

"##,
];

/// The parts of the ontology.
pub open spec fn parts() -> Seq<Seq<char>> {
    Seq::new(33, |i: int| KANBAN_TTL@[i]@)
}

/// The first `n` of some texts, one after the other.
pub open spec fn joined(list: Seq<Seq<char>>, n: nat) -> Seq<char>
    decreases n,
{
    if n == 0 {
        Seq::empty()
    } else {
        joined(list, (n - 1) as nat) + list[n - 1]
    }
}

/// The text of the ontology.
pub open spec fn kanban_text() -> Seq<char> {
    joined(parts(), 33)
}

pub fn kanban_ttl() -> (r: String)
    ensures
        r@ == kanban_text(),
{
    let all: [&'static str; 33] = KANBAN_TTL;
    let mut r: String = String::new();
    let mut i: usize = 0;
    while i < 33
        invariant
            i <= 33,
            all == KANBAN_TTL,
            r@ == joined(parts(), i as nat),
        decreases 33 - i,
    {
        r.append(all[i]);
        assert(parts()[i as int] == all@[i as int]@);
        i = i + 1;
    }
    r
}

} // verus!
