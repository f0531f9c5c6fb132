//! The edges that commands ask for, and what they leave behind in an item's lists.
use vstd::prelude::*;
use vstd::string::StringExecFns;
use crate::items::{DEPENDS_ON, RELATED};
use crate::ontology;
use crate::relation_vocab;
use crate::relation_vocab::{ClassView, EntityClass, Predicate, PredicateView};
use crate::text;

verus! {

/// What stands for the id of an item that is yet to be made.
pub open spec fn source_name(source_id: Option<Seq<char>>) -> Seq<char> {
    match source_id {
        Some(id) => id,
        None => "<new>"@,
    }
}

/// An edge that is asked for: the name of its relation as the vocabulary has it, and its
/// target; or what is wrong with it.
pub open spec fn edge_spec(
    vocab: Seq<PredicateView>,
    classes: Seq<ClassView>,
    asked: Seq<char>,
    source_type: Seq<char>,
    source_id: Option<Seq<char>>,
) -> Result<(Seq<char>, Seq<char>), Seq<char>> {
    match relation_vocab::spec_parts(asked) {
        None => Err(
            "malformed --relate '"@ + asked
                + "' — expected <predicate>:<TARGET-ID>, e.g. implements:VY-1234"@,
        ),
        Some((predicate, target)) => match relation_vocab::edge_verdict(
            vocab,
            predicate,
            source_name(source_id),
            source_type,
            target,
            relation_vocab::id_type_spec(classes, target),
        ) {
            Ok(p) => Ok((p.name, target)),
            Err(e) => Err(relation_vocab::edge_message(e)),
        },
    }
}

/// The first `n` edges that are asked for, or what is wrong with the first bad one.
pub open spec fn edges_spec(
    vocab: Seq<PredicateView>,
    classes: Seq<ClassView>,
    asked: Seq<Seq<char>>,
    source_type: Seq<char>,
    source_id: Option<Seq<char>>,
    n: nat,
) -> Result<Seq<(Seq<char>, Seq<char>)>, Seq<char>>
    decreases n,
{
    if n == 0 {
        Ok(Seq::empty())
    } else {
        match edges_spec(vocab, classes, asked, source_type, source_id, (n - 1) as nat) {
            Err(e) => Err(e),
            Ok(before) => match edge_spec(vocab, classes, asked[n - 1], source_type, source_id) {
                Err(e) => Err(e),
                Ok(edge) => Ok(before.push(edge)),
            },
        }
    }
}

pub open spec fn edge_pairs(list: Seq<(String, String)>) -> Seq<(Seq<char>, Seq<char>)> {
    Seq::new(list.len(), |i: int| (list[i].0@, list[i].1@))
}

proof fn lemma_edges_stay_wrong(
    vocab: Seq<PredicateView>,
    classes: Seq<ClassView>,
    asked: Seq<Seq<char>>,
    source_type: Seq<char>,
    source_id: Option<Seq<char>>,
    m: nat,
    n: nat,
)
    requires
        m <= n,
        edges_spec(vocab, classes, asked, source_type, source_id, m) is Err,
    ensures
        edges_spec(vocab, classes, asked, source_type, source_id, n) == edges_spec(
            vocab,
            classes,
            asked,
            source_type,
            source_id,
            m,
        ),
    decreases n - m,
{
    if m < n {
        lemma_edges_stay_wrong(
            vocab,
            classes,
            asked,
            source_type,
            source_id,
            m,
            (n - 1) as nat,
        );
    }
}

fn read_edge(
    vocab: &Vec<Predicate>,
    classes: &Vec<EntityClass>,
    asked: &str,
    source_type: &str,
    source_id: Option<&str>,
) -> (r: Result<(String, String), String>)
    ensures
        ({
            let spec = edge_spec(
                relation_vocab::predicate_views(vocab@),
                relation_vocab::class_views(classes@),
                asked@,
                source_type@,
                relation_vocab::str_view(source_id),
            );
            &&& r is Ok == spec is Ok
            &&& r is Ok ==> ((r->Ok_0).0@, (r->Ok_0).1@) == spec->Ok_0
            &&& r is Err ==> r->Err_0@ == spec->Err_0
        }),
{
    let (predicate, target) = match relation_vocab::parse_spec(asked) {
        Some(parts) => parts,
        None => {
            let mut message: String = text::owned("malformed --relate '");
            message.append(asked);
            message.append("' — expected <predicate>:<TARGET-ID>, e.g. implements:VY-1234");
            return Err(message);
        },
    };
    let source: &str = match source_id {
        Some(id) => id,
        None => "<new>",
    };
    let target_type: Option<String> = relation_vocab::type_from_id_in(classes, target.as_str());
    let known_type: Option<&str> = match &target_type {
        Some(t) => Some(t.as_str()),
        None => None,
    };
    match relation_vocab::validate_edge_in(
        vocab,
        predicate.as_str(),
        source,
        source_type,
        target.as_str(),
        known_type,
    ) {
        Ok(p) => Ok((p.name, target)),
        Err(error) => Err(error.message()),
    }
}

/// Reads edges that are asked for, by a given vocabulary. One bad edge makes all of them
/// an error.
pub fn parse_relate_specs_in(
    vocab: &Vec<Predicate>,
    classes: &Vec<EntityClass>,
    asked: &[String],
    source_type: &str,
    source_id: Option<&str>,
) -> (r: Result<Vec<(String, String)>, String>)
    ensures
        ({
            let spec = edges_spec(
                relation_vocab::predicate_views(vocab@),
                relation_vocab::class_views(classes@),
                text::views(asked@),
                source_type@,
                relation_vocab::str_view(source_id),
                asked@.len(),
            );
            &&& r is Ok == spec is Ok
            &&& r is Ok ==> edge_pairs(r->Ok_0@) == spec->Ok_0
            &&& r is Err ==> r->Err_0@ == spec->Err_0
        }),
{
    let ghost v = relation_vocab::predicate_views(vocab@);
    let ghost c = relation_vocab::class_views(classes@);
    let ghost all = text::views(asked@);
    let ghost id = relation_vocab::str_view(source_id);
    let mut edges: Vec<(String, String)> = Vec::new();
    let mut i: usize = 0;
    assert(edge_pairs(edges@) =~= Seq::<(Seq<char>, Seq<char>)>::empty());
    while i < asked.len()
        invariant
            i <= asked@.len(),
            v == relation_vocab::predicate_views(vocab@),
            c == relation_vocab::class_views(classes@),
            all == text::views(asked@),
            id == relation_vocab::str_view(source_id),
            edges_spec(v, c, all, source_type@, id, i as nat) is Ok,
            edges_spec(v, c, all, source_type@, id, i as nat)->Ok_0 == edge_pairs(edges@),
        decreases asked@.len() - i,
    {
        assert(all[i as int] == asked@[i as int]@);
        match read_edge(vocab, classes, asked[i].as_str(), source_type, source_id) {
            Ok(edge) => {
                let ghost before = edge_pairs(edges@);
                let ghost shown = (edge.0@, edge.1@);
                edges.push(edge);
                assert(edge_pairs(edges@) =~= before.push(shown));
            },
            Err(message) => {
                proof {
                    lemma_edges_stay_wrong(
                        v,
                        c,
                        all,
                        source_type@,
                        id,
                        (i + 1) as nat,
                        all.len(),
                    );
                }
                return Err(message);
            },
        }
        i = i + 1;
    }
    Ok(edges)
}

/// Reads edges that are asked for. One bad edge makes all of them an error, so that
/// nothing is done by halves.
pub fn parse_relate_specs(asked: &[String], source_type: &str, source_id: Option<&str>) -> (r:
    Result<Vec<(String, String)>, String>)
    ensures
        ({
            let spec = edges_spec(
                relation_vocab::vocabulary_spec(ontology::kanban_text()),
                relation_vocab::known_classes_spec(ontology::kanban_text()),
                text::views(asked@),
                source_type@,
                relation_vocab::str_view(source_id),
                asked@.len(),
            );
            &&& r is Ok == spec is Ok
            &&& r is Ok ==> edge_pairs(r->Ok_0@) == spec->Ok_0
            &&& r is Err ==> r->Err_0@ == spec->Err_0
        }),
{
    let vocab: Vec<Predicate> = relation_vocab::predicates();
    let classes: Vec<EntityClass> = relation_vocab::classes();
    parse_relate_specs_in(&vocab, &classes, asked, source_type, source_id)
}

// ---- lists of items ----------------------------------------------------------------------------------

/// The column of an item's table that the edges of a relation are listed in too.
pub open spec fn column_spec(vocab: Seq<PredicateView>, predicate: Seq<char>) -> Option<usize> {
    match relation_vocab::flat_column_spec(vocab, predicate) {
        Some(name) => if name == "related"@ {
            Some(RELATED)
        } else if name == "depends_on"@ {
            Some(DEPENDS_ON)
        } else {
            None
        },
        None => None,
    }
}

pub fn flat_col_in(vocab: &Vec<Predicate>, predicate: &str) -> (r: Option<usize>)
    ensures
        r == column_spec(relation_vocab::predicate_views(vocab@), predicate@),
{
    match relation_vocab::flat_column_in(vocab, predicate) {
        Some(name) => if text::same(name, "related") {
            Some(RELATED)
        } else if text::same(name, "depends_on") {
            Some(DEPENDS_ON)
        } else {
            None
        },
        None => None,
    }
}

/// The column of an item's table that the edges of a relation are listed in too, if they
/// are.
pub fn flat_col_for(predicate: &str) -> (r: Option<usize>)
    ensures
        r == column_spec(relation_vocab::vocabulary_spec(ontology::kanban_text()), predicate@),
{
    let vocab: Vec<Predicate> = relation_vocab::predicates();
    flat_col_in(&vocab, predicate)
}

/// The targets of the first `n` edges that are listed in a column.
pub open spec fn listed_in(
    vocab: Seq<PredicateView>,
    edges: Seq<(Seq<char>, Seq<char>)>,
    column: usize,
    n: nat,
) -> Seq<Seq<char>>
    decreases n,
{
    if n == 0 {
        Seq::empty()
    } else {
        let before = listed_in(vocab, edges, column, (n - 1) as nat);
        if column_spec(vocab, edges[n - 1].0) == Some(column) {
            before.push(edges[n - 1].1)
        } else {
            before
        }
    }
}

fn targets_in(vocab: &Vec<Predicate>, edges: &Vec<(String, String)>, column: usize) -> (r: Vec<
    String,
>)
    ensures
        text::views(r@) == listed_in(
            relation_vocab::predicate_views(vocab@),
            edge_pairs(edges@),
            column,
            edges@.len(),
        ),
{
    let ghost v = relation_vocab::predicate_views(vocab@);
    let ghost all = edge_pairs(edges@);
    let mut r: Vec<String> = Vec::new();
    let mut i: usize = 0;
    assert(text::views(r@) =~= listed_in(v, all, column, 0));
    while i < edges.len()
        invariant
            i <= edges@.len(),
            v == relation_vocab::predicate_views(vocab@),
            all == edge_pairs(edges@),
            text::views(r@) == listed_in(v, all, column, i as nat),
        decreases edges@.len() - i,
    {
        assert(all[i as int] == (edges@[i as int].0@, edges@[i as int].1@));
        let own: Option<usize> = flat_col_in(vocab, edges[i].0.as_str());
        if let Some(c) = own {
            if c == column {
                let ghost before = text::views(r@);
                r.push(edges[i].1.clone());
                assert(text::views(r@) =~= before.push(all[i as int].1));
            }
        }
        i = i + 1;
    }
    r
}

/// The lists that the edges of a new item put in its table: what it is related to, and
/// what it depends on.
pub fn project_edges(edges: &Vec<(String, String)>) -> (r: (Vec<String>, Vec<String>))
    ensures
        text::views(r.0@) == listed_in(
            relation_vocab::vocabulary_spec(ontology::kanban_text()),
            edge_pairs(edges@),
            RELATED,
            edges@.len(),
        ),
        text::views(r.1@) == listed_in(
            relation_vocab::vocabulary_spec(ontology::kanban_text()),
            edge_pairs(edges@),
            DEPENDS_ON,
            edges@.len(),
        ),
{
    let vocab: Vec<Predicate> = relation_vocab::predicates();
    (targets_in(&vocab, edges, RELATED), targets_in(&vocab, edges, DEPENDS_ON))
}

// ---- the lists of an item ------------------------------------------------------------------------------

/// A list with a target in it: at the end, unless it is there already.
pub open spec fn with_target(list: Seq<Seq<char>>, target: Seq<char>) -> Seq<Seq<char>> {
    if list.contains(target) {
        list
    } else {
        list.push(target)
    }
}

/// A list without a target, however often it stands there. The others keep their order.
pub open spec fn without_target(list: Seq<Seq<char>>, target: Seq<char>) -> Seq<Seq<char>>
    decreases list.len(),
{
    if list.len() == 0 {
        list
    } else {
        let before = without_target(list.drop_last(), target);
        if list.last() == target {
            before
        } else {
            before.push(list.last())
        }
    }
}

/// Adds a target to the list of an item, unless it is there already.
pub fn add_target(list: &Vec<String>, target: &str) -> (r: Vec<String>)
    ensures
        text::views(r@) == with_target(text::views(list@), target@),
{
    let mut r: Vec<String> = text::clone_strings(list);
    if !text::contains_string(list, target) {
        let ghost before = text::views(r@);
        r.push(text::owned(target));
        assert(text::views(r@) =~= before.push(target@));
    }
    r
}

/// Takes a target out of the list of an item, and says whether it was there.
pub fn remove_target(list: &Vec<String>, target: &str) -> (r: (Vec<String>, bool))
    ensures
        text::views(r.0@) == without_target(text::views(list@), target@),
        r.1 == text::views(list@).contains(target@),
{
    let ghost all = text::views(list@);
    let mut r: Vec<String> = Vec::new();
    let mut i: usize = 0;
    assert(all.take(0) =~= Seq::<Seq<char>>::empty());
    assert(text::views(r@) =~= without_target(all.take(0), target@));
    while i < list.len()
        invariant
            i <= list@.len(),
            all == text::views(list@),
            text::views(r@) == without_target(all.take(i as int), target@),
        decreases list@.len() - i,
    {
        proof {
            assert(all.take(i + 1).drop_last() =~= all.take(i as int));
            assert(all.take(i + 1).last() == list@[i as int]@);
        }
        if !text::same(list[i].as_str(), target) {
            let ghost before = text::views(r@);
            r.push(list[i].clone());
            assert(text::views(r@) =~= before.push(list@[i as int]@));
        }
        i = i + 1;
    }
    assert(all.take(i as int) =~= all);
    (r, text::contains_string(list, target))
}

/// Taking a target out of a list leaves none of it, and all others.
pub proof fn law_removed_target_is_gone(list: Seq<Seq<char>>, target: Seq<char>, other: Seq<char>)
    ensures
        !without_target(list, target).contains(target),
        other != target ==> without_target(list, target).contains(other) == list.contains(other),
    decreases list.len(),
{
    if list.len() > 0 {
        let rest = list.drop_last();
        law_removed_target_is_gone(rest, target, other);
        let before = without_target(rest, target);
        assert(list =~= rest.push(list.last()));
        lemma_push_contains(rest, list.last(), other);
        lemma_push_contains(before, list.last(), other);
        lemma_push_contains(before, list.last(), target);
    }
}

/// Adding a target and taking it out again gives the list that it was not in.
pub proof fn law_adding_is_undone(list: Seq<Seq<char>>, target: Seq<char>)
    requires
        !list.contains(target),
    ensures
        without_target(with_target(list, target), target) == list,
{
    assert(list.push(target).drop_last() =~= list);
    lemma_nothing_to_remove(list, target);
}

proof fn lemma_nothing_to_remove(list: Seq<Seq<char>>, target: Seq<char>)
    requires
        !list.contains(target),
    ensures
        without_target(list, target) == list,
    decreases list.len(),
{
    if list.len() > 0 {
        let rest = list.drop_last();
        assert(list =~= rest.push(list.last()));
        lemma_push_contains(rest, list.last(), target);
        lemma_nothing_to_remove(rest, target);
    }
}

proof fn lemma_push_contains(list: Seq<Seq<char>>, last: Seq<char>, wanted: Seq<char>)
    ensures
        list.push(last).contains(wanted) == (list.contains(wanted) || last == wanted),
{
    let longer = list.push(last);
    if list.contains(wanted) {
        let i = choose|i: int| 0 <= i < list.len() && list[i] == wanted;
        assert(longer[i] == wanted);
    }
    if last == wanted {
        assert(longer[list.len() as int] == wanted);
    }
    if longer.contains(wanted) && last != wanted {
        let i = choose|i: int| 0 <= i < longer.len() && longer[i] == wanted;
        assert(list[i] == wanted);
    }
}

// ---- edges in words ------------------------------------------------------------------------------------

/// An edge in words, with a mark before it.
pub open spec fn edge_line(
    mark: Seq<char>,
    id: Seq<char>,
    predicate: Seq<char>,
    target: Seq<char>,
) -> Seq<char> {
    "  "@ + mark + id + " -"@ + predicate + "-> "@ + target
}

fn format_edge(mark: &str, id: &str, predicate: &str, target: &str) -> (r: String)
    ensures
        r@ == edge_line(mark@, id@, predicate@, target@),
{
    let mut s: String = text::owned("  ");
    s.append(mark);
    s.append(id);
    s.append(" -");
    s.append(predicate);
    s.append("-> ");
    s.append(target);
    s
}

/// An edge of a new item, in words.
pub fn created_edge(id: &str, predicate: &str, target: &str) -> (r: String)
    ensures
        r@ == edge_line(""@, id@, predicate@, target@),
{
    format_edge("", id, predicate, target)
}

/// An edge that was added, in words.
pub fn added_edge(id: &str, predicate: &str, target: &str) -> (r: String)
    ensures
        r@ == edge_line("+ "@, id@, predicate@, target@),
{
    format_edge("+ ", id, predicate, target)
}

/// What came of taking an edge away, in words: it may have stood in the relations, in the
/// item's list, or in neither.
pub fn removed_edge(id: &str, predicate: &str, target: &str, from_relations: bool, from_list: bool) -> (r:
    String)
    ensures
        r@ == (if from_relations || from_list {
            edge_line("- "@, id@, predicate@, target@)
        } else {
            "  (no "@ + id@ + " -"@ + predicate@ + "-> "@ + target@ + " edge to remove)"@
        }),
{
    if from_relations || from_list {
        return format_edge("- ", id, predicate, target);
    }
    let mut s: String = text::owned("  (no ");
    s.append(id);
    s.append(" -");
    s.append(predicate);
    s.append("-> ");
    s.append(target);
    s.append(" edge to remove)");
    s
}

// ---- what holds of edges -----------------------------------------------------------------------------------

/// Where one edge is bad, none is accepted.
pub proof fn law_one_bad_edge_refuses_all(
    vocab: Seq<PredicateView>,
    classes: Seq<ClassView>,
    asked: Seq<Seq<char>>,
    source_type: Seq<char>,
    source_id: Option<Seq<char>>,
    i: int,
)
    requires
        0 <= i < asked.len(),
        edge_spec(vocab, classes, asked[i], source_type, source_id) is Err,
    ensures
        edges_spec(vocab, classes, asked, source_type, source_id, asked.len()) is Err,
{
    assert(edges_spec(vocab, classes, asked, source_type, source_id, (i + 1) as nat) is Err);
    lemma_edges_stay_wrong(
        vocab,
        classes,
        asked,
        source_type,
        source_id,
        (i + 1) as nat,
        asked.len(),
    );
}

/// Edges that are accepted are as many as were asked for, in the same order, and each is
/// one that the vocabulary allows.
pub proof fn law_accepted_edges_are_allowed(
    vocab: Seq<PredicateView>,
    classes: Seq<ClassView>,
    asked: Seq<Seq<char>>,
    source_type: Seq<char>,
    source_id: Option<Seq<char>>,
    n: nat,
)
    requires
        n <= asked.len(),
        edges_spec(vocab, classes, asked, source_type, source_id, n) is Ok,
    ensures
        ({
            let edges = edges_spec(vocab, classes, asked, source_type, source_id, n)->Ok_0;
            &&& edges.len() == n
            &&& forall|i: int|
                0 <= i < n ==> edge_spec(
                    vocab,
                    classes,
                    #[trigger] asked[i],
                    source_type,
                    source_id,
                ) == Ok::<(Seq<char>, Seq<char>), Seq<char>>(edges[i])
        }),
    decreases n,
{
    if n > 0 {
        law_accepted_edges_are_allowed(
            vocab,
            classes,
            asked,
            source_type,
            source_id,
            (n - 1) as nat,
        );
    }
}

/// The targets that are kept in a list are those of the edges whose relation is kept
/// there.
pub proof fn law_edges_are_listed_by_relation(
    vocab: Seq<PredicateView>,
    edges: Seq<(Seq<char>, Seq<char>)>,
    n: nat,
    target: Seq<char>,
)
    requires
        n <= edges.len(),
    ensures
        listed_in(vocab, edges, RELATED, n).contains(target) <==> exists|k: int|
            0 <= k < n && (#[trigger] edges[k]).1 == target && (relation_vocab::lookup_spec(
                vocab,
                edges[k].0,
            ) matches Some(p) && p.name == "related"@),
        listed_in(vocab, edges, DEPENDS_ON, n).contains(target) <==> exists|k: int|
            0 <= k < n && (#[trigger] edges[k]).1 == target && (relation_vocab::lookup_spec(
                vocab,
                edges[k].0,
            ) matches Some(p) && p.name == "dependsOn"@),
    decreases n,
{
    if n > 0 {
        let m = (n - 1) as nat;
        law_edges_are_listed_by_relation(vocab, edges, m, target);
        reveal_strlit("related");
        reveal_strlit("depends_on");
        reveal_strlit("dependsOn");
        assert("related"@[0] == 'r' && "depends_on"@[0] == 'd' && "dependsOn"@[0] == 'd');
        let edge = edges[n - 1];
        vstd::seq_lib::lemma_seq_contains_after_push(
            listed_in(vocab, edges, RELATED, m),
            edge.1,
            target,
        );
        vstd::seq_lib::lemma_seq_contains_after_push(
            listed_in(vocab, edges, DEPENDS_ON, m),
            edge.1,
            target,
        );
    }
}

/// An added target is in the list, once, and what was there stays in its place.
pub proof fn law_added_target_is_there(list: Seq<Seq<char>>, target: Seq<char>, other: Seq<char>)
    ensures
        with_target(list, target).contains(target),
        other != target ==> with_target(list, target).contains(other) == list.contains(other),
        list.is_prefix_of(with_target(list, target)),
        list.no_duplicates() ==> with_target(list, target).no_duplicates(),
{
    vstd::seq_lib::lemma_seq_contains_after_push(list, target, target);
    vstd::seq_lib::lemma_seq_contains_after_push(list, target, other);
}

} // verus!
