//! Reading the board's ontology: the small part of the Turtle language that it is
//! written in.
//!
//! A text is read line by line. Lines that start with `#` are comments. A statement
//! ends with a line that is a dot or ends with a space and a dot. Its clauses are
//! separated by semicolons outside quotes; literals stand between quotes on one
//! line. What cannot be read is an error.
use vstd::prelude::*;
use vstd::string::StringExecFns;
use crate::text;

verus! {

// ---- statements -----------------------------------------------------------------------

/// The finished statements of the first `n` lines, and the unfinished one after them.
pub open spec fn gather(lines: Seq<Seq<char>>, n: nat) -> (Seq<Seq<char>>, Seq<char>)
    decreases n,
{
    if n == 0 {
        (Seq::empty(), Seq::empty())
    } else {
        let (done, current) = gather(lines, (n - 1) as nat);
        let line = text::trim_spec(lines[n - 1]);
        if line.len() == 0 || line[0] == '#' {
            (done, current)
        } else {
            let next = current.push(' ') + line;
            if line == "."@ || " ."@.is_suffix_of(line) {
                (done.push(next), Seq::empty())
            } else {
                (done, next)
            }
        }
    }
}

/// The statements of a text.
pub open spec fn statements_spec(ttl: Seq<char>) -> Result<Seq<Seq<char>>, Seq<char>> {
    let lines = text::lines_spec(ttl);
    let (done, current) = gather(lines, lines.len());
    if text::trim_spec(current).len() != 0 {
        Err("unterminated statement at end of file"@)
    } else {
        Ok(done)
    }
}

pub fn logical_statements(ttl: &str) -> (r: Result<Vec<String>, String>)
    ensures
        r is Ok == statements_spec(ttl@) is Ok,
        r is Ok ==> text::views(r->Ok_0@) == statements_spec(ttl@)->Ok_0,
        r is Err ==> r->Err_0@ == statements_spec(ttl@)->Err_0,
{
    let lines: Vec<String> = text::lines(ttl);
    let ghost all = text::views(lines@);
    let mut done: Vec<String> = Vec::new();
    let mut current: String = String::new();
    let mut i: usize = 0;
    assert(text::views(done@) =~= gather(all, 0).0);
    while i < lines.len()
        invariant
            i <= lines@.len(),
            all == text::views(lines@),
            (text::views(done@), current@) == gather(all, i as nat),
        decreases lines@.len() - i,
    {
        let line: String = text::trim(lines[i].as_str());
        let chars: Vec<char> = text::to_chars(line.as_str());
        if chars.len() > 0 && chars[0] != '#' {
            current.push(' ');
            current.append(line.as_str());
            if text::same(line.as_str(), ".") || text::ends_with(line.as_str(), " .") {
                let ghost before = text::views(done@);
                let ghost statement = current@;
                done.push(current);
                current = String::new();
                assert(text::views(done@) =~= before.push(statement));
            }
        }
        i = i + 1;
    }
    let rest: String = text::trim(current.as_str());
    if !rest.as_str().is_empty() {
        return Err(text::owned("unterminated statement at end of file"));
    }
    Ok(done)
}

// ---- clauses ----------------------------------------------------------------------------

/// The pieces of a text between the separators outside quotes, and whether the text
/// ends inside quotes.
pub open spec fn split_quoted(s: Seq<char>, sep: char) -> (Seq<Seq<char>>, bool)
    decreases s.len(),
{
    if s.len() == 0 {
        (seq![Seq::<char>::empty()], false)
    } else {
        let (pieces, in_quotes) = split_quoted(s.drop_last(), sep);
        let c = s.last();
        if c != '"' && c == sep && !in_quotes {
            (pieces.push(Seq::empty()), in_quotes)
        } else {
            (
                pieces.drop_last().push(pieces.last().push(c)),
                if c == '"' {
                    !in_quotes
                } else {
                    in_quotes
                },
            )
        }
    }
}

/// The pieces of a text between the separators that stand outside quotes.
pub fn split_outside_quotes(s: &str, sep: char) -> (r: Vec<String>)
    ensures
        text::views(r@) == split_quoted(s@, sep).0,
        r@.len() > 0,
{
    let mut done: Vec<String> = Vec::new();
    let mut current: String = String::new();
    let mut in_quotes: bool = false;
    assert(text::views(done@).push(current@) =~= split_quoted(s@.take(0), sep).0);
    for c in it: s.chars()
        invariant
            it.seq() == s@,
            (text::views(done@).push(current@), in_quotes) == split_quoted(
                s@.take(it.index() as int),
                sep,
            ),
    {
        let ghost before = s@.take(it.index() as int);
        let ghost after = s@.take(it.index() + 1);
        let ghost pieces = text::views(done@).push(current@);
        assert(after.drop_last() =~= before);
        assert(after.last() == c);
        assert(pieces.drop_last() =~= text::views(done@));
        if c != '"' && c == sep && !in_quotes {
            done.push(current);
            current = String::new();
            assert(text::views(done@) =~= pieces);
        } else {
            current.push(c);
            if c == '"' {
                in_quotes = !in_quotes;
            }
        }
    }
    assert(s@.take(s@.len() as int) =~= s@);
    let ghost pieces = text::views(done@).push(current@);
    done.push(current);
    assert(text::views(done@) =~= pieces);
    done
}

/// A statement without its final dot.
pub open spec fn body_spec(statement: Seq<char>) -> Seq<char> {
    text::trim_spec(text::trim_end_char_spec(text::trim_spec(statement), '.'))
}

/// The first clause of a statement: what it is about and of which kind that is.
pub open spec fn head_spec(statement: Seq<char>) -> Seq<char> {
    text::trim_spec(split_quoted(body_spec(statement), ';').0[0])
}

/// The further clauses of a statement.
pub open spec fn clauses_spec(statement: Seq<char>) -> Seq<Seq<char>> {
    split_quoted(body_spec(statement), ';').0.drop_first()
}

/// A statement in its parts.
#[derive(Debug)]
pub struct Statement {
    pub head: String,
    pub clauses: Vec<String>,
}

/// Takes a statement apart.
pub fn read_statement(statement: &str) -> (r: Statement)
    ensures
        r.head@ == head_spec(statement@),
        text::views(r.clauses@) == clauses_spec(statement@),
{
    let trimmed: String = text::trim(statement);
    let undotted: String = text::trim_end_char(trimmed.as_str(), '.');
    let body: String = text::trim(undotted.as_str());
    let pieces: Vec<String> = split_outside_quotes(body.as_str(), ';');
    let ghost all = split_quoted(body@, ';').0;
    assert(all[0] == pieces@[0]@);
    let head: String = text::trim(pieces[0].as_str());
    let mut clauses: Vec<String> = Vec::new();
    let mut i: usize = 1;
    while i < pieces.len()
        invariant
            1 <= i <= pieces@.len(),
            all == text::views(pieces@),
            clauses@.len() == i - 1,
            forall|k: int| 0 <= k < i - 1 ==> (#[trigger] clauses@[k])@ == all[k + 1],
        decreases pieces@.len() - i,
    {
        clauses.push(pieces[i].clone());
        i = i + 1;
    }
    assert(text::views(clauses@) =~= all.drop_first());
    Statement { head, clauses }
}

/// Whether a statement declares something of the board's own, of a given kind.
pub open spec fn declares(head: Seq<char>, kind: Seq<char>) -> bool {
    "kb:"@.is_prefix_of(text::first_word_spec(head)) && text::contains_spec(head, kind)
}

pub fn head_declares(head: &str, kind: &str) -> (r: bool)
    ensures
        r == declares(head@, kind@),
{
    let subject: String = text::first_word(head);
    text::starts_with(subject.as_str(), "kb:") && text::contains(head, kind)
}

/// A clause cut after its first word.
pub open spec fn cut_clause(clause: Seq<char>) -> Option<(Seq<char>, Seq<char>)> {
    match text::find_space_spec(clause) {
        Some(i) => Some((clause.take(i), clause.skip(i + 1))),
        None => None,
    }
}

/// What is wrong with a clause of one word.
pub open spec fn bad_clause(clause: Seq<char>, local: Seq<char>) -> Seq<char> {
    "bad clause '"@ + clause + "' on kb:"@ + local
}

pub fn split_clause(clause: &str, local: &str) -> (r: Result<(String, String), String>)
    ensures
        r is Ok == cut_clause(clause@) is Some,
        r is Ok ==> (r->Ok_0).0@ == (cut_clause(clause@)->0).0 && (r->Ok_0).1@ == (cut_clause(
            clause@,
        )->0).1,
        r is Err ==> r->Err_0@ == bad_clause(clause@, local@),
{
    let chars: Vec<char> = text::to_chars(clause);
    match text::find_space(&chars) {
        Some(i) => {
            let word: String = text::from_chars(&chars, 0, i);
            let rest: String = text::from_chars(&chars, i + 1, chars.len());
            assert(word@ =~= clause@.take(i as int));
            assert(rest@ =~= clause@.skip(i + 1));
            Ok((word, rest))
        },
        None => {
            let mut message: String = text::owned("bad clause '");
            message.append(clause);
            message.append("' on kb:");
            message.append(local);
            Err(message)
        },
    }
}

// ---- terms ------------------------------------------------------------------------------

/// The name in a term of the board's own.
pub open spec fn local_spec(term: Seq<char>) -> Result<Seq<char>, Seq<char>> {
    let t = text::trim_spec(term);
    if "kb:"@.is_prefix_of(t) {
        Ok(t.skip(3))
    } else {
        Err("expected a kb: term, got '"@ + term + "'"@)
    }
}

pub fn kb_local(term: &str) -> (r: Result<String, String>)
    ensures
        r is Ok == local_spec(term@) is Ok,
        r is Ok ==> r->Ok_0@ == local_spec(term@)->Ok_0,
        r is Err ==> r->Err_0@ == local_spec(term@)->Err_0,
{
    let trimmed: String = text::trim(term);
    proof {
        reveal_strlit("kb:");
    }
    match text::strip_prefix(trimmed.as_str(), "kb:") {
        Some(local) => Ok(local),
        None => {
            let mut message: String = text::owned("expected a kb: term, got '");
            message.append(term);
            message.append("'");
            Err(message)
        },
    }
}

/// The text between the first and the last quote.
pub open spec fn quoted_spec(rest: Seq<char>) -> Result<Seq<char>, Seq<char>> {
    match text::find_spec(rest, '"') {
        None => Err("expected a quoted literal in '"@ + rest + "'"@),
        Some(start) => match text::rfind_spec(rest, '"') {
            Some(end) => if end > start {
                Ok(rest.subrange(start + 1, end))
            } else {
                Err("unterminated literal in '"@ + rest + "'"@)
            },
            None => Err("unterminated literal in '"@ + rest + "'"@),
        },
    }
}

pub fn quoted(rest: &str) -> (r: Result<String, String>)
    ensures
        r is Ok == quoted_spec(rest@) is Ok,
        r is Ok ==> r->Ok_0@ == quoted_spec(rest@)->Ok_0,
        r is Err ==> r->Err_0@ == quoted_spec(rest@)->Err_0,
{
    let chars: Vec<char> = text::to_chars(rest);
    let start: usize = match text::find(&chars, '"') {
        Some(i) => i,
        None => {
            let mut message: String = text::owned("expected a quoted literal in '");
            message.append(rest);
            message.append("'");
            return Err(message);
        },
    };
    if let Some(end) = text::rfind(&chars, '"') {
        if end > start {
            return Ok(text::from_chars(&chars, start + 1, end));
        }
    }
    let mut message: String = text::owned("unterminated literal in '");
    message.append(rest);
    message.append("'");
    Err(message)
}

/// The names of a list of classes, from position `i` on; the class of all items
/// stands for no restriction.
pub open spec fn classes_from(
    terms: Seq<Seq<char>>,
    i: nat,
    names: Seq<Seq<char>>,
) -> Result<Seq<Seq<char>>, Seq<char>>
    decreases terms.len() - i,
{
    if i >= terms.len() {
        Ok(names)
    } else {
        match local_spec(terms[i as int]) {
            Err(e) => Err(e),
            Ok(local) => if local == "Item"@ {
                Ok(Seq::empty())
            } else {
                classes_from(terms, i + 1, names.push(text::lower_spec(local)))
            },
        }
    }
}

/// The names of a list of classes: all of them, or none where the class of all items
/// is among them.
pub open spec fn class_list_spec(rest: Seq<char>) -> Result<Seq<Seq<char>>, Seq<char>> {
    classes_from(text::split_spec(rest, ','), 0, Seq::empty())
}

pub fn class_list(rest: &str) -> (r: Result<Vec<String>, String>)
    ensures
        r is Ok == class_list_spec(rest@) is Ok,
        r is Ok ==> text::views(r->Ok_0@) == class_list_spec(rest@)->Ok_0,
        r is Err ==> r->Err_0@ == class_list_spec(rest@)->Err_0,
{
    let terms: Vec<String> = text::split(rest, ',');
    let ghost all = text::views(terms@);
    let mut names: Vec<String> = Vec::new();
    let mut i: usize = 0;
    assert(text::views(names@) =~= Seq::<Seq<char>>::empty());
    while i < terms.len()
        invariant
            i <= terms@.len(),
            all == text::views(terms@),
            class_list_spec(rest@) == classes_from(all, i as nat, text::views(names@)),
        decreases terms@.len() - i,
    {
        let local: String = match kb_local(terms[i].as_str()) {
            Ok(local) => local,
            Err(message) => return Err(message),
        };
        if text::same(local.as_str(), "Item") {
            let none: Vec<String> = Vec::new();
            assert(text::views(none@) =~= Seq::<Seq<char>>::empty());
            return Ok(none);
        }
        let ghost before = text::views(names@);
        names.push(text::lower(local.as_str()));
        assert(text::views(names@) =~= before.push(text::lower_spec(local@)));
        i = i + 1;
    }
    Ok(names)
}

// ---- how statements are taken apart ----------------------------------------------------------------------------------

/// A literal is what stands between the first quote and the last.
pub proof fn law_literals_stand_between_quotes(a: Seq<char>, literal: Seq<char>, b: Seq<char>)
    requires
        forall|k: int| 0 <= k < a.len() ==> #[trigger] a[k] != '"',
        forall|k: int| 0 <= k < b.len() ==> #[trigger] b[k] != '"',
    ensures
        quoted_spec(a.push('"') + literal + b.insert(0, '"')) == Ok::<Seq<char>, Seq<char>>(
            literal,
        ),
{
    let s = a.push('"') + literal + b.insert(0, '"');
    let start = a.len() as int;
    let end = (a.len() + 1 + literal.len()) as int;
    assert forall|k: int| 0 <= k < start implies s[k] != '"' by {
        assert(s[k] == a[k]);
    }
    text::lemma_find(s, '"', start);
    assert(s[end] == '"');
    assert forall|k: int| end < k < s.len() implies s[k] != '"' by {
        assert(s[k] == b[k - end - 1]);
    }
    text::lemma_rfind(s, '"', end + 1);
    assert(s.subrange(start + 1, end) =~= literal);
}

/// A term of the vocabulary is named without its prefix; a term with another prefix is
/// refused.
pub proof fn law_terms_are_named_without_prefix(name: Seq<char>, term: Seq<char>)
    ensures
        text::trim_spec(term) == "kb:"@ + name ==> local_spec(term) == Ok::<Seq<char>, Seq<char>>(
            name,
        ),
        !"kb:"@.is_prefix_of(text::trim_spec(term)) ==> local_spec(term) is Err,
{
    reveal_strlit("kb:");
    let t = text::trim_spec(term);
    if t == "kb:"@ + name {
        assert("kb:"@.is_prefix_of(t));
        assert(t.skip(3) =~= name);
    }
}

/// A clause is cut at its first space.
pub proof fn law_clauses_are_cut_at_the_first_space(word: Seq<char>, c: char, rest: Seq<char>)
    requires
        text::is_space(c),
        forall|k: int| 0 <= k < word.len() ==> !text::is_space(#[trigger] word[k]),
    ensures
        cut_clause(word.push(c) + rest) == Some((word, rest)),
{
    let s = word.push(c) + rest;
    assert forall|k: int| 0 <= k < word.len() implies !text::is_space(s[k]) by {
        assert(s[k] == word[k]);
    }
    text::lemma_find_space(s, word.len() as int);
    assert(s.take(word.len() as int) =~= word);
    assert(s.skip(word.len() as int + 1) =~= rest);
}

proof fn lemma_classes(terms: Seq<Seq<char>>, i: nat, names: Seq<Seq<char>>)
    requires
        i <= terms.len(),
        forall|k: int| i <= k < terms.len() ==> local_spec(#[trigger] terms[k]) is Ok,
    ensures
        classes_from(terms, i, names) is Ok,
        (exists|k: int| i <= k < terms.len() && local_spec(#[trigger] terms[k])->Ok_0 == "Item"@)
            ==> classes_from(terms, i, names)->Ok_0.len() == 0,
        (forall|k: int| i <= k < terms.len() ==> local_spec(#[trigger] terms[k])->Ok_0 != "Item"@)
            ==> classes_from(terms, i, names)->Ok_0 == names + Seq::new(
            (terms.len() - i) as nat,
            |k: int| text::lower_spec(local_spec(terms[i + k])->Ok_0),
        ),
    decreases terms.len() - i,
{
    let all = classes_from(terms, i, names);
    if i < terms.len() {
        assert(local_spec(terms[i as int]) is Ok);
        let local = local_spec(terms[i as int])->Ok_0;
        if local != "Item"@ {
            let more = names.push(text::lower_spec(local));
            lemma_classes(terms, i + 1, more);
            if forall|k: int|
                i <= k < terms.len() ==> local_spec(#[trigger] terms[k])->Ok_0 != "Item"@ {
                assert(all->Ok_0 =~= names + Seq::new(
                    (terms.len() - i) as nat,
                    |k: int| text::lower_spec(local_spec(terms[i + k])->Ok_0),
                ));
            }
        }
    } else {
        assert(names =~= names + Seq::new(
            (terms.len() - i) as nat,
            |k: int| text::lower_spec(local_spec(terms[i + k])->Ok_0),
        ));
    }
}

/// A list of classes has the names between its commas in small letters; with `Item` among
/// them it stands for all classes, and is empty.
pub proof fn law_class_lists_name_their_classes(rest: Seq<char>)
    requires
        forall|k: int|
            0 <= k < text::split_spec(rest, ',').len() ==> local_spec(
                #[trigger] text::split_spec(rest, ',')[k],
            ) is Ok,
    ensures
        ({
            let terms = text::split_spec(rest, ',');
            let list = class_list_spec(rest);
            &&& list is Ok
            &&& (exists|k: int|
                0 <= k < terms.len() && local_spec(#[trigger] terms[k])->Ok_0 == "Item"@)
                ==> list->Ok_0.len() == 0
            &&& (forall|k: int|
                0 <= k < terms.len() ==> local_spec(#[trigger] terms[k])->Ok_0 != "Item"@)
                ==> list->Ok_0.len() == terms.len() && forall|k: int|
                0 <= k < terms.len() ==> #[trigger] list->Ok_0[k] == text::lower_spec(
                    local_spec(terms[k])->Ok_0,
                )
        }),
{
    lemma_classes(text::split_spec(rest, ','), 0, Seq::empty());
}

/// A statement declares something of a kind if its first word is a term of the vocabulary
/// and the kind stands in its head.
pub proof fn law_declarations_have_their_kind(head: Seq<char>, kind: Seq<char>)
    ensures
        declares(head, kind) <==> "kb:"@.is_prefix_of(text::first_word_spec(head)) && exists|i: int|
            0 <= i && i + kind.len() <= head.len() && #[trigger] head.subrange(i, i + kind.len())
                == kind,
{
    if declares(head, kind) {
        let i = choose|i: int| text::occurs_at(head, kind, i);
        assert(head.subrange(i, i + kind.len()) == kind);
    }
    if exists|i: int|
        0 <= i && i + kind.len() <= head.len() && #[trigger] head.subrange(i, i + kind.len())
            == kind {
        let i = choose|i: int|
            0 <= i && i + kind.len() <= head.len() && #[trigger] head.subrange(i, i + kind.len())
                == kind;
        assert(text::occurs_at(head, kind, i));
    }
}

} // verus!
