//! What is read back from statements that are written clause by clause, each clause on a
//! line of its own.
use vstd::prelude::*;
use crate::text;
use crate::turtle;

verus! {

// ---- texts put together -------------------------------------------------------------------

/// Whether a character does not occur in a text.
pub open spec fn lacks(s: Seq<char>, c: char) -> bool {
    forall|i: int| 0 <= i < s.len() ==> #[trigger] s[i] != c
}

/// Whether a text is empty or ends a line.
pub open spec fn is_ended(s: Seq<char>) -> bool {
    s.len() == 0 || s.last() == '\n'
}

proof fn lemma_split_append(a: Seq<char>, b: Seq<char>, c: char)
    ensures
        text::split_spec(a, c).len() > 0,
        text::split_spec(b, c).len() > 0,
        text::split_spec(a + b, c) == text::split_spec(a, c).drop_last().push(
            text::split_spec(a, c).last() + text::split_spec(b, c)[0],
        ) + text::split_spec(b, c).drop_first(),
    decreases b.len(),
{
    lemma_split_some(a, c);
    lemma_split_some(b, c);
    let x = text::split_spec(a, c);
    if b.len() == 0 {
        assert(a + b =~= a);
        assert(x.last() + Seq::<char>::empty() =~= x.last());
        assert(x =~= x.drop_last().push(x.last() + Seq::<char>::empty()) + Seq::<Seq<char>>::empty());
        assert(text::split_spec(b, c).drop_first() =~= Seq::<Seq<char>>::empty());
    } else {
        let shorter = b.drop_last();
        lemma_split_append(a, shorter, c);
        assert((a + b).drop_last() =~= a + shorter);
        assert((a + b).last() == b.last());
        let y = text::split_spec(shorter, c);
        let before = text::split_spec(a + shorter, c);
        let now = text::split_spec(b, c);
        let glued = x.drop_last().push(x.last() + y[0]) + y.drop_first();
        assert(before == glued);
        if b.last() == c {
            assert(now == y.push(Seq::empty()));
            assert(now.drop_first() =~= y.drop_first().push(Seq::empty()));
            assert(text::split_spec(a + b, c) =~= x.drop_last().push(x.last() + now[0])
                + now.drop_first());
        } else {
            let last = y.last().push(b.last());
            assert(now == y.drop_last().push(last));
            if y.len() == 1 {
                assert(now[0] == y[0].push(b.last()));
                assert(before.last() == x.last() + y[0]);
                assert((x.last() + y[0]).push(b.last()) =~= x.last() + now[0]);
                assert(text::split_spec(a + b, c) =~= x.drop_last().push(x.last() + now[0])
                    + now.drop_first());
            } else {
                assert(now[0] == y[0]);
                assert(before.last() == y.last());
                assert(text::split_spec(a + b, c) =~= x.drop_last().push(x.last() + now[0])
                    + now.drop_first());
            }
        }
    }
}

proof fn lemma_split_some(s: Seq<char>, c: char)
    ensures
        text::split_spec(s, c).len() > 0,
    decreases s.len(),
{
    if s.len() > 0 {
        lemma_split_some(s.drop_last(), c);
    }
}

/// The lines of a text that is put together from a text that ends a line and another.
pub proof fn lemma_lines_append(a: Seq<char>, b: Seq<char>)
    requires
        is_ended(a),
    ensures
        text::lines_spec(a + b) == text::lines_spec(a) + text::lines_spec(b),
{
    lemma_split_append(a, b, '\n');
    let x = text::split_spec(a, '\n');
    let y = text::split_spec(b, '\n');
    let z = text::split_spec(a + b, '\n');
    assert(x.last() == Seq::<char>::empty());
    assert(x.last() + y[0] =~= y[0]);
    assert(z =~= x.drop_last() + y);
    assert(z.last() == y.last());
    let strip = |line: Seq<char>| text::strip_return(line);
    assert(z.drop_last() =~= x.drop_last() + y.drop_last());
    assert(z.drop_last().map_values(strip) =~= x.drop_last().map_values(strip)
        + y.drop_last().map_values(strip));
    assert(text::lines_spec(a) == x.drop_last().map_values(strip));
    assert(text::lines_spec(a + b) =~= text::lines_spec(a) + text::lines_spec(b));
}

proof fn lemma_no_split(s: Seq<char>, c: char)
    requires
        lacks(s, c),
    ensures
        text::split_spec(s, c) == seq![s],
    decreases s.len(),
{
    if s.len() > 0 {
        let shorter = s.drop_last();
        assert(lacks(shorter, c)) by {
            assert forall|i: int| 0 <= i < shorter.len() implies #[trigger] shorter[i] != c by {
                assert(shorter[i] == s[i]);
            }
        }
        lemma_no_split(shorter, c);
        assert(s[s.len() - 1] != c);
        assert(shorter.push(s.last()) =~= s);
        assert(text::split_spec(s, c) =~= seq![s]);
    } else {
        assert(s =~= Seq::<char>::empty());
    }
}

/// A line and its end are read as that line.
pub proof fn lemma_one_line(line: Seq<char>)
    requires
        lacks(line, '\n'),
        line.len() == 0 || line.last() != '\r',
    ensures
        text::lines_spec(line.push('\n')) == seq![line],
{
    let s = line.push('\n');
    assert(s.drop_last() =~= line);
    lemma_no_split(line, '\n');
    let pieces = text::split_spec(s, '\n');
    assert(pieces == seq![line].push(Seq::empty()));
    assert(pieces.drop_last() =~= seq![line]);
    let strip = |line: Seq<char>| text::strip_return(line);
    assert(seq![line].map_values(strip) =~= seq![line]);
}

/// What is between white space is what is left when that is trimmed.
pub proof fn lemma_trimmed(before: Seq<char>, s: Seq<char>, after: Seq<char>)
    requires
        forall|i: int| 0 <= i < before.len() ==> text::is_space(#[trigger] before[i]),
        forall|i: int| 0 <= i < after.len() ==> text::is_space(#[trigger] after[i]),
        s.len() > 0,
        !text::is_space(s[0]),
        !text::is_space(s.last()),
    ensures
        text::trim_spec(before + s + after) == s,
{
    let all = before + s + after;
    assert forall|k: int| 0 <= k < before.len() implies text::is_space(all[k]) by {
        assert(all[k] == before[k]);
    }
    text::lemma_trim_start(all, before.len() as int);
    let rest = all.skip(before.len() as int);
    assert(rest =~= s + after);
    assert(rest[0] == s[0]);
    assert(text::trim_start_spec(rest) == rest);
    assert forall|k: int| s.len() <= k < rest.len() implies text::is_space(rest[k]) by {
        assert(rest[k] == after[k - s.len()]);
    }
    text::lemma_trim_end(rest, s.len() as int);
    assert(rest.take(s.len() as int) =~= s);
    assert(text::trim_end_spec(s) == s);
}

// ---- statements put together ----------------------------------------------------------------

proof fn lemma_gather_first(x: Seq<Seq<char>>, y: Seq<Seq<char>>, n: nat)
    requires
        n <= x.len(),
    ensures
        turtle::gather(x + y, n) == turtle::gather(x, n),
    decreases n,
{
    if n > 0 {
        lemma_gather_first(x, y, (n - 1) as nat);
        assert((x + y)[n - 1] == x[n - 1]);
    }
}

proof fn lemma_gather_append(x: Seq<Seq<char>>, y: Seq<Seq<char>>, n: nat)
    requires
        n <= y.len(),
        turtle::gather(x, x.len()).1.len() == 0,
    ensures
        turtle::gather(x + y, x.len() + n).0 == turtle::gather(x, x.len()).0 + turtle::gather(
            y,
            n,
        ).0,
        turtle::gather(x + y, x.len() + n).1 == turtle::gather(y, n).1,
    decreases n,
{
    let (done, current) = turtle::gather(x, x.len());
    if n == 0 {
        lemma_gather_first(x, y, x.len());
        assert(current =~= Seq::<char>::empty());
        assert(done + Seq::<Seq<char>>::empty() =~= done);
    } else {
        lemma_gather_append(x, y, (n - 1) as nat);
        assert((x + y)[x.len() + n - 1] == y[n - 1]);
        let before = turtle::gather(y, (n - 1) as nat);
        let now = turtle::gather(y, n);
        assert((x.len() + n - 1) as nat == x.len() + (n - 1) as nat);
        assert(turtle::gather(x + y, (x.len() + n - 1) as nat) == (done + before.0, before.1));
        let line = text::trim_spec(y[n - 1]);
        let next = before.1.push(' ') + line;
        assert(done + before.0.push(next) =~= (done + before.0).push(next));
    }
}

/// Whether a text of whole lines is read as some statements, with nothing left over.
pub open spec fn reads_as(s: Seq<char>, statements: Seq<Seq<char>>) -> bool {
    let lines = text::lines_spec(s);
    is_ended(s) && turtle::gather(lines, lines.len()) == (statements, Seq::<char>::empty())
}

/// Two such texts, one after the other, are read as the statements of both.
pub proof fn lemma_reads_append(
    a: Seq<char>,
    x: Seq<Seq<char>>,
    b: Seq<char>,
    y: Seq<Seq<char>>,
)
    requires
        reads_as(a, x),
        reads_as(b, y),
    ensures
        reads_as(a + b, x + y),
{
    lemma_lines_append(a, b);
    lemma_gather_append(text::lines_spec(a), text::lines_spec(b), text::lines_spec(b).len());
    if b.len() == 0 {
        assert(a + b =~= a);
    } else {
        assert((a + b).last() == b.last());
    }
}

// ---- clauses ----------------------------------------------------------------------------------

proof fn lemma_pieces_some(s: Seq<char>, sep: char)
    ensures
        turtle::split_quoted(s, sep).0.len() > 0,
    decreases s.len(),
{
    if s.len() > 0 {
        lemma_pieces_some(s.drop_last(), sep);
    }
}

/// Pieces of a text that ends outside quotes, and those of a text after it.
proof fn lemma_pieces_append(a: Seq<char>, b: Seq<char>, sep: char)
    requires
        !turtle::split_quoted(a, sep).1,
    ensures
        turtle::split_quoted(a, sep).0.len() > 0,
        turtle::split_quoted(b, sep).0.len() > 0,
        turtle::split_quoted(a + b, sep).0 == turtle::split_quoted(a, sep).0.drop_last().push(
            turtle::split_quoted(a, sep).0.last() + turtle::split_quoted(b, sep).0[0],
        ) + turtle::split_quoted(b, sep).0.drop_first(),
        turtle::split_quoted(a + b, sep).1 == turtle::split_quoted(b, sep).1,
    decreases b.len(),
{
    lemma_pieces_some(a, sep);
    lemma_pieces_some(b, sep);
    let x = turtle::split_quoted(a, sep).0;
    if b.len() == 0 {
        assert(a + b =~= a);
        assert(x.last() + Seq::<char>::empty() =~= x.last());
        assert(x =~= x.drop_last().push(x.last() + Seq::<char>::empty()) + Seq::<Seq<char>>::empty());
        assert(turtle::split_quoted(b, sep).0.drop_first() =~= Seq::<Seq<char>>::empty());
    } else {
        let shorter = b.drop_last();
        lemma_pieces_append(a, shorter, sep);
        assert((a + b).drop_last() =~= a + shorter);
        assert((a + b).last() == b.last());
        let y = turtle::split_quoted(shorter, sep).0;
        let before = turtle::split_quoted(a + shorter, sep).0;
        let now = turtle::split_quoted(b, sep).0;
        let all = turtle::split_quoted(a + b, sep).0;
        let c = b.last();
        if c != '"' && c == sep && !turtle::split_quoted(shorter, sep).1 {
            assert(now.drop_first() =~= y.drop_first().push(Seq::empty()));
            assert(all =~= x.drop_last().push(x.last() + now[0]) + now.drop_first());
        } else {
            assert(now == y.drop_last().push(y.last().push(c)));
            if y.len() == 1 {
                assert(before.last() == x.last() + y[0]);
                assert((x.last() + y[0]).push(c) =~= x.last() + now[0]);
            } else {
                assert(before.last() == y.last());
            }
            assert(all =~= x.drop_last().push(x.last() + now[0]) + now.drop_first());
        }
    }
}

proof fn lemma_one_piece(s: Seq<char>, sep: char)
    requires
        lacks(s, '"'),
        lacks(s, sep),
    ensures
        turtle::split_quoted(s, sep) == (seq![s], false),
    decreases s.len(),
{
    if s.len() > 0 {
        let shorter = s.drop_last();
        lemma_lacks_part(s, 0, s.len() - 1, '"');
        lemma_lacks_part(s, 0, s.len() - 1, sep);
        assert(s.subrange(0, s.len() - 1) =~= shorter);
        lemma_one_piece(shorter, sep);
        assert(s[s.len() - 1] != sep);
        assert(s[s.len() - 1] != '"');
        assert(shorter.push(s.last()) =~= s);
        assert(turtle::split_quoted(s, sep).0 =~= seq![s]);
    } else {
        assert(s =~= Seq::<char>::empty());
    }
}

proof fn lemma_lacks_part(s: Seq<char>, from: int, to: int, c: char)
    requires
        lacks(s, c),
        0 <= from <= to <= s.len(),
    ensures
        lacks(s.subrange(from, to), c),
{
    assert forall|i: int| 0 <= i < to - from implies #[trigger] s.subrange(from, to)[i] != c by {
        assert(s.subrange(from, to)[i] == s[from + i]);
    }
}

/// Inside quotes, nothing separates.
proof fn lemma_inside_quotes(w: Seq<char>, x: Seq<char>, sep: char)
    requires
        lacks(w, '"'),
        lacks(w, sep),
        lacks(x, '"'),
    ensures
        turtle::split_quoted(w.push('"') + x, sep) == (seq![w.push('"') + x], true),
    decreases x.len(),
{
    let s = w.push('"') + x;
    if x.len() == 0 {
        lemma_one_piece(w, sep);
        assert(s =~= w.push('"'));
        assert(s.drop_last() =~= w);
        assert(turtle::split_quoted(s, sep).0 =~= seq![s]);
    } else {
        let shorter = x.drop_last();
        lemma_lacks_part(x, 0, x.len() - 1, '"');
        assert(x.subrange(0, x.len() - 1) =~= shorter);
        lemma_inside_quotes(w, shorter, sep);
        assert(s.drop_last() =~= w.push('"') + shorter);
        assert(s.last() == x[x.len() - 1]);
        assert((w.push('"') + shorter).push(s.last()) =~= s);
        assert(turtle::split_quoted(s, sep).0 =~= seq![s]);
    }
}

/// A word and a literal between quotes.
pub open spec fn with_literal(word: Seq<char>, literal: Seq<char>) -> Seq<char> {
    (word.push('"') + literal).push('"')
}

/// Whether a text can stand as a clause on a line: it is one piece, outside quotes, with
/// no white space around it, and does not start like a comment.
#[verifier::opaque]
pub open spec fn is_clause(c: Seq<char>) -> bool {
    &&& c.len() > 0
    &&& !text::is_space(c[0])
    &&& c[0] != '#'
    &&& !text::is_space(c.last())
    &&& lacks(c, '\n')
    &&& turtle::split_quoted(c, ';') == (seq![c], false)
}

pub proof fn lemma_plain_clause(c: Seq<char>)
    requires
        c.len() > 0,
        !text::is_space(c[0]),
        c[0] != '#',
        !text::is_space(c.last()),
        lacks(c, '\n'),
        lacks(c, '"'),
        lacks(c, ';'),
    ensures
        is_clause(c),
{
    reveal(is_clause);
    lemma_one_piece(c, ';');
}

pub proof fn lemma_literal_clause(word: Seq<char>, literal: Seq<char>)
    requires
        word.len() > 0,
        !text::is_space(word[0]),
        word[0] != '#',
        lacks(word, '\n'),
        lacks(word, '"'),
        lacks(word, ';'),
        lacks(literal, '\n'),
        lacks(literal, '"'),
    ensures
        is_clause(with_literal(word, literal)),
{
    reveal(is_clause);
    let c = with_literal(word, literal);
    lemma_inside_quotes(word, literal, ';');
    assert(c.drop_last() =~= word.push('"') + literal);
    assert(c.last() == '"');
    assert(turtle::split_quoted(c, ';').0 =~= seq![c]);
    assert(c[0] == word[0]);
    assert forall|i: int| 0 <= i < c.len() implies #[trigger] c[i] != '\n' by {
        if i < word.len() {
            assert(c[i] == word[i]);
        } else if word.len() < i < c.len() - 1 {
            assert(c[i] == literal[i - word.len() - 1]);
        }
    }
}

// ---- statements of clauses ---------------------------------------------------------------------

/// The first `n` clauses in one line, with semicolons between them.
pub open spec fn in_line(cs: Seq<Seq<char>>, n: nat) -> Seq<char>
    decreases n,
{
    if n <= 1 {
        cs[0]
    } else {
        in_line(cs, (n - 1) as nat) + seq![' ', ';', ' '] + cs[n - 1]
    }
}

/// The statement of some clauses, as it is gathered from their lines.
pub open spec fn statement_of(cs: Seq<Seq<char>>) -> Seq<char> {
    seq![' '] + in_line(cs, cs.len()) + seq![' ', '.']
}

/// The lines of the first `n` clauses, all of them to be followed by more.
pub open spec fn open_lines(cs: Seq<Seq<char>>, n: nat) -> Seq<char>
    decreases n,
{
    if n <= 1 {
        cs[0] + seq![' ', ';', '\n']
    } else {
        open_lines(cs, (n - 1) as nat) + seq![' ', ' ', ' ', ' '] + cs[n - 1] + seq![' ', ';', '\n']
    }
}

/// The lines of a statement of at least two clauses, and an empty line.
pub open spec fn lines_of(cs: Seq<Seq<char>>) -> Seq<char> {
    open_lines(cs, (cs.len() - 1) as nat) + seq![' ', ' ', ' ', ' '] + cs.last() + seq![
        ' ',
        '.',
        '\n',
        '\n',
    ]
}

/// What a line of a clause does to what was gathered before it.
proof fn lemma_clause_line(
    before: Seq<char>,
    done: Seq<Seq<char>>,
    current: Seq<char>,
    indent: Seq<char>,
    c: Seq<char>,
    end: char,
)
    requires
        is_ended(before),
        ({
            let lines = text::lines_spec(before);
            turtle::gather(lines, lines.len()) == (done, current)
        }),
        forall|i: int| 0 <= i < indent.len() ==> #[trigger] indent[i] == ' ',
        is_clause(c),
        end == ';' || end == '.',
    ensures
        ({
            let all = before + (indent + c + seq![' ', end]).push('\n');
            let lines = text::lines_spec(all);
            let next = current.push(' ') + (c + seq![' ', end]);
            is_ended(all) && turtle::gather(lines, lines.len()) == (if end == '.' {
                (done.push(next), Seq::<char>::empty())
            } else {
                (done, next)
            })
        }),
{
    reveal(is_clause);
    let line = indent + c + seq![' ', end];
    let all = before + line.push('\n');
    assert forall|i: int| 0 <= i < line.len() implies #[trigger] line[i] != '\n' by {
        if i < indent.len() {
            assert(line[i] == indent[i]);
        } else if i < indent.len() + c.len() {
            assert(line[i] == c[i - indent.len()]);
        }
    }
    assert(line.last() == end);
    lemma_one_line(line);
    lemma_lines_append(before, line.push('\n'));
    let first = text::lines_spec(before);
    let lines = text::lines_spec(all);
    assert(lines == first + seq![line]);
    lemma_gather_first(first, seq![line], first.len());
    assert(lines[lines.len() - 1] == line);
    assert((lines.len() - 1) as nat == first.len());
    let t = c + seq![' ', end];
    assert(t.last() == end);
    assert(t[0] == c[0]);
    assert forall|i: int| 0 <= i < indent.len() implies text::is_space(#[trigger] indent[i]) by {}
    lemma_trimmed(indent, t, Seq::empty());
    assert(indent + t + Seq::<char>::empty() =~= line);
    reveal_strlit(".");
    reveal_strlit(" .");
    assert(t.len() >= 3);
    if end == '.' {
        assert(t.subrange(t.len() - 2, t.len() as int) =~= " ."@);
        assert(" ."@.is_suffix_of(t));
    } else {
        if " ."@.is_suffix_of(t) {
            assert(t.subrange(t.len() - 2, t.len() as int)[1] == ';');
        }
        assert(t != "."@);
    }
    assert(all.last() == '\n');
}

proof fn lemma_open_lines(cs: Seq<Seq<char>>, n: nat)
    requires
        1 <= n <= cs.len(),
        forall|i: int| 0 <= i < cs.len() ==> is_clause(#[trigger] cs[i]),
    ensures
        ({
            let s = open_lines(cs, n);
            let lines = text::lines_spec(s);
            is_ended(s) && turtle::gather(lines, lines.len()) == (
                Seq::<Seq<char>>::empty(),
                seq![' '] + in_line(cs, n) + seq![' ', ';'],
            )
        }),
    decreases n,
{
    let none = Seq::<Seq<char>>::empty();
    if n == 1 {
        let start = Seq::<char>::empty();
        assert(text::split_spec(start, '\n') == seq![start]);
        assert(text::lines_spec(start) =~= none);
        lemma_clause_line(start, none, start, start, cs[0], ';');
        let line = start + cs[0] + seq![' ', ';'];
        assert(start + line.push('\n') =~= open_lines(cs, n));
        assert(start.push(' ') + (cs[0] + seq![' ', ';']) =~= seq![' '] + in_line(cs, n) + seq![
            ' ',
            ';',
        ]);
    } else {
        let m = (n - 1) as nat;
        lemma_open_lines(cs, m);
        let before = open_lines(cs, m);
        let current = seq![' '] + in_line(cs, m) + seq![' ', ';'];
        let indent = seq![' ', ' ', ' ', ' '];
        let c = cs[n - 1];
        lemma_clause_line(before, none, current, indent, c, ';');
        assert(before + (indent + c + seq![' ', ';']).push('\n') =~= open_lines(cs, n));
        assert(current.push(' ') + (c + seq![' ', ';']) =~= seq![' '] + in_line(cs, n) + seq![
            ' ',
            ';',
        ]);
    }
}

/// The lines of a statement are read as that statement.
pub proof fn lemma_lines_of(cs: Seq<Seq<char>>)
    requires
        cs.len() >= 2,
        forall|i: int| 0 <= i < cs.len() ==> is_clause(#[trigger] cs[i]),
    ensures
        reads_as(lines_of(cs), seq![statement_of(cs)]),
{
    let none = Seq::<Seq<char>>::empty();
    let m = (cs.len() - 1) as nat;
    lemma_open_lines(cs, m);
    let before = open_lines(cs, m);
    let current = seq![' '] + in_line(cs, m) + seq![' ', ';'];
    let indent = seq![' ', ' ', ' ', ' '];
    let c = cs[cs.len() - 1];
    lemma_clause_line(before, none, current, indent, c, '.');
    let full = before + (indent + c + seq![' ', '.']).push('\n');
    let next = current.push(' ') + (c + seq![' ', '.']);
    assert(next =~= statement_of(cs));
    assert(none.push(next) =~= seq![statement_of(cs)]);
    lemma_empty_line();
    lemma_reads_append(full, seq![statement_of(cs)], seq!['\n'], none);
    assert(full + seq!['\n'] =~= lines_of(cs));
    assert(seq![statement_of(cs)] + none =~= seq![statement_of(cs)]);
}

// ---- statements taken apart --------------------------------------------------------------------

/// A clause among `n` in one line, with the spaces around it.
pub open spec fn spaced(cs: Seq<Seq<char>>, n: nat, i: int) -> Seq<char> {
    (if i > 0 {
        seq![' ']
    } else {
        Seq::empty()
    }) + cs[i] + (if i < n - 1 {
        seq![' ']
    } else {
        Seq::empty()
    })
}

proof fn lemma_separator()
    ensures
        turtle::split_quoted(seq![' ', ';', ' '], ';') == (seq![seq![' '], seq![' ']], false),
{
    let s = seq![' ', ';', ' '];
    let one = seq![' '];
    lemma_one_piece(one, ';');
    let two = seq![' ', ';'];
    assert(two.drop_last() =~= one);
    assert(turtle::split_quoted(two, ';').0 =~= seq![one, Seq::<char>::empty()]);
    assert(s.drop_last() =~= two);
    assert(Seq::<char>::empty().push(' ') =~= one);
    assert(turtle::split_quoted(s, ';').0 =~= seq![one, one]);
}

proof fn lemma_in_line(cs: Seq<Seq<char>>, n: nat)
    requires
        1 <= n <= cs.len(),
        forall|i: int| 0 <= i < cs.len() ==> is_clause(#[trigger] cs[i]),
    ensures
        in_line(cs, n).len() > 0,
        in_line(cs, n)[0] == cs[0][0],
        in_line(cs, n).last() == cs[n - 1].last(),
        turtle::split_quoted(in_line(cs, n), ';') == (
            Seq::new(n, |i: int| spaced(cs, n, i)),
            false,
        ),
    decreases n,
{
    reveal(is_clause);
    let parts = Seq::new(n, |i: int| spaced(cs, n, i));
    if n == 1 {
        assert(is_clause(cs[0]));
        assert(spaced(cs, n, 0) =~= cs[0]);
        assert(parts =~= seq![cs[0]]);
    } else {
        let m = (n - 1) as nat;
        lemma_in_line(cs, m);
        let c = cs[n - 1];
        assert(is_clause(c));
        let sep = seq![' ', ';', ' '];
        lemma_separator();
        lemma_pieces_append(sep, c, ';');
        let tail = sep + c;
        assert(turtle::split_quoted(tail, ';').0 =~= seq![seq![' '], seq![' '] + c]);
        let a = in_line(cs, m);
        lemma_pieces_append(a, tail, ';');
        assert(a + tail =~= in_line(cs, n));
        let before = Seq::new(m, |i: int| spaced(cs, m, i));
        let last = before.last() + seq![' '];
        assert(before.last() == spaced(cs, m, m - 1));
        assert(last =~= spaced(cs, n, m - 1));
        assert(seq![' '] + c =~= spaced(cs, n, n - 1));
        assert forall|i: int| 0 <= i < m - 1 implies spaced(cs, m, i) == spaced(cs, n, i) by {}
        assert(turtle::split_quoted(in_line(cs, n), ';').0 =~= parts);
    }
}

/// A statement of clauses is taken apart into them, but for white space.
pub proof fn lemma_statement_of(cs: Seq<Seq<char>>)
    requires
        cs.len() >= 2,
        forall|i: int| 0 <= i < cs.len() ==> is_clause(#[trigger] cs[i]),
    ensures
        turtle::head_spec(statement_of(cs)) == cs[0],
        turtle::clauses_spec(statement_of(cs)).len() == cs.len() - 1,
        forall|i: int|
            0 <= i < cs.len() - 1 ==> text::trim_spec(
                #[trigger] turtle::clauses_spec(statement_of(cs))[i],
            ) == cs[i + 1],
{
    reveal(is_clause);
    let n = cs.len();
    let s = statement_of(cs);
    let line = in_line(cs, n);
    let none = Seq::<char>::empty();
    lemma_in_line(cs, n);
    assert(is_clause(cs[0]));
    assert(is_clause(cs[n - 1]));
    let t = line + seq![' ', '.'];
    assert(t[0] == line[0]);
    assert(t.last() == '.');
    lemma_trimmed(seq![' '], t, none);
    assert(seq![' '] + t + none =~= s);
    text::lemma_trim_end_char(t, '.', t.len() - 1);
    let u = t.take(t.len() - 1);
    assert(u.last() == ' ');
    assert(text::trim_end_char_spec(t, '.') == u);
    lemma_trimmed(none, line, seq![' ']);
    assert(none + line + seq![' '] =~= u);
    assert(turtle::body_spec(s) == line);
    let parts = Seq::new(n, |i: int| spaced(cs, n, i));
    assert forall|i: int| 0 <= i < n implies text::trim_spec(#[trigger] spaced(cs, n, i))
        == cs[i] by {
        assert(is_clause(cs[i]));
        let before = if i > 0 {
            seq![' ']
        } else {
            none
        };
        let after = if i < n - 1 {
            seq![' ']
        } else {
            none
        };
        lemma_trimmed(before, cs[i], after);
    }
    assert(turtle::head_spec(s) == text::trim_spec(spaced(cs, n, 0)));
    assert forall|i: int| 0 <= i < n - 1 implies text::trim_spec(
        #[trigger] turtle::clauses_spec(s)[i],
    ) == cs[i + 1] by {
        assert(turtle::clauses_spec(s)[i] == spaced(cs, n, i + 1));
    }
}

/// A clause is cut after its first word.
pub proof fn lemma_cut(word: Seq<char>, rest: Seq<char>)
    requires
        forall|i: int| 0 <= i < word.len() ==> !text::is_space(#[trigger] word[i]),
    ensures
        turtle::cut_clause(word.push(' ') + rest) == Some((word, rest)),
{
    let c = word.push(' ') + rest;
    assert forall|k: int| 0 <= k < word.len() implies !text::is_space(c[k]) by {
        assert(c[k] == word[k]);
    }
    assert(c[word.len() as int] == ' ');
    text::lemma_find_space(c, word.len() as int);
    assert(c.take(word.len() as int) =~= word);
    assert(c.skip(word.len() as int + 1) =~= rest);
}

/// What is written between quotes is read from between them.
pub proof fn lemma_quoted(literal: Seq<char>)
    requires
        lacks(literal, '"'),
    ensures
        turtle::quoted_spec(with_literal(Seq::empty(), literal)) == Ok::<Seq<char>, Seq<char>>(
            literal,
        ),
{
    let s = with_literal(Seq::empty(), literal);
    assert(s[0] == '"');
    text::lemma_find(s, '"', 0);
    text::lemma_rfind(s, '"', s.len() as int);
    assert(s.subrange(1, s.len() - 1) =~= literal);
}

/// The name in a term of the board's own.
pub proof fn lemma_local(name: Seq<char>)
    requires
        name.len() > 0,
        !text::is_space(name.last()),
    ensures
        turtle::local_spec("kb:"@ + name) == Ok::<Seq<char>, Seq<char>>(name),
{
    reveal_strlit("kb:");
    let t = "kb:"@ + name;
    assert(t.last() == name.last());
    lemma_trimmed(Seq::empty(), t, Seq::empty());
    assert(Seq::<char>::empty() + t + Seq::<char>::empty() =~= t);
    assert(t.subrange(0, 3) =~= "kb:"@);
    assert(t.skip(3) =~= name);
}

// ---- what a text does not say --------------------------------------------------------------------

/// What holds a text holds its characters.
pub proof fn lemma_not_contained(s: Seq<char>, needle: Seq<char>, at: int)
    requires
        0 <= at < needle.len(),
        lacks(s, needle[at]),
    ensures
        !text::contains_spec(s, needle),
{
    if text::contains_spec(s, needle) {
        let i = choose|i: int| text::occurs_at(s, needle, i);
        assert(s.subrange(i, i + needle.len())[at] == s[i + at]);
    }
}

proof fn lemma_trim_lacks(s: Seq<char>, c: char)
    requires
        lacks(s, c),
    ensures
        lacks(text::trim_spec(s), c),
{
    lemma_trim_start_lacks(s, c);
    lemma_trim_end_lacks(text::trim_start_spec(s), c);
}

proof fn lemma_trim_start_lacks(s: Seq<char>, c: char)
    requires
        lacks(s, c),
    ensures
        lacks(text::trim_start_spec(s), c),
    decreases s.len(),
{
    if s.len() > 0 && text::is_space(s[0]) {
        lemma_lacks_part(s, 1, s.len() as int, c);
        assert(s.subrange(1, s.len() as int) =~= s.drop_first());
        lemma_trim_start_lacks(s.drop_first(), c);
    }
}

proof fn lemma_trim_end_lacks(s: Seq<char>, c: char)
    requires
        lacks(s, c),
    ensures
        lacks(text::trim_end_spec(s), c),
    decreases s.len(),
{
    if s.len() > 0 && text::is_space(s.last()) {
        lemma_lacks_part(s, 0, s.len() - 1, c);
        assert(s.subrange(0, s.len() - 1) =~= s.drop_last());
        lemma_trim_end_lacks(s.drop_last(), c);
    }
}

proof fn lemma_trim_dot_lacks(s: Seq<char>, dot: char, c: char)
    requires
        lacks(s, c),
    ensures
        lacks(text::trim_end_char_spec(s, dot), c),
    decreases s.len(),
{
    if s.len() > 0 && s.last() == dot {
        lemma_lacks_part(s, 0, s.len() - 1, c);
        assert(s.subrange(0, s.len() - 1) =~= s.drop_last());
        lemma_trim_dot_lacks(s.drop_last(), dot, c);
    }
}

/// Whether a character occurs in none of some texts.
pub open spec fn all_lack(list: Seq<Seq<char>>, c: char) -> bool {
    forall|i: int| 0 <= i < list.len() ==> lacks(#[trigger] list[i], c)
}

proof fn lemma_pieces_lack(s: Seq<char>, sep: char, c: char)
    requires
        lacks(s, c),
    ensures
        all_lack(turtle::split_quoted(s, sep).0, c),
        turtle::split_quoted(s, sep).0.len() > 0,
    decreases s.len(),
{
    lemma_pieces_some(s, sep);
    let now = turtle::split_quoted(s, sep).0;
    if s.len() > 0 {
        lemma_lacks_part(s, 0, s.len() - 1, c);
        assert(s.subrange(0, s.len() - 1) =~= s.drop_last());
        lemma_pieces_lack(s.drop_last(), sep, c);
        let before = turtle::split_quoted(s.drop_last(), sep).0;
        assert(s[s.len() - 1] != c);
        assert forall|i: int| 0 <= i < now.len() implies lacks(#[trigger] now[i], c) by {
            if i < before.len() - 1 {
                assert(now[i] == before[i]);
            } else {
                assert(lacks(before[before.len() - 1], c));
            }
        }
    }
}

proof fn lemma_split_lack(s: Seq<char>, sep: char, c: char)
    requires
        lacks(s, c),
    ensures
        all_lack(text::split_spec(s, sep), c),
        text::split_spec(s, sep).len() > 0,
    decreases s.len(),
{
    lemma_split_some(s, sep);
    let now = text::split_spec(s, sep);
    if s.len() > 0 {
        lemma_lacks_part(s, 0, s.len() - 1, c);
        assert(s.subrange(0, s.len() - 1) =~= s.drop_last());
        lemma_split_lack(s.drop_last(), sep, c);
        let before = text::split_spec(s.drop_last(), sep);
        assert(s[s.len() - 1] != c);
        assert forall|i: int| 0 <= i < now.len() implies lacks(#[trigger] now[i], c) by {
            if i < before.len() - 1 {
                assert(now[i] == before[i]);
            } else {
                assert(lacks(before[before.len() - 1], c));
            }
        }
    }
}

proof fn lemma_lines_lack(s: Seq<char>, c: char)
    requires
        lacks(s, c),
    ensures
        all_lack(text::lines_spec(s), c),
{
    lemma_split_lack(s, '\n', c);
    let pieces = text::split_spec(s, '\n');
    let lines = text::lines_spec(s);
    assert forall|i: int| 0 <= i < lines.len() implies lacks(#[trigger] lines[i], c) by {
        assert(lacks(pieces[i], c));
        if i < pieces.len() - 1 {
            assert(lines[i] == text::strip_return(pieces[i]));
            if pieces[i].len() > 0 {
                lemma_lacks_part(pieces[i], 0, pieces[i].len() - 1, c);
                assert(pieces[i].subrange(0, pieces[i].len() - 1) =~= pieces[i].drop_last());
            }
        } else {
            assert(lines[i] == pieces.last());
        }
    }
}

proof fn lemma_gather_lacks(lines: Seq<Seq<char>>, n: nat, c: char)
    requires
        n <= lines.len(),
        all_lack(lines, c),
        c != ' ',
    ensures
        all_lack(turtle::gather(lines, n).0, c),
        lacks(turtle::gather(lines, n).1, c),
    decreases n,
{
    if n > 0 {
        lemma_gather_lacks(lines, (n - 1) as nat, c);
        let (done, current) = turtle::gather(lines, (n - 1) as nat);
        assert(lacks(lines[n - 1], c));
        lemma_trim_lacks(lines[n - 1], c);
        let line = text::trim_spec(lines[n - 1]);
        let next = current.push(' ') + line;
        assert forall|i: int| 0 <= i < next.len() implies #[trigger] next[i] != c by {
            if i < current.len() {
                assert(next[i] == current[i]);
            } else if i > current.len() {
                assert(next[i] == line[i - current.len() - 1]);
            }
        }
    }
}

/// A character that a text lacks is in no statement that is read from it, and in no head
/// of one.
pub proof fn lemma_statements_lack(s: Seq<char>, statements: Seq<Seq<char>>, c: char)
    requires
        reads_as(s, statements),
        lacks(s, c),
        c != ' ',
    ensures
        forall|i: int|
            0 <= i < statements.len() ==> lacks(turtle::head_spec(#[trigger] statements[i]), c),
{
    let lines = text::lines_spec(s);
    lemma_lines_lack(s, c);
    lemma_gather_lacks(lines, lines.len(), c);
    assert forall|i: int| 0 <= i < statements.len() implies lacks(
        turtle::head_spec(#[trigger] statements[i]),
        c,
    ) by {
        let st = statements[i];
        assert(lacks(st, c));
        lemma_trim_lacks(st, c);
        lemma_trim_dot_lacks(text::trim_spec(st), '.', c);
        lemma_trim_lacks(text::trim_end_char_spec(text::trim_spec(st), '.'), c);
        lemma_pieces_lack(turtle::body_spec(st), ';', c);
        lemma_trim_lacks(turtle::split_quoted(turtle::body_spec(st), ';').0[0], c);
    }
}

/// Where the last line but an empty one ends a statement, nothing is left over.
pub proof fn lemma_reads_something(s: Seq<char>, before: Seq<char>, c: Seq<char>)
    requires
        is_ended(before),
        is_clause(c),
        s == before + seq![' ', ' ', ' ', ' '] + c + seq![' ', '.', '\n', '\n'],
    ensures
        exists|statements: Seq<Seq<char>>| #[trigger] reads_as(s, statements),
{
    let lines = text::lines_spec(before);
    let (done, current) = turtle::gather(lines, lines.len());
    let indent = seq![' ', ' ', ' ', ' '];
    lemma_clause_line(before, done, current, indent, c, '.');
    let a = before + (indent + c + seq![' ', '.']).push('\n');
    let statements = done.push(current.push(' ') + (c + seq![' ', '.']));
    lemma_empty_line();
    lemma_reads_append(a, statements, seq!['\n'], Seq::empty());
    assert(a + seq!['\n'] =~= s);
    assert(statements + Seq::<Seq<char>>::empty() =~= statements);
    assert(reads_as(s, statements));
}

proof fn lemma_empty_line()
    ensures
        reads_as(seq!['\n'], Seq::empty()),
{
    let none = Seq::<char>::empty();
    lemma_one_line(none);
    assert(none.push('\n') =~= seq!['\n']);
    assert(text::trim_spec(none) == none);
    let lines = text::lines_spec(seq!['\n']);
    assert(lines == seq![none]);
    assert(turtle::gather(lines, 0) == (Seq::<Seq<char>>::empty(), none));
}

/// A comment and an empty line say nothing.
pub proof fn lemma_comment(line: Seq<char>)
    requires
        line.len() > 0,
        line[0] == '#',
        lacks(line, '\n'),
        !text::is_space(line.last()),
    ensures
        reads_as(line + seq!['\n', '\n'], Seq::empty()),
{
    let none = Seq::<char>::empty();
    let nothing = Seq::<Seq<char>>::empty();
    lemma_one_line(line);
    lemma_trimmed(none, line, none);
    assert(none + line + none =~= line);
    let lines = text::lines_spec(line.push('\n'));
    assert(turtle::gather(lines, 0) == (nothing, none));
    assert(turtle::gather(lines, 1) == (nothing, none));
    lemma_empty_line();
    lemma_reads_append(line.push('\n'), nothing, seq!['\n'], nothing);
    assert(line.push('\n') + seq!['\n'] =~= line + seq!['\n', '\n']);
    assert(nothing + nothing =~= nothing);
}

} // verus!
