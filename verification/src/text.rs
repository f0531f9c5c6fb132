//! Text as sequences of characters: the string operations the board's rules
//! are written with, each with its exact meaning on `Seq<char>`.
use vstd::prelude::*;
use vstd::string::StrSliceExecFns;
use vstd::string::StringExecFns;

verus! {

/// `String::push`: the string with one more character at its end.
pub assume_specification[ String::push ](s: &mut String, c: char)
    ensures
        final(s)@ == old(s)@.push(c),
;

/// `str` equality: two strings are equal when they hold the same characters.
pub assume_specification[ <str as PartialEq>::eq ](a: &str, b: &str) -> (r: bool)
    ensures
        r == (a@ == b@),
;

// ---- strings and character vectors --------------------------------------

/// What a list of strings holds.
pub open spec fn views(list: Seq<String>) -> Seq<Seq<char>> {
    Seq::new(list.len(), |i: int| list[i]@)
}

/// The characters of a string, as a vector that can be indexed.
pub fn to_chars(s: &str) -> (r: Vec<char>)
    ensures
        r@ == s@,
{
    let mut r: Vec<char> = Vec::new();
    for c in it: s.chars()
        invariant
            r@ == s@.take(it.index() as int),
            it.seq() == s@,
    {
        r.push(c);
    }
    r
}

/// The string made of `chars[from..to]`.
pub fn from_chars(chars: &Vec<char>, from: usize, to: usize) -> (r: String)
    requires
        from <= to <= chars@.len(),
    ensures
        r@ == chars@.subrange(from as int, to as int),
{
    let mut r: String = String::new();
    let mut i: usize = from;
    while i < to
        invariant
            from <= i <= to <= chars@.len(),
            r@ == chars@.subrange(from as int, i as int),
        decreases to - i,
    {
        r.push(chars[i]);
        assert(chars@.subrange(from as int, i + 1) =~= chars@.subrange(from as int, i as int).push(
            chars@[i as int],
        ));
        i = i + 1;
    }
    r
}

/// An owned copy of a string slice.
pub fn owned(s: &str) -> (r: String)
    ensures
        r@ == s@,
{
    s.to_owned()
}

/// Whether two strings hold the same characters.
pub fn same(a: &str, b: &str) -> (r: bool)
    ensures
        r == (a@ == b@),
{
    a.eq(b)
}

/// Whether `needle` is one of the strings of `list`.
pub fn contains_string(list: &Vec<String>, needle: &str) -> (r: bool)
    ensures
        r == views(list@).contains(needle@),
{
    let mut i: usize = 0;
    while i < list.len()
        invariant
            i <= list@.len(),
            forall|k: int| 0 <= k < i ==> list@[k]@ != needle@,
        decreases list@.len() - i,
    {
        if same(list[i].as_str(), needle) {
            assert(views(list@)[i as int] == needle@);
            return true;
        }
        i = i + 1;
    }
    assert forall|k: int| 0 <= k < views(list@).len() implies views(list@)[k] != needle@ by {}
    false
}

/// A list of strings copied element by element.
pub fn clone_strings(list: &Vec<String>) -> (r: Vec<String>)
    ensures
        r@ == list@,
{
    let mut r: Vec<String> = Vec::new();
    let mut i: usize = 0;
    while i < list.len()
        invariant
            i <= list@.len(),
            r@ == list@.take(i as int),
        decreases list@.len() - i,
    {
        r.push(list[i].clone());
        assert(list@.take(i + 1) =~= list@.take(i as int).push(list@[i as int]));
        i = i + 1;
    }
    assert(list@.take(i as int) =~= list@);
    r
}

// ---- concatenation --------------------------------------------------------

/// The parts in order, with `sep` between every two neighbours.
pub open spec fn join_spec(parts: Seq<Seq<char>>, sep: Seq<char>) -> Seq<char>
    decreases parts.len(),
{
    if parts.len() == 0 {
        Seq::empty()
    } else if parts.len() == 1 {
        parts[0]
    } else {
        join_spec(parts.drop_last(), sep) + sep + parts.last()
    }
}

pub fn join(parts: &Vec<String>, sep: &str) -> (r: String)
    ensures
        r@ == join_spec(views(parts@), sep@),
{
    let mut r: String = String::new();
    let mut i: usize = 0;
    while i < parts.len()
        invariant
            i <= parts@.len(),
            r@ == join_spec(views(parts@).take(i as int), sep@),
        decreases parts@.len() - i,
    {
        let ghost before = views(parts@).take(i as int);
        let ghost after = views(parts@).take(i + 1);
        assert(after.drop_last() =~= before);
        assert(after.last() == parts@[i as int]@);
        if i > 0 {
            r.append(sep);
        }
        r.append(parts[i].as_str());
        proof {
            if i == 0 {
                assert(r@ =~= parts@[0]@);
            }
        }
        i = i + 1;
    }
    assert(views(parts@).take(i as int) =~= views(parts@));
    r
}

/// `n` copies of a character.
pub open spec fn repeat_spec(c: char, n: nat) -> Seq<char> {
    Seq::new(n, |i: int| c)
}

pub fn repeat(c: char, n: usize) -> (r: String)
    ensures
        r@ == repeat_spec(c, n as nat),
{
    let mut r: String = String::new();
    let mut i: usize = 0;
    while i < n
        invariant
            i <= n,
            r@ == repeat_spec(c, i as nat),
        decreases n - i,
    {
        r.push(c);
        assert(repeat_spec(c, (i + 1) as nat) =~= repeat_spec(c, i as nat).push(c));
        i = i + 1;
    }
    r
}

/// The text followed by as many spaces as it takes to be `width` wide.
pub open spec fn pad_right_spec(s: Seq<char>, width: nat) -> Seq<char> {
    if s.len() >= width {
        s
    } else {
        s + repeat_spec(' ', (width - s.len()) as nat)
    }
}

pub fn pad_right(s: &str, width: usize) -> (r: String)
    ensures
        r@ == pad_right_spec(s@, width as nat),
{
    let n: usize = s.unicode_len();
    let mut r: String = owned(s);
    if n < width {
        let fill: String = repeat(' ', width - n);
        r.append(fill.as_str());
    }
    r
}

/// The text preceded by as many spaces as it takes to be `width` wide.
pub open spec fn pad_left_spec(s: Seq<char>, width: nat) -> Seq<char> {
    if s.len() >= width {
        s
    } else {
        repeat_spec(' ', (width - s.len()) as nat) + s
    }
}

pub fn pad_left(s: &str, width: usize) -> (r: String)
    ensures
        r@ == pad_left_spec(s@, width as nat),
{
    let n: usize = s.unicode_len();
    if n < width {
        let mut r: String = repeat(' ', width - n);
        r.append(s);
        r
    } else {
        owned(s)
    }
}

// ---- numbers --------------------------------------------------------------

/// The character of a decimal digit.
pub open spec fn digit_spec(d: nat) -> char {
    if d == 0 {
        '0'
    } else if d == 1 {
        '1'
    } else if d == 2 {
        '2'
    } else if d == 3 {
        '3'
    } else if d == 4 {
        '4'
    } else if d == 5 {
        '5'
    } else if d == 6 {
        '6'
    } else if d == 7 {
        '7'
    } else if d == 8 {
        '8'
    } else {
        '9'
    }
}

fn digit(d: u64) -> (c: char)
    requires
        d < 10,
    ensures
        c == digit_spec(d as nat),
{
    match d {
        0 => '0',
        1 => '1',
        2 => '2',
        3 => '3',
        4 => '4',
        5 => '5',
        6 => '6',
        7 => '7',
        8 => '8',
        _ => '9',
    }
}

/// A number in decimal, without leading zeros.
pub open spec fn decimal_spec(n: nat) -> Seq<char>
    decreases n,
{
    if n < 10 {
        seq![digit_spec(n)]
    } else {
        decimal_spec(n / 10).push(digit_spec(n % 10))
    }
}

/// An integer in decimal, with a minus sign when it is negative.
pub open spec fn decimal_int_spec(n: int) -> Seq<char> {
    if n < 0 {
        seq!['-'] + decimal_spec((-n) as nat)
    } else {
        decimal_spec(n as nat)
    }
}

pub fn decimal_u64(n: u64) -> (r: String)
    ensures
        r@ == decimal_spec(n as nat),
    decreases n,
{
    let mut r: String = if n < 10 {
        String::new()
    } else {
        decimal_u64(n / 10)
    };
    r.push(digit(n % 10));
    proof {
        if n < 10 {
            assert(r@ =~= seq![digit_spec(n as nat)]);
        }
    }
    r
}

pub fn decimal(n: usize) -> (r: String)
    ensures
        r@ == decimal_spec(n as nat),
{
    decimal_u64(n as u64)
}

pub fn decimal_i64(n: i64) -> (r: String)
    ensures
        r@ == decimal_int_spec(n as int),
{
    if n < 0 {
        let mut r: String = String::new();
        r.push('-');
        let magnitude: u64 = if n == i64::MIN {
            0x8000_0000_0000_0000u64
        } else {
            (-n) as u64
        };
        let digits: String = decimal_u64(magnitude);
        r.append(digits.as_str());
        assert(r@ =~= seq!['-'] + decimal_spec((-n) as nat));
        r
    } else {
        decimal_u64(n as u64)
    }
}

// ---- characters ------------------------------------------------------------

/// The characters with Unicode's `White_Space` property.
pub open spec fn is_space(c: char) -> bool {
    ||| '\u{9}' <= c <= '\u{d}'
    ||| c == ' '
    ||| c == '\u{85}'
    ||| c == '\u{a0}'
    ||| c == '\u{1680}'
    ||| '\u{2000}' <= c <= '\u{200a}'
    ||| c == '\u{2028}'
    ||| c == '\u{2029}'
    ||| c == '\u{202f}'
    ||| c == '\u{205f}'
    ||| c == '\u{3000}'
}

pub fn char_is_space(c: char) -> (r: bool)
    ensures
        r == is_space(c),
{
    ('\u{9}' <= c && c <= '\u{d}') || c == ' ' || c == '\u{85}' || c == '\u{a0}' || c == '\u{1680}'
        || ('\u{2000}' <= c && c <= '\u{200a}') || c == '\u{2028}' || c == '\u{2029}' || c
        == '\u{202f}' || c == '\u{205f}' || c == '\u{3000}'
}

/// An ASCII capital as its small letter; any other character unchanged.
pub open spec fn lower_char(c: char) -> char {
    if 'A' <= c <= 'Z' {
        (c as u8 + 32) as char
    } else {
        c
    }
}

pub fn char_lower(c: char) -> (r: char)
    ensures
        r == lower_char(c),
{
    if 'A' <= c && c <= 'Z' {
        (c as u8 + 32) as char
    } else {
        c
    }
}

/// A small ASCII letter as its capital; any other character unchanged.
pub open spec fn upper_char(c: char) -> char {
    if 'a' <= c <= 'z' {
        (c as u8 - 32) as char
    } else {
        c
    }
}

pub fn char_upper(c: char) -> (r: char)
    ensures
        r == upper_char(c),
{
    if 'a' <= c && c <= 'z' {
        (c as u8 - 32) as char
    } else {
        c
    }
}

pub open spec fn lower_spec(s: Seq<char>) -> Seq<char> {
    s.map_values(|c: char| lower_char(c))
}

/// The text with its ASCII capitals made small.
pub fn lower(s: &str) -> (r: String)
    ensures
        r@ == lower_spec(s@),
{
    let mut r: String = String::new();
    for c in it: s.chars()
        invariant
            it.seq() == s@,
            r@ == lower_spec(s@.take(it.index() as int)),
    {
        r.push(char_lower(c));
        assert(lower_spec(s@.take(it.index() + 1)) =~= lower_spec(s@.take(it.index() as int)).push(
            lower_char(c),
        ));
    }
    assert(s@.take(s@.len() as int) =~= s@);
    r
}

pub open spec fn upper_spec(s: Seq<char>) -> Seq<char> {
    s.map_values(|c: char| upper_char(c))
}

/// The text with its small ASCII letters made capital.
pub fn upper(s: &str) -> (r: String)
    ensures
        r@ == upper_spec(s@),
{
    let mut r: String = String::new();
    for c in it: s.chars()
        invariant
            it.seq() == s@,
            r@ == upper_spec(s@.take(it.index() as int)),
    {
        r.push(char_upper(c));
        assert(upper_spec(s@.take(it.index() + 1)) =~= upper_spec(s@.take(it.index() as int)).push(
            upper_char(c),
        ));
    }
    assert(s@.take(s@.len() as int) =~= s@);
    r
}

/// Whether two texts differ at most in the case of ASCII letters.
pub fn same_ignoring_case(a: &str, b: &str) -> (r: bool)
    ensures
        r == (lower_spec(a@) == lower_spec(b@)),
{
    let x: String = lower(a);
    let y: String = lower(b);
    same(x.as_str(), y.as_str())
}

// ---- trimming ----------------------------------------------------------------

/// The text without the white space it starts with.
pub open spec fn trim_start_spec(s: Seq<char>) -> Seq<char>
    decreases s.len(),
{
    if s.len() > 0 && is_space(s[0]) {
        trim_start_spec(s.drop_first())
    } else {
        s
    }
}

/// The text without the white space it ends with.
pub open spec fn trim_end_spec(s: Seq<char>) -> Seq<char>
    decreases s.len(),
{
    if s.len() > 0 && is_space(s.last()) {
        trim_end_spec(s.drop_last())
    } else {
        s
    }
}

/// The text without the white space around it.
pub open spec fn trim_spec(s: Seq<char>) -> Seq<char> {
    trim_end_spec(trim_start_spec(s))
}

pub proof fn lemma_trim_start(s: Seq<char>, i: int)
    requires
        0 <= i <= s.len(),
        forall|k: int| 0 <= k < i ==> is_space(s[k]),
    ensures
        trim_start_spec(s) == trim_start_spec(s.skip(i)),
    decreases i,
{
    if i > 0 {
        let t = s.drop_first();
        assert forall|k: int| 0 <= k < i - 1 implies is_space(t[k]) by {
            assert(t[k] == s[k + 1]);
        }
        lemma_trim_start(t, i - 1);
        assert(t.skip(i - 1) =~= s.skip(i));
    } else {
        assert(s.skip(0) =~= s);
    }
}

pub proof fn lemma_trim_end(s: Seq<char>, i: int)
    requires
        0 <= i <= s.len(),
        forall|k: int| i <= k < s.len() ==> is_space(s[k]),
    ensures
        trim_end_spec(s) == trim_end_spec(s.take(i)),
    decreases s.len() - i,
{
    if i < s.len() {
        let t = s.drop_last();
        lemma_trim_end(t, i);
        assert(t.take(i) =~= s.take(i));
    } else {
        assert(s.take(i) =~= s);
    }
}

pub fn trim(s: &str) -> (r: String)
    ensures
        r@ == trim_spec(s@),
{
    let chars: Vec<char> = to_chars(s);
    let n: usize = chars.len();
    let mut from: usize = 0;
    while from < n && char_is_space(chars[from])
        invariant
            from <= n == chars@.len(),
            forall|k: int| 0 <= k < from ==> is_space(chars@[k]),
        decreases n - from,
    {
        from = from + 1;
    }
    let mut to: usize = n;
    while to > from && char_is_space(chars[to - 1])
        invariant
            from <= to <= n == chars@.len(),
            forall|k: int| to <= k < n ==> is_space(chars@[k]),
        decreases to,
    {
        to = to - 1;
    }
    proof {
        lemma_trim_start(s@, from as int);
        let t = s@.skip(from as int);
        assert(from < n ==> t[0] == chars@[from as int]);
        assert(trim_start_spec(s@) == t);
        assert forall|k: int| to - from <= k < t.len() implies is_space(t[k]) by {
            assert(t[k] == chars@[k + from]);
        }
        lemma_trim_end(t, to - from);
        let u = t.take(to - from);
        assert(u =~= chars@.subrange(from as int, to as int));
        assert(to > from ==> u.last() == chars@[to - 1]);
    }
    from_chars(&chars, from, to)
}

/// The text without the copies of `c` that it ends with.
pub open spec fn trim_end_char_spec(s: Seq<char>, c: char) -> Seq<char>
    decreases s.len(),
{
    if s.len() > 0 && s.last() == c {
        trim_end_char_spec(s.drop_last(), c)
    } else {
        s
    }
}

pub proof fn lemma_trim_end_char(s: Seq<char>, c: char, i: int)
    requires
        0 <= i <= s.len(),
        forall|k: int| i <= k < s.len() ==> s[k] == c,
    ensures
        trim_end_char_spec(s, c) == trim_end_char_spec(s.take(i), c),
    decreases s.len() - i,
{
    if i < s.len() {
        let t = s.drop_last();
        lemma_trim_end_char(t, c, i);
        assert(t.take(i) =~= s.take(i));
    } else {
        assert(s.take(i) =~= s);
    }
}

pub fn trim_end_char(s: &str, c: char) -> (r: String)
    ensures
        r@ == trim_end_char_spec(s@, c),
{
    let chars: Vec<char> = to_chars(s);
    let n: usize = chars.len();
    let mut to: usize = n;
    while to > 0 && chars[to - 1] == c
        invariant
            to <= n == chars@.len(),
            forall|k: int| to <= k < n ==> chars@[k] == c,
        decreases to,
    {
        to = to - 1;
    }
    proof {
        lemma_trim_end_char(s@, c, to as int);
        let u = s@.take(to as int);
        assert(u =~= chars@.subrange(0, to as int));
        assert(to > 0 ==> u.last() == chars@[to - 1]);
    }
    from_chars(&chars, 0, to)
}

// ---- searching ---------------------------------------------------------------

/// Where `c` first occurs in the text, if it does.
pub open spec fn find_spec(s: Seq<char>, c: char) -> Option<int>
    decreases s.len(),
{
    if s.len() == 0 {
        None
    } else if s[0] == c {
        Some(0int)
    } else {
        match find_spec(s.drop_first(), c) {
            Some(i) => Some(i + 1),
            None => None,
        }
    }
}

/// The first occurrence is the one with none before it.
pub proof fn lemma_find(s: Seq<char>, c: char, i: int)
    requires
        0 <= i <= s.len(),
        forall|k: int| 0 <= k < i ==> s[k] != c,
        i < s.len() ==> s[i] == c,
    ensures
        find_spec(s, c) == (if i < s.len() {
            Some(i)
        } else {
            None::<int>
        }),
    decreases s.len(),
{
    if s.len() > 0 && i > 0 {
        let t = s.drop_first();
        assert forall|k: int| 0 <= k < i - 1 implies t[k] != c by {
            assert(t[k] == s[k + 1]);
        }
        lemma_find(t, c, i - 1);
    }
}

pub fn find(chars: &Vec<char>, c: char) -> (r: Option<usize>)
    ensures
        r is Some == find_spec(chars@, c) is Some,
        r is Some ==> r->0 == find_spec(chars@, c)->0 && r->0 < chars.len() && chars@[r->0 as int]
            == c,
{
    let mut i: usize = 0;
    while i < chars.len() && chars[i] != c
        invariant
            i <= chars@.len(),
            forall|k: int| 0 <= k < i ==> chars@[k] != c,
        decreases chars@.len() - i,
    {
        i = i + 1;
    }
    proof {
        lemma_find(chars@, c, i as int);
    }
    if i < chars.len() {
        Some(i)
    } else {
        None
    }
}

/// Where `c` last occurs in the text, if it does.
pub open spec fn rfind_spec(s: Seq<char>, c: char) -> Option<int>
    decreases s.len(),
{
    if s.len() == 0 {
        None
    } else if s.last() == c {
        Some(s.len() - 1)
    } else {
        rfind_spec(s.drop_last(), c)
    }
}

pub proof fn lemma_rfind(s: Seq<char>, c: char, i: int)
    requires
        0 <= i <= s.len(),
        forall|k: int| i <= k < s.len() ==> s[k] != c,
        i > 0 ==> s[i - 1] == c,
    ensures
        rfind_spec(s, c) == (if i > 0 {
            Some(i - 1)
        } else {
            None::<int>
        }),
    decreases s.len(),
{
    if s.len() > 0 && i < s.len() {
        lemma_rfind(s.drop_last(), c, i);
    }
}

pub fn rfind(chars: &Vec<char>, c: char) -> (r: Option<usize>)
    ensures
        r is Some == rfind_spec(chars@, c) is Some,
        r is Some ==> r->0 == rfind_spec(chars@, c)->0 && r->0 < chars.len(),
{
    let mut i: usize = chars.len();
    while i > 0 && chars[i - 1] != c
        invariant
            i <= chars@.len(),
            forall|k: int| i <= k < chars@.len() ==> chars@[k] != c,
        decreases i,
    {
        i = i - 1;
    }
    proof {
        lemma_rfind(chars@, c, i as int);
    }
    if i > 0 {
        Some(i - 1)
    } else {
        None
    }
}

/// Where white space first occurs in the text, if it does.
pub open spec fn find_space_spec(s: Seq<char>) -> Option<int>
    decreases s.len(),
{
    if s.len() == 0 {
        None
    } else if is_space(s[0]) {
        Some(0int)
    } else {
        match find_space_spec(s.drop_first()) {
            Some(i) => Some(i + 1),
            None => None,
        }
    }
}

pub proof fn lemma_find_space(s: Seq<char>, i: int)
    requires
        0 <= i <= s.len(),
        forall|k: int| 0 <= k < i ==> !is_space(s[k]),
        i < s.len() ==> is_space(s[i]),
    ensures
        find_space_spec(s) == (if i < s.len() {
            Some(i)
        } else {
            None::<int>
        }),
    decreases s.len(),
{
    if s.len() > 0 && i > 0 {
        let t = s.drop_first();
        assert forall|k: int| 0 <= k < i - 1 implies !is_space(t[k]) by {
            assert(t[k] == s[k + 1]);
        }
        lemma_find_space(t, i - 1);
    }
}

pub fn find_space(chars: &Vec<char>) -> (r: Option<usize>)
    ensures
        r is Some == find_space_spec(chars@) is Some,
        r is Some ==> r->0 == find_space_spec(chars@)->0 && r->0 < chars.len(),
{
    let mut i: usize = 0;
    while i < chars.len() && !char_is_space(chars[i])
        invariant
            i <= chars@.len(),
            forall|k: int| 0 <= k < i ==> !is_space(chars@[k]),
        decreases chars@.len() - i,
    {
        i = i + 1;
    }
    proof {
        lemma_find_space(chars@, i as int);
    }
    if i < chars.len() {
        Some(i)
    } else {
        None
    }
}

/// The first word of a text: what stands between its leading white space and
/// the next.
pub open spec fn first_word_spec(s: Seq<char>) -> Seq<char> {
    let t = trim_start_spec(s);
    match find_space_spec(t) {
        Some(i) => t.take(i),
        None => t,
    }
}

pub fn first_word(s: &str) -> (r: String)
    ensures
        r@ == first_word_spec(s@),
{
    let chars: Vec<char> = to_chars(s);
    let n: usize = chars.len();
    let mut from: usize = 0;
    while from < n && char_is_space(chars[from])
        invariant
            from <= n == chars@.len(),
            forall|k: int| 0 <= k < from ==> is_space(chars@[k]),
        decreases n - from,
    {
        from = from + 1;
    }
    let mut to: usize = from;
    while to < n && !char_is_space(chars[to])
        invariant
            from <= to <= n == chars@.len(),
            forall|k: int| from <= k < to ==> !is_space(chars@[k]),
        decreases n - to,
    {
        to = to + 1;
    }
    proof {
        lemma_trim_start(s@, from as int);
        let t = s@.skip(from as int);
        assert(from < n ==> t[0] == chars@[from as int]);
        assert(trim_start_spec(s@) == t);
        assert forall|k: int| 0 <= k < to - from implies !is_space(t[k]) by {
            assert(t[k] == chars@[k + from]);
        }
        assert(to < n ==> t[to - from] == chars@[to as int]);
        lemma_find_space(t, to - from);
        assert(chars@.subrange(from as int, to as int) =~= t.take(to - from));
        assert(t.take(t.len() as int) =~= t);
    }
    from_chars(&chars, from, to)
}

/// The words among the first `n` characters that have ended, and the one that has not.
pub open spec fn gather_words(s: Seq<char>, n: nat) -> (Seq<Seq<char>>, Seq<char>)
    decreases n,
{
    if n == 0 {
        (Seq::empty(), Seq::empty())
    } else {
        let (done, current) = gather_words(s, (n - 1) as nat);
        if !is_space(s[n - 1]) {
            (done, current.push(s[n - 1]))
        } else if current.len() > 0 {
            (done.push(current), Seq::empty())
        } else {
            (done, current)
        }
    }
}

/// The words of a text: what stands between white space.
pub open spec fn words_spec(s: Seq<char>) -> Seq<Seq<char>> {
    let (done, current) = gather_words(s, s.len());
    if current.len() > 0 {
        done.push(current)
    } else {
        done
    }
}

pub fn words(s: &str) -> (r: Vec<String>)
    ensures
        views(r@) == words_spec(s@),
{
    let chars: Vec<char> = to_chars(s);
    let mut done: Vec<String> = Vec::new();
    let mut current: String = String::new();
    let mut i: usize = 0;
    assert(views(done@) =~= Seq::<Seq<char>>::empty());
    while i < chars.len()
        invariant
            i <= chars@.len(),
            chars@ == s@,
            (views(done@), current@) == gather_words(s@, i as nat),
        decreases chars@.len() - i,
    {
        if !char_is_space(chars[i]) {
            current.push(chars[i]);
        } else if !current.as_str().is_empty() {
            let ghost before = views(done@);
            let ghost word = current@;
            done.push(current);
            current = String::new();
            assert(views(done@) =~= before.push(word));
        }
        i = i + 1;
    }
    if !current.as_str().is_empty() {
        let ghost before = views(done@);
        let ghost word = current@;
        done.push(current);
        assert(views(done@) =~= before.push(word));
    }
    done
}

/// Whether `needle` stands in `s` at position `i`.
pub open spec fn occurs_at(s: Seq<char>, needle: Seq<char>, i: int) -> bool {
    0 <= i && i + needle.len() <= s.len() && s.subrange(i, i + needle.len()) == needle
}

/// Whether `needle` stands anywhere in `s`.
pub open spec fn contains_spec(s: Seq<char>, needle: Seq<char>) -> bool {
    exists|i: int| occurs_at(s, needle, i)
}

fn occurs(chars: &Vec<char>, needle: &Vec<char>, i: usize) -> (r: bool)
    requires
        i <= chars@.len(),
    ensures
        r == occurs_at(chars@, needle@, i as int),
{
    if needle.len() > chars.len() - i {
        return false;
    }
    let mut k: usize = 0;
    while k < needle.len()
        invariant
            k <= needle@.len(),
            i + needle@.len() <= chars.len(),
            forall|j: int| 0 <= j < k ==> chars@[i + j] == needle@[j],
        decreases needle@.len() - k,
    {
        if chars[i + k] != needle[k] {
            assert(chars@.subrange(i as int, i + needle@.len())[k as int] == chars@[i + k]);
            return false;
        }
        k = k + 1;
    }
    assert(chars@.subrange(i as int, i + needle@.len()) =~= needle@);
    true
}

pub fn contains(s: &str, needle: &str) -> (r: bool)
    ensures
        r == contains_spec(s@, needle@),
{
    let chars: Vec<char> = to_chars(s);
    let n: Vec<char> = to_chars(needle);
    let mut i: usize = 0;
    while i < chars.len()
        invariant
            i <= chars@.len(),
            chars@ == s@,
            n@ == needle@,
            forall|k: int| 0 <= k < i ==> !occurs_at(s@, needle@, k),
        decreases chars@.len() - i,
    {
        if occurs(&chars, &n, i) {
            return true;
        }
        i = i + 1;
    }
    let r: bool = occurs(&chars, &n, i);
    proof {
        if !r {
            assert forall|k: int| !occurs_at(s@, needle@, k) by {}
        }
    }
    r
}

pub fn starts_with(s: &str, prefix: &str) -> (r: bool)
    ensures
        r == prefix@.is_prefix_of(s@),
{
    let chars: Vec<char> = to_chars(s);
    let p: Vec<char> = to_chars(prefix);
    let r: bool = occurs(&chars, &p, 0);
    assert(r ==> s@.subrange(0, p@.len() as int) =~= prefix@);
    r
}

pub fn ends_with(s: &str, suffix: &str) -> (r: bool)
    ensures
        r == suffix@.is_suffix_of(s@),
{
    let chars: Vec<char> = to_chars(s);
    let p: Vec<char> = to_chars(suffix);
    if p.len() > chars.len() {
        return false;
    }
    occurs(&chars, &p, chars.len() - p.len())
}

/// The text after `prefix`, if it starts with it.
pub fn strip_prefix(s: &str, prefix: &str) -> (r: Option<String>)
    ensures
        r is Some == prefix@.is_prefix_of(s@),
        r is Some ==> r->0@ == s@.skip(prefix@.len() as int),
{
    if starts_with(s, prefix) {
        let chars: Vec<char> = to_chars(s);
        let from: usize = prefix.unicode_len();
        let rest: String = from_chars(&chars, from, chars.len());
        assert(rest@ =~= s@.skip(prefix@.len() as int));
        Some(rest)
    } else {
        None
    }
}

// ---- splitting ---------------------------------------------------------------

/// The pieces of a text between the occurrences of `c`. A text without `c` is
/// one piece, and the empty text is one empty piece.
pub open spec fn split_spec(s: Seq<char>, c: char) -> Seq<Seq<char>>
    decreases s.len(),
{
    if s.len() == 0 {
        seq![Seq::<char>::empty()]
    } else {
        let before = split_spec(s.drop_last(), c);
        if s.last() == c {
            before.push(Seq::empty())
        } else {
            before.drop_last().push(before.last().push(s.last()))
        }
    }
}

pub fn split(s: &str, c: char) -> (r: Vec<String>)
    ensures
        views(r@) == split_spec(s@, c),
        r@.len() > 0,
{
    let mut done: Vec<String> = Vec::new();
    let mut current: String = String::new();
    assert(views(done@).push(current@) =~= split_spec(s@.take(0), c));
    for x in it: s.chars()
        invariant
            it.seq() == s@,
            views(done@).push(current@) == split_spec(s@.take(it.index() as int), c),
    {
        let ghost before = s@.take(it.index() as int);
        let ghost after = s@.take(it.index() + 1);
        let ghost pieces = views(done@).push(current@);
        assert(after.drop_last() =~= before);
        assert(after.last() == x);
        assert(pieces.drop_last() =~= views(done@));
        if x == c {
            done.push(current);
            current = String::new();
            assert(views(done@) =~= pieces);
        } else {
            current.push(x);
        }
    }
    assert(s@.take(s@.len() as int) =~= s@);
    let ghost pieces = views(done@).push(current@);
    done.push(current);
    assert(views(done@) =~= pieces);
    done
}

/// A text cut at the first `c`, if it holds one.
pub open spec fn split_once_spec(s: Seq<char>, c: char) -> Option<(Seq<char>, Seq<char>)> {
    match find_spec(s, c) {
        Some(i) => Some((s.take(i), s.skip(i + 1))),
        None => None,
    }
}

pub fn split_once(s: &str, c: char) -> (r: Option<(String, String)>)
    ensures
        r is Some == split_once_spec(s@, c) is Some,
        r is Some ==> (r->0).0@ == (split_once_spec(s@, c)->0).0 && (r->0).1@ == (split_once_spec(
            s@,
            c,
        )->0).1,
{
    let chars: Vec<char> = to_chars(s);
    match find(&chars, c) {
        Some(i) => {
            let left: String = from_chars(&chars, 0, i);
            let right: String = from_chars(&chars, i + 1, chars.len());
            assert(left@ =~= s@.take(i as int));
            assert(right@ =~= s@.skip(i + 1));
            Some((left, right))
        },
        None => None,
    }
}

/// A line without the carriage return it may end with.
pub open spec fn strip_return(line: Seq<char>) -> Seq<char> {
    if line.len() > 0 && line.last() == '\r' {
        line.drop_last()
    } else {
        line
    }
}

/// The lines of a text: the pieces that newlines end, without their line
/// endings, and what follows the last newline unless it is empty.
pub open spec fn lines_spec(s: Seq<char>) -> Seq<Seq<char>> {
    let pieces = split_spec(s, '\n');
    let ended = pieces.drop_last().map_values(|line: Seq<char>| strip_return(line));
    if pieces.last().len() == 0 {
        ended
    } else {
        ended.push(pieces.last())
    }
}

pub fn lines(s: &str) -> (r: Vec<String>)
    ensures
        views(r@) == lines_spec(s@),
{
    let pieces: Vec<String> = split(s, '\n');
    let ghost all = split_spec(s@, '\n');
    let last: usize = pieces.len() - 1;
    let mut r: Vec<String> = Vec::new();
    let mut i: usize = 0;
    while i < last
        invariant
            i <= last < pieces@.len(),
            all == views(pieces@),
            views(r@) == all.take(i as int).map_values(|line: Seq<char>| strip_return(line)),
        decreases last - i,
    {
        let chars: Vec<char> = to_chars(pieces[i].as_str());
        let n: usize = chars.len();
        let ghost line = all[i as int];
        assert(chars@ == line);
        let ghost old_views = views(r@);
        let next: String = if n > 0 && chars[n - 1] == '\r' {
            from_chars(&chars, 0, n - 1)
        } else {
            from_chars(&chars, 0, n)
        };
        assert(next@ =~= strip_return(line));
        r.push(next);
        assert(views(r@) =~= old_views.push(strip_return(line)));
        assert(all.take(i + 1).map_values(|line: Seq<char>| strip_return(line)) =~= all.take(
            i as int,
        ).map_values(|line: Seq<char>| strip_return(line)).push(strip_return(line)));
        i = i + 1;
    }
    assert(all.take(last as int) =~= all.drop_last());
    assert(all.last() == pieces@[last as int]@);
    let ghost ended = views(r@);
    if !pieces[last].as_str().is_empty() {
        r.push(pieces[last].clone());
        assert(views(r@) =~= ended.push(all.last()));
    }
    r
}

// ---- order ---------------------------------------------------------------------

/// Whether text `a` comes before text `b` in the order of their code points.
pub open spec fn lex_less(a: Seq<char>, b: Seq<char>) -> bool
    decreases a.len(),
{
    if b.len() == 0 {
        false
    } else if a.len() == 0 {
        true
    } else if a[0] != b[0] {
        a[0] < b[0]
    } else {
        lex_less(a.drop_first(), b.drop_first())
    }
}

proof fn lemma_lex_skip(a: Seq<char>, b: Seq<char>, i: int)
    requires
        0 <= i <= a.len(),
        i <= b.len(),
        forall|k: int| 0 <= k < i ==> a[k] == b[k],
    ensures
        lex_less(a, b) == lex_less(a.skip(i), b.skip(i)),
    decreases i,
{
    if i > 0 {
        let x = a.drop_first();
        let y = b.drop_first();
        assert forall|k: int| 0 <= k < i - 1 implies x[k] == y[k] by {
            assert(x[k] == a[k + 1]);
            assert(y[k] == b[k + 1]);
        }
        lemma_lex_skip(x, y, i - 1);
        assert(x.skip(i - 1) =~= a.skip(i));
        assert(y.skip(i - 1) =~= b.skip(i));
    } else {
        assert(a.skip(0) =~= a);
        assert(b.skip(0) =~= b);
    }
}

pub fn comes_before(a: &str, b: &str) -> (r: bool)
    ensures
        r == lex_less(a@, b@),
{
    let x: Vec<char> = to_chars(a);
    let y: Vec<char> = to_chars(b);
    let mut i: usize = 0;
    while i < x.len() && i < y.len() && x[i] == y[i]
        invariant
            i <= x@.len(),
            i <= y@.len(),
            forall|k: int| 0 <= k < i ==> x@[k] == y@[k],
        decreases x@.len() - i,
    {
        i = i + 1;
    }
    proof {
        lemma_lex_skip(x@, y@, i as int);
        let u = x@.skip(i as int);
        let v = y@.skip(i as int);
        assert(i < x@.len() ==> u[0] == x@[i as int]);
        assert(i < y@.len() ==> v[0] == y@[i as int]);
    }
    if i >= y.len() {
        false
    } else if i >= x.len() {
        true
    } else {
        x[i] < y[i]
    }
}

/// No text comes before itself.
pub proof fn lemma_lex_irreflexive(a: Seq<char>)
    ensures
        !lex_less(a, a),
    decreases a.len(),
{
    if a.len() > 0 {
        lemma_lex_irreflexive(a.drop_first());
    }
}

/// Of two different texts one comes before the other.
pub proof fn lemma_lex_total(a: Seq<char>, b: Seq<char>)
    ensures
        a == b || lex_less(a, b) || lex_less(b, a),
    decreases a.len(),
{
    if a.len() > 0 && b.len() > 0 && a[0] == b[0] {
        lemma_lex_total(a.drop_first(), b.drop_first());
        if a.drop_first() == b.drop_first() {
            assert(a =~= seq![a[0]] + a.drop_first());
            assert(b =~= seq![b[0]] + b.drop_first());
        }
    } else if a.len() == 0 && b.len() == 0 {
        assert(a =~= b);
    }
}

/// The order of texts is transitive.
pub proof fn lemma_lex_transitive(a: Seq<char>, b: Seq<char>, c: Seq<char>)
    requires
        lex_less(a, b),
        lex_less(b, c),
    ensures
        lex_less(a, c),
    decreases a.len(),
{
    if a.len() > 0 && a[0] == b[0] && b[0] == c[0] {
        lemma_lex_transitive(a.drop_first(), b.drop_first(), c.drop_first());
    }
}

/// What stands in a part of a text stands in the text.
pub proof fn lemma_contains_in_part(a: Seq<char>, b: Seq<char>, c: Seq<char>, s: Seq<char>)
    requires
        contains_spec(b, s),
    ensures
        contains_spec(a + b + c, s),
{
    let i = choose|i: int| occurs_at(b, s, i);
    let k = a.len() + i;
    assert((a + b + c).subrange(k, k + s.len()) =~= b.subrange(i, i + s.len()));
    assert(occurs_at(a + b + c, s, k));
}

/// A joined text has every part in it.
pub proof fn law_joined_text_has_every_part(parts: Seq<Seq<char>>, sep: Seq<char>, i: int)
    requires
        0 <= i < parts.len(),
    ensures
        contains_spec(join_spec(parts, sep), parts[i]),
    decreases parts.len(),
{
    let last = parts.last();
    let none = Seq::<char>::empty();
    if i == parts.len() - 1 {
        assert(last.subrange(0, last.len() as int) =~= last);
        assert(occurs_at(last, last, 0));
        if parts.len() > 1 {
            let before = join_spec(parts.drop_last(), sep) + sep;
            lemma_contains_in_part(before, last, none, last);
            assert(before + last + none =~= before + last);
        }
    } else {
        let before = join_spec(parts.drop_last(), sep);
        law_joined_text_has_every_part(parts.drop_last(), sep, i);
        lemma_contains_in_part(none, before, sep + last, parts[i]);
        assert(none + before + (sep + last) =~= before + sep + last);
    }
}

// ---- how texts are taken apart -----------------------------------------------------------------------------------

proof fn lemma_split_some(s: Seq<char>, c: char)
    ensures
        split_spec(s, c).len() > 0,
    decreases s.len(),
{
    if s.len() > 0 {
        lemma_split_some(s.drop_last(), c);
    }
}

proof fn lemma_join_push(parts: Seq<Seq<char>>, sep: Seq<char>, more: Seq<char>)
    requires
        parts.len() > 0,
    ensures
        join_spec(parts.push(more), sep) == join_spec(parts, sep) + sep + more,
{
    assert(parts.push(more).drop_last() =~= parts);
}

proof fn lemma_join_last(parts: Seq<Seq<char>>, sep: Seq<char>, more: char)
    requires
        parts.len() > 0,
    ensures
        join_spec(parts.drop_last().push(parts.last().push(more)), sep) == join_spec(parts, sep).push(
            more,
        ),
{
    let longer = parts.drop_last().push(parts.last().push(more));
    assert(longer.drop_last() =~= parts.drop_last());
    if parts.len() > 1 {
        let before = join_spec(parts.drop_last(), sep) + sep;
        assert(before + parts.last().push(more) =~= (before + parts.last()).push(more));
    }
}

/// The pieces of a text have no separator in them, and joined again by it they are the
/// text.
pub proof fn law_joining_undoes_splitting(s: Seq<char>, c: char)
    ensures
        join_spec(split_spec(s, c), seq![c]) == s,
        forall|i: int, k: int|
            0 <= i < split_spec(s, c).len() && 0 <= k < split_spec(s, c)[i].len()
                ==> #[trigger] split_spec(s, c)[i][k] != c,
    decreases s.len(),
{
    let pieces = split_spec(s, c);
    if s.len() > 0 {
        let init = s.drop_last();
        let before = split_spec(init, c);
        law_joining_undoes_splitting(init, c);
        lemma_split_some(init, c);
        if s.last() == c {
            lemma_join_push(before, seq![c], Seq::empty());
            assert(init + seq![c] + Seq::<char>::empty() =~= s);
            assert forall|i: int, k: int|
                0 <= i < pieces.len() && 0 <= k < pieces[i].len() implies #[trigger] pieces[i][k]
                != c by {
                if i < before.len() {
                    assert(before[i][k] != c);
                }
            }
        } else {
            lemma_join_last(before, seq![c], s.last());
            assert(init.push(s.last()) =~= s);
            assert forall|i: int, k: int|
                0 <= i < pieces.len() && 0 <= k < pieces[i].len() implies #[trigger] pieces[i][k]
                != c by {
                if i < before.len() - 1 {
                    assert(before[i][k] != c);
                } else if k < before[i].len() {
                    assert(before[i][k] != c);
                }
            }
        }
    } else {
        assert(join_spec(pieces, seq![c]) =~= s);
    }
}

proof fn lemma_no_split(s: Seq<char>, c: char)
    requires
        forall|k: int| 0 <= k < s.len() ==> #[trigger] s[k] != c,
    ensures
        split_spec(s, c) == seq![s],
    decreases s.len(),
{
    if s.len() > 0 {
        let init = s.drop_last();
        assert forall|k: int| 0 <= k < init.len() implies #[trigger] init[k] != c by {
            assert(s[k] != c);
        }
        lemma_no_split(init, c);
        assert(s[s.len() - 1] != c);
        assert(init.push(s.last()) =~= s);
        assert(split_spec(s, c) =~= seq![s]);
    } else {
        assert(s =~= Seq::<char>::empty());
    }
}

/// A text is cut at the first separator, and what is behind it is cut by itself.
pub proof fn law_splitting_goes_on_behind_the_separator(a: Seq<char>, c: char, b: Seq<char>)
    requires
        forall|k: int| 0 <= k < a.len() ==> #[trigger] a[k] != c,
    ensures
        split_spec(a, c) == seq![a],
        split_spec(a.push(c) + b, c) == seq![a] + split_spec(b, c),
    decreases b.len(),
{
    lemma_no_split(a, c);
    let s = a.push(c) + b;
    if b.len() > 0 {
        let init = b.drop_last();
        law_splitting_goes_on_behind_the_separator(a, c, init);
        lemma_split_some(init, c);
        assert(s.drop_last() =~= a.push(c) + init);
        assert(s.last() == b.last());
        assert(split_spec(s, c) =~= seq![a] + split_spec(b, c));
    } else {
        assert(s =~= a.push(c));
        assert(s.drop_last() =~= a);
        assert(split_spec(s, c) =~= seq![a] + split_spec(b, c));
    }
}

/// A line ends at a line feed, without a carriage return before it; what is behind it are
/// the further lines. Of an empty text there is no line.
pub proof fn law_lines_end_at_line_feeds(a: Seq<char>, b: Seq<char>)
    requires
        forall|k: int| 0 <= k < a.len() ==> #[trigger] a[k] != '\n',
    ensures
        a.len() > 0 ==> lines_spec(a) == seq![a],
        lines_spec(Seq::empty()).len() == 0,
        (a.len() == 0 || a.last() != '\r') ==> lines_spec(a.push('\n') + b) == seq![a] + lines_spec(b),
        lines_spec(a.push('\r').push('\n') + b) == seq![a] + lines_spec(b),
{
    law_splitting_goes_on_behind_the_separator(a, '\n', b);
    lemma_no_split(Seq::<char>::empty(), '\n');
    let r = a.push('\r');
    assert forall|k: int| 0 <= k < r.len() implies #[trigger] r[k] != '\n' by {
        if k < a.len() {
            assert(a[k] != '\n');
        }
    }
    law_splitting_goes_on_behind_the_separator(r, '\n', b);
    lemma_split_some(b, '\n');
    let f = |line: Seq<char>| strip_return(line);
    let pieces = split_spec(b, '\n');
    assert((seq![a] + pieces).drop_last() =~= seq![a] + pieces.drop_last());
    assert((seq![r] + pieces).drop_last() =~= seq![r] + pieces.drop_last());
    assert((seq![a] + pieces.drop_last()).map_values(f) =~= seq![f(a)] + pieces.drop_last().map_values(
        f,
    ));
    assert((seq![r] + pieces.drop_last()).map_values(f) =~= seq![f(r)] + pieces.drop_last().map_values(
        f,
    ));
    assert(r.drop_last() =~= a);
    assert((seq![a] + pieces).last() == pieces.last());
    assert((seq![r] + pieces).last() == pieces.last());
    assert(lines_spec(r.push('\n') + b) =~= seq![a] + lines_spec(b));
    if a.len() == 0 || a.last() != '\r' {
        assert(f(a) == a);
        assert(lines_spec(a.push('\n') + b) =~= seq![a] + lines_spec(b));
    }
    if a.len() > 0 {
        assert(lines_spec(a) =~= seq![a]);
    }
}

/// A trimmed text is the text without the spaces at both ends.
pub proof fn law_trimming_takes_off_spaces(a: Seq<char>, s: Seq<char>, b: Seq<char>)
    requires
        forall|k: int| 0 <= k < a.len() ==> is_space(#[trigger] a[k]),
        forall|k: int| 0 <= k < b.len() ==> is_space(#[trigger] b[k]),
        s.len() > 0 ==> !is_space(s[0]) && !is_space(s.last()),
    ensures
        trim_spec(a + s + b) == s,
{
    let all = a + s + b;
    if s.len() > 0 {
        lemma_spaces_first(a, s + b);
        assert(a + (s + b) =~= all);
        lemma_spaces_last(s, b);
    } else {
        lemma_spaces_first(a + b, s);
        assert((a + b) + s =~= all);
        assert(s =~= Seq::<char>::empty());
        assert(trim_spec(all) =~= s);
    }
}

proof fn lemma_spaces_first(a: Seq<char>, s: Seq<char>)
    requires
        forall|k: int| 0 <= k < a.len() ==> is_space(#[trigger] a[k]),
        s.len() > 0 ==> !is_space(s[0]),
    ensures
        trim_start_spec(a + s) == s,
    decreases a.len(),
{
    if a.len() > 0 {
        assert(is_space(a[0]));
        assert((a + s).drop_first() =~= a.drop_first() + s);
        assert forall|k: int| 0 <= k < a.drop_first().len() implies is_space(
            #[trigger] a.drop_first()[k],
        ) by {
            assert(is_space(a[k + 1]));
        }
        lemma_spaces_first(a.drop_first(), s);
    } else {
        assert(a + s =~= s);
    }
}

proof fn lemma_spaces_last(s: Seq<char>, b: Seq<char>)
    requires
        forall|k: int| 0 <= k < b.len() ==> is_space(#[trigger] b[k]),
        s.len() > 0 ==> !is_space(s.last()),
    ensures
        trim_end_spec(s + b) == s,
    decreases b.len(),
{
    if b.len() > 0 {
        assert(is_space(b[b.len() - 1]));
        assert((s + b).drop_last() =~= s + b.drop_last());
        assert forall|k: int| 0 <= k < b.drop_last().len() implies is_space(
            #[trigger] b.drop_last()[k],
        ) by {
            assert(is_space(b[k]));
        }
        lemma_spaces_last(s, b.drop_last());
    } else {
        assert(s + b =~= s);
    }
}

proof fn lemma_gather(s: Seq<char>, t: Seq<char>, n: nat)
    requires
        n <= s.len(),
    ensures
        gather_words(s + t, n) == gather_words(s, n),
    decreases n,
{
    if n > 0 {
        lemma_gather(s, t, (n - 1) as nat);
        assert((s + t)[n - 1] == s[n - 1]);
    }
}

proof fn lemma_gather_on(a: Seq<char>, c: char, b: Seq<char>, n: nat)
    requires
        is_space(c),
        n <= b.len(),
    ensures
        gather_words(a.push(c) + b, a.len() + 1 + n) == (
            words_spec(a) + gather_words(b, n).0,
            gather_words(b, n).1,
        ),
    decreases n,
{
    let s = a.push(c) + b;
    let k = a.len() + 1 + n;
    if n > 0 {
        lemma_gather_on(a, c, b, (n - 1) as nat);
        assert(s[k - 1] == b[n - 1]);
        let (done, current) = gather_words(b, (n - 1) as nat);
        assert((words_spec(a) + done).push(current) =~= words_spec(a) + done.push(current));
    } else {
        assert(s =~= a + seq![c] + b);
        lemma_gather(a, seq![c] + b, a.len());
        assert(a + (seq![c] + b) =~= s);
        assert(s[k - 1] == c);
        assert(gather_words(s, k).0 =~= words_spec(a) + Seq::<Seq<char>>::empty());
        assert(gather_words(s, k).1 =~= Seq::<char>::empty());
    }
}

/// Words end at spaces: the words of two texts with a space between them are those of the
/// first and then those of the second.
pub proof fn law_words_end_at_spaces(a: Seq<char>, c: char, b: Seq<char>)
    requires
        is_space(c),
    ensures
        words_spec(a.push(c) + b) == words_spec(a) + words_spec(b),
{
    lemma_gather_on(a, c, b, b.len());
    let (done, current) = gather_words(b, b.len());
    assert((words_spec(a) + done).push(current) =~= words_spec(a) + done.push(current));
    assert((a.push(c) + b).len() == a.len() + 1 + b.len());
}

/// A text without spaces is one word, and the empty text has none.
pub proof fn law_a_text_without_spaces_is_one_word(s: Seq<char>)
    requires
        forall|k: int| 0 <= k < s.len() ==> !is_space(#[trigger] s[k]),
    ensures
        words_spec(s) == (if s.len() > 0 {
            seq![s]
        } else {
            Seq::empty()
        }),
{
    lemma_gather_all(s, s.len());
    assert(s.take(s.len() as int) =~= s);
    assert(Seq::<Seq<char>>::empty().push(s) =~= seq![s]);
}

proof fn lemma_gather_all(s: Seq<char>, n: nat)
    requires
        n <= s.len(),
        forall|k: int| 0 <= k < s.len() ==> !is_space(#[trigger] s[k]),
    ensures
        gather_words(s, n) == (Seq::<Seq<char>>::empty(), s.take(n as int)),
    decreases n,
{
    if n > 0 {
        lemma_gather_all(s, (n - 1) as nat);
        assert(!is_space(s[n - 1]));
        assert(s.take(n - 1).push(s[n - 1]) =~= s.take(n as int));
    } else {
        assert(s.take(0) =~= Seq::<char>::empty());
    }
}

/// Small letters and capitals are made of each other, and nothing else changes.
pub proof fn law_case_is_changed_letter_by_letter(s: Seq<char>, i: int)
    requires
        0 <= i < s.len(),
    ensures
        lower_spec(s).len() == s.len(),
        upper_spec(s).len() == s.len(),
        'A' <= s[i] <= 'Z' ==> lower_spec(s)[i] as int == s[i] as int + 'a' as int - 'A' as int,
        !('A' <= s[i] <= 'Z') ==> lower_spec(s)[i] == s[i],
        'a' <= s[i] <= 'z' ==> upper_spec(s)[i] as int == s[i] as int + 'A' as int - 'a' as int,
        !('a' <= s[i] <= 'z') ==> upper_spec(s)[i] == s[i],
{
}

/// A padded text is the text and then spaces, or spaces and then the text, and as wide as
/// is asked for; a text that is wider already stays as it is.
pub proof fn law_padding_fills_up_with_spaces(s: Seq<char>, width: nat, k: int)
    ensures
        pad_right_spec(s, width).len() == (if s.len() > width {
            s.len()
        } else {
            width
        }),
        pad_left_spec(s, width).len() == pad_right_spec(s, width).len(),
        pad_right_spec(s, width).take(s.len() as int) == s,
        pad_left_spec(s, width).skip(pad_left_spec(s, width).len() - s.len()) == s,
        s.len() <= k < width ==> pad_right_spec(s, width)[k] == ' ',
        0 <= k < width - s.len() ==> pad_left_spec(s, width)[k] == ' ',
{
    let right = pad_right_spec(s, width);
    let left = pad_left_spec(s, width);
    assert(right.take(s.len() as int) =~= s);
    assert(left.skip(left.len() - s.len()) =~= s);
}

/// Texts are ordered by the first place where they differ; one that the other goes on from
/// comes first.
pub proof fn law_texts_are_ordered_where_they_differ(a: Seq<char>, b: Seq<char>, k: int)
    requires
        0 <= k <= a.len(),
        k <= b.len(),
        a.take(k) == b.take(k),
        k < a.len() && k < b.len() ==> a[k] != b[k],
        k < a.len() || k < b.len(),
    ensures
        k < a.len() && k < b.len() ==> lex_less(a, b) == (a[k] < b[k]),
        k == a.len() ==> lex_less(a, b),
        k == b.len() ==> !lex_less(a, b),
    decreases k,
{
    if k > 0 {
        assert(a[0] == a.take(k)[0] && b[0] == b.take(k)[0]);
        assert(a.drop_first().take(k - 1) =~= a.take(k).drop_first());
        assert(b.drop_first().take(k - 1) =~= b.take(k).drop_first());
        law_texts_are_ordered_where_they_differ(a.drop_first(), b.drop_first(), k - 1);
    }
}

/// The first word of a text is what stands before the first space, leading spaces aside.
pub proof fn law_the_first_word_ends_at_a_space(
    before: Seq<char>,
    word: Seq<char>,
    c: char,
    rest: Seq<char>,
)
    requires
        forall|k: int| 0 <= k < before.len() ==> is_space(#[trigger] before[k]),
        forall|k: int| 0 <= k < word.len() ==> !is_space(#[trigger] word[k]),
        word.len() > 0,
        is_space(c),
    ensures
        first_word_spec(before + (word.push(c) + rest)) == word,
        first_word_spec(before + word) == word,
{
    let s = word.push(c) + rest;
    assert(!is_space(word[0]));
    lemma_spaces_first(before, s);
    lemma_spaces_first(before, word);
    assert forall|k: int| 0 <= k < word.len() implies !is_space(s[k]) by {
        assert(s[k] == word[k]);
    }
    lemma_find_space(s, word.len() as int);
    lemma_find_space(word, word.len() as int);
    assert(s.take(word.len() as int) =~= word);
}

} // verus!
