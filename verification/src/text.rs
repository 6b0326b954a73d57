//! Character-level text helpers shared by the formatters and parsers.
use vstd::prelude::*;

verus! {

/// The characters of a string slice, in order.
pub fn chars_of(s: &str) -> (v: Vec<char>)
    ensures
        v@ == s@,
{
    let mut v: Vec<char> = Vec::new();
    for c in it: s.chars()
        invariant
            v@ == it.seq().take(it.index()),
            it.seq() == s@,
    {
        v.push(c);
    }
    v
}

/// `String::push`: appends one character at the end of the string.
#[verifier::external_body]
pub(crate) fn push_char(s: &mut String, c: char)
    ensures
        final(s)@ == old(s)@.push(c),
{
    s.push(c);
}

/// Appends every character of `t` to `s`.
pub fn push_str(s: &mut String, t: &str)
    ensures
        final(s)@ == old(s)@ + t@,
{
    let cs = chars_of(t);
    let ghost start = s@;
    let mut i: usize = 0;
    while i < cs.len()
        invariant
            i <= cs.len(),
            cs@ == t@,
            s@ == start + cs@.take(i as int),
        decreases cs.len() - i,
    {
        push_char(s, cs[i]);
        i = i + 1;
        proof {
            assert(cs@.take(i as int) == cs@.take(i - 1).push(cs@[i - 1]));
        }
    }
    proof {
        assert(cs@.take(cs.len() as int) == cs@);
    }
}

/// A new string holding the characters of `t`.
pub fn string_of(t: &str) -> (s: String)
    ensures
        s@ == t@,
{
    let mut s = String::new();
    push_str(&mut s, t);
    s
}

/// Strict lexicographic order on character sequences, comparing code points.
/// For strings this is the order of their UTF-8 bytes, which is how `String` compares.
pub open spec fn text_lt(a: Seq<char>, b: Seq<char>) -> bool
    decreases a.len(),
{
    if a.len() == 0 {
        b.len() > 0
    } else if b.len() == 0 {
        false
    } else if a[0] != b[0] {
        (a[0] as int) < (b[0] as int)
    } else {
        text_lt(a.drop_first(), b.drop_first())
    }
}

pub proof fn lemma_text_lt_irreflexive(a: Seq<char>)
    ensures
        !text_lt(a, a),
    decreases a.len(),
{
    if a.len() > 0 {
        lemma_text_lt_irreflexive(a.drop_first());
    }
}

pub proof fn lemma_text_lt_transitive(a: Seq<char>, b: Seq<char>, c: Seq<char>)
    requires
        text_lt(a, b),
        text_lt(b, c),
    ensures
        text_lt(a, c),
    decreases a.len(),
{
    if a.len() > 0 && b.len() > 0 && c.len() > 0 && a[0] == b[0] && b[0] == c[0] {
        lemma_text_lt_transitive(a.drop_first(), b.drop_first(), c.drop_first());
    }
}

pub proof fn lemma_text_lt_total(a: Seq<char>, b: Seq<char>)
    ensures
        a == b || text_lt(a, b) || text_lt(b, a),
    decreases a.len(),
{
    if a.len() > 0 && b.len() > 0 && a[0] == b[0] {
        lemma_text_lt_total(a.drop_first(), b.drop_first());
        if a.drop_first() == b.drop_first() {
            assert(a =~= seq![a[0]] + a.drop_first());
            assert(b =~= seq![b[0]] + b.drop_first());
        }
    } else if a.len() == 0 && b.len() == 0 {
        assert(a =~= b);
    }
}

pub proof fn lemma_text_lt_asymmetric(a: Seq<char>, b: Seq<char>)
    requires
        text_lt(a, b),
    ensures
        !text_lt(b, a),
        a != b,
{
    if text_lt(b, a) {
        lemma_text_lt_transitive(a, b, a);
        lemma_text_lt_irreflexive(a);
    }
    if a == b {
        lemma_text_lt_irreflexive(a);
    }
}

/// Outcome of comparing two texts.
#[derive(PartialEq, Eq, Structural, Debug, Clone, Copy)]
pub enum TextOrder {
    Less,
    Equal,
    Greater,
}

/// Compares two character sequences lexicographically.
pub fn compare_chars(a: &Vec<char>, b: &Vec<char>) -> (r: TextOrder)
    ensures
        r == TextOrder::Less <==> text_lt(a@, b@),
        r == TextOrder::Equal <==> a@ == b@,
        r == TextOrder::Greater <==> text_lt(b@, a@),
{
    let mut i: usize = 0;
    proof {
        assert(a@.skip(0) =~= a@);
        assert(b@.skip(0) =~= b@);
    }
    while i < a.len() && i < b.len() && a[i] == b[i]
        invariant
            i <= a.len(),
            i <= b.len(),
            a@.take(i as int) == b@.take(i as int),
            text_lt(a@, b@) == text_lt(a@.skip(i as int), b@.skip(i as int)),
            text_lt(b@, a@) == text_lt(b@.skip(i as int), a@.skip(i as int)),
        decreases a.len() - i,
    {
        proof {
            assert(a@.skip(i as int).drop_first() =~= a@.skip(i + 1));
            assert(b@.skip(i as int).drop_first() =~= b@.skip(i + 1));
            assert(a@.take(i + 1) =~= a@.take(i as int).push(a@[i as int]));
            assert(b@.take(i + 1) =~= b@.take(i as int).push(b@[i as int]));
        }
        i = i + 1;
    }
    proof {
        lemma_text_lt_irreflexive(a@);
    }
    if i == a.len() && i == b.len() {
        proof {
            assert(a@ =~= a@.take(i as int));
            assert(b@ =~= b@.take(i as int));
        }
        TextOrder::Equal
    } else if i == a.len() {
        proof {
            assert(a@.take(i as int) =~= a@);
            assert(b@.take(i as int) != b@);
        }
        TextOrder::Less
    } else if i == b.len() {
        proof {
            assert(b@.take(i as int) =~= b@);
            assert(a@.take(i as int) != a@);
        }
        TextOrder::Greater
    } else if a[i] < b[i] {
        proof {
            assert(a@.skip(i as int)[0] == a@[i as int]);
            assert(b@.skip(i as int)[0] == b@[i as int]);
            assert(a@[i as int] != b@[i as int]);
        }
        TextOrder::Less
    } else {
        proof {
            assert(a@.skip(i as int)[0] == a@[i as int]);
            assert(b@.skip(i as int)[0] == b@[i as int]);
            assert(a@[i as int] != b@[i as int]);
        }
        TextOrder::Greater
    }
}

/// Compares two strings in the order `String` has (lexicographic by code point).
pub fn compare_text(a: &str, b: &str) -> (r: TextOrder)
    ensures
        r == TextOrder::Less <==> text_lt(a@, b@),
        r == TextOrder::Equal <==> a@ == b@,
        r == TextOrder::Greater <==> text_lt(b@, a@),
{
    let ca = chars_of(a);
    let cb = chars_of(b);
    compare_chars(&ca, &cb)
}

/// The ASCII digit for `d` (which is below 10).
pub open spec fn digit(d: nat) -> char {
    ((48 + d) as u32) as char
}

/// The decimal numeral of `n`, without leading zeros.
pub open spec fn decimal(n: nat) -> Seq<char>
    decreases n,
{
    if n < 10 {
        seq![digit(n)]
    } else {
        decimal(n / 10).push(digit(n % 10))
    }
}

/// The ASCII digit character of a value below 10.
pub fn digit_char(d: u8) -> (c: char)
    requires
        d < 10,
    ensures
        c == digit(d as nat),
{
    if d == 0 { '0' }
    else if d == 1 { '1' }
    else if d == 2 { '2' }
    else if d == 3 { '3' }
    else if d == 4 { '4' }
    else if d == 5 { '5' }
    else if d == 6 { '6' }
    else if d == 7 { '7' }
    else if d == 8 { '8' }
    else { '9' }
}

/// Appends the decimal numeral of `n`.
pub fn push_decimal(s: &mut String, n: u64)
    ensures
        final(s)@ == old(s)@ + decimal(n as nat),
    decreases n,
{
    if n >= 10 {
        push_decimal(s, n / 10);
    }
    push_char(s, digit_char((n % 10) as u8));
    proof {
        if n < 10 {
            assert(decimal(n as nat) == seq![digit(n as nat)]);
            assert(n % 10 == n);
        }
    }
}

/// Unicode `White_Space`, the set `char::is_whitespace` tests.
pub open spec fn is_space(c: char) -> bool {
    let u = c as int;
    (0x9 <= u <= 0xD) || u == 0x20 || u == 0x85 || u == 0xA0 || u == 0x1680 || (0x2000 <= u
        <= 0x200A) || u == 0x2028 || u == 0x2029 || u == 0x202F || u == 0x205F || u == 0x3000
}

/// What separates the pieces of a text.
#[derive(PartialEq, Eq, Structural, Debug, Clone, Copy)]
pub enum Separator {
    /// One given character.
    Char(char),
    /// Any white-space character.
    Space,
}

pub open spec fn separates(sep: Separator, c: char) -> bool {
    match sep {
        Separator::Char(d) => c == d,
        Separator::Space => is_space(c),
    }
}

fn separates_exec(sep: Separator, c: char) -> (b: bool)
    ensures
        b == separates(sep, c),
{
    match sep {
        Separator::Char(d) => c == d,
        Separator::Space => {
            ('\u{9}' <= c && c <= '\u{D}') || c == ' ' || c == '\u{85}' || c == '\u{A0}' || c
                == '\u{1680}' || ('\u{2000}' <= c && c <= '\u{200A}') || c == '\u{2028}' || c
                == '\u{2029}' || c == '\u{202F}' || c == '\u{205F}' || c == '\u{3000}'
        },
    }
}

/// The pieces of `s` between separators, empty pieces included (as `str::split` gives them).
pub open spec fn split_spec(s: Seq<char>, sep: Separator) -> Seq<Seq<char>>
    decreases s.len(),
{
    if s.len() == 0 {
        seq![Seq::<char>::empty()]
    } else {
        let init = split_spec(s.drop_last(), sep);
        let c = s.last();
        if separates(sep, c) {
            init.push(Seq::<char>::empty())
        } else {
            init.update(init.len() - 1, init.last().push(c))
        }
    }
}

pub proof fn lemma_split_nonempty(s: Seq<char>, sep: Separator)
    ensures
        split_spec(s, sep).len() >= 1,
    decreases s.len(),
{
    if s.len() > 0 {
        lemma_split_nonempty(s.drop_last(), sep);
    }
}

/// Splits a character sequence at every separator.
pub fn split_chars(v: &Vec<char>, sep: Separator) -> (parts: Vec<Vec<char>>)
    ensures
        parts@.len() == split_spec(v@, sep).len(),
        parts@.len() >= 1,
        forall|i: int| 0 <= i < parts@.len() ==> #[trigger] parts@[i]@ == split_spec(v@, sep)[i],
{
    let mut parts: Vec<Vec<char>> = Vec::new();
    let mut cur: Vec<char> = Vec::new();
    let mut i: usize = 0;
    proof {
        assert(v@.take(0) =~= Seq::<char>::empty());
    }
    while i < v.len()
        invariant
            i <= v.len(),
            parts@.len() + 1 == split_spec(v@.take(i as int), sep).len(),
            forall|j: int| 0 <= j < parts@.len() ==> #[trigger] parts@[j]@ == split_spec(v@.take(i as int), sep)[j],
            cur@ == split_spec(v@.take(i as int), sep).last(),
        decreases v.len() - i,
    {
        let c = v[i];
        proof {
            assert(v@.take(i + 1).drop_last() =~= v@.take(i as int));
            assert(v@.take(i + 1).last() == c);
            lemma_split_nonempty(v@.take(i as int), sep);
        }
        if separates_exec(sep, c) {
            parts.push(cur);
            cur = Vec::new();
        } else {
            cur.push(c);
        }
        i = i + 1;
    }
    parts.push(cur);
    proof {
        assert(v@.take(v.len() as int) =~= v@);
        lemma_split_nonempty(v@, sep);
    }
    parts
}

/// A line without its `\r`, when the line ended with `\r\n`.
pub open spec fn strip_cr(l: Seq<char>) -> Seq<char> {
    if l.len() > 0 && l.last() == '\r' {
        l.drop_last()
    } else {
        l
    }
}

/// The lines of a text as `str::lines` gives them: the pieces between `\n`s, each with one
/// `\r` removed from its end when it had one (a `\r\n` ending), and then the text after the
/// last `\n`, unchanged, unless it is empty.
pub open spec fn lines_spec(s: Seq<char>) -> Seq<Seq<char>> {
    let parts = split_spec(s, Separator::Char('\n'));
    let ended = parts.drop_last().map_values(|l: Seq<char>| strip_cr(l));
    if parts.last().len() == 0 {
        ended
    } else {
        ended.push(parts.last())
    }
}

/// The white-space separated words of a text, as `str::split_whitespace` gives them.
pub open spec fn words_spec(s: Seq<char>) -> Seq<Seq<char>> {
    split_spec(s, Separator::Space).filter(|w: Seq<char>| w.len() > 0)
}

/// The character sequences held by a list of strings.
pub open spec fn string_views(v: Seq<String>) -> Seq<Seq<char>> {
    v.map_values(|x: String| x@)
}

/// The character sequences held by a list of character vectors.
pub open spec fn char_views(v: Seq<Vec<char>>) -> Seq<Seq<char>> {
    v.map_values(|p: Vec<char>| p@)
}

/// The white-space separated words of a character sequence.
pub fn words(v: &Vec<char>) -> (w: Vec<Vec<char>>)
    ensures
        char_views(w@) == words_spec(v@),
{
    let parts = split_chars(v, Separator::Space);
    let ghost all = split_spec(v@, Separator::Space);
    let ghost pred = |x: Seq<char>| x.len() > 0;
    let mut w: Vec<Vec<char>> = Vec::new();
    let mut i: usize = 0;
    proof {
        reveal(Seq::filter);
        assert(all.take(0) =~= Seq::<Seq<char>>::empty());
        assert(char_views(w@) =~= all.take(0).filter(pred));
    }
    while i < parts.len()
        invariant
            i <= parts@.len(),
            parts@.len() == all.len(),
            forall|j: int| 0 <= j < parts@.len() ==> #[trigger] parts@[j]@ == all[j],
            char_views(w@) == all.take(i as int).filter(pred),
            pred == (|x: Seq<char>| x.len() > 0),
        decreases parts.len() - i,
    {
        let ghost before = w@;
        proof {
            reveal(Seq::filter);
            assert(all.take(i + 1).drop_last() =~= all.take(i as int));
            assert(all.take(i + 1).last() == all[i as int]);
        }
        if parts[i].len() > 0 {
            w.push(parts[i].clone());
            proof {
                assert(char_views(w@) =~= char_views(before).push(all[i as int]));
            }
        }
        i = i + 1;
    }
    proof {
        assert(all.take(parts@.len() as int) =~= all);
    }
    w
}

/// The lines of a character sequence, as `str::lines` gives them.
pub fn lines(v: &Vec<char>) -> (ls: Vec<Vec<char>>)
    ensures
        char_views(ls@) == lines_spec(v@),
{
    let parts = split_chars(v, Separator::Char('\n'));
    let ghost all = split_spec(v@, Separator::Char('\n'));
    let n = parts.len() - 1;
    let mut ls: Vec<Vec<char>> = Vec::new();
    let mut i: usize = 0;
    while i < n
        invariant
            n + 1 == parts@.len(),
            parts@.len() == all.len(),
            forall|j: int| 0 <= j < parts@.len() ==> #[trigger] parts@[j]@ == all[j],
            i <= n,
            ls@.len() == i,
            forall|j: int| 0 <= j < i ==> #[trigger] ls@[j]@ == strip_cr(all[j]),
        decreases n - i,
    {
        let mut line = parts[i].clone();
        let len = line.len();
        if len > 0 && line[len - 1] == '\r' {
            line.pop();
            proof {
                assert(line@ =~= parts@[i as int]@.drop_last());
            }
        }
        ls.push(line);
        i = i + 1;
    }
    let ghost ended = ls@;
    if parts[n].len() > 0 {
        ls.push(parts[n].clone());
    }
    proof {
        assert(char_views(ended) =~= all.drop_last().map_values(|l: Seq<char>| strip_cr(l)));
        assert(char_views(ls@) =~= lines_spec(v@));
    }
    ls
}

} // verus!
