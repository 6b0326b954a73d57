//! The IPv4 TCP listeners that `/proc/net/tcp` lists: parsing its hexadecimal
//! `address:port` fields and collecting the distinct listening endpoints in order.
use vstd::prelude::*;
use crate::text::{chars_of, decimal, push_char, push_decimal, split_chars, split_spec, words, words_spec, lines, lines_spec, char_views, text_lt, compare_text, TextOrder, Separator, lemma_text_lt_transitive, string_views,
    separates, lemma_split_nonempty};

verus! {

/// The value of an ASCII hexadecimal digit (either case).
pub open spec fn hex_digit_value(c: char) -> Option<nat> {
    if '0' <= c && c <= '9' {
        Some((c as nat - 48) as nat)
    } else if 'a' <= c && c <= 'f' {
        Some((c as nat - 87) as nat)
    } else if 'A' <= c && c <= 'F' {
        Some((c as nat - 55) as nat)
    } else {
        None
    }
}

/// The value of a run of hexadecimal digits (zero for no digits).
pub open spec fn hex_digits_value(s: Seq<char>) -> Option<nat>
    decreases s.len(),
{
    if s.len() == 0 {
        Some(0)
    } else {
        match hex_digits_value(s.drop_last()) {
            Some(v) => match hex_digit_value(s.last()) {
                Some(d) => Some(16 * v + d),
                None => None,
            },
            None => None,
        }
    }
}

/// What `from_str_radix(s, 16)` reads from `s` for an unsigned type, before the range check:
/// an optional `+`, then one or more hexadecimal digits and nothing else.
pub open spec fn parse_hex(s: Seq<char>) -> Option<nat> {
    let digits = if s.len() > 0 && s[0] == '+' {
        s.drop_first()
    } else {
        s
    };
    if digits.len() == 0 {
        None
    } else {
        hex_digits_value(digits)
    }
}

/// `parse_hex`, kept only when the value is at most `max`.
pub open spec fn parse_hex_max(s: Seq<char>, max: nat) -> Option<nat> {
    match parse_hex(s) {
        Some(v) => if v <= max {
            Some(v)
        } else {
            None
        },
        None => None,
    }
}

fn hex_digit_exec(c: char) -> (r: Option<u64>)
    ensures
        r matches Some(d) ==> hex_digit_value(c) == Some(d as nat) && d < 16,
        r is None ==> hex_digit_value(c) is None,
{
    if '0' <= c && c <= '9' {
        Some((c as u32 - 48) as u64)
    } else if 'a' <= c && c <= 'f' {
        Some((c as u32 - 87) as u64)
    } else if 'A' <= c && c <= 'F' {
        Some((c as u32 - 55) as u64)
    } else {
        None
    }
}

spec fn cap(v: nat, max: nat) -> nat {
    if v <= max {
        v
    } else {
        max + 1
    }
}

/// Reads a hexadecimal number as `from_str_radix(s, 16)` does, failing above `max`.
pub fn parse_hex_bounded(s: &Vec<char>, max: u64) -> (r: Option<u64>)
    requires
        max <= u32::MAX,
    ensures
        r matches Some(v) ==> parse_hex_max(s@, max as nat) == Some(v as nat),
        r is None ==> parse_hex_max(s@, max as nat) is None,
{
    let start: usize = if s.len() > 0 && s[0] == '+' {
        1
    } else {
        0
    };
    let ghost digits = if s@.len() > 0 && s@[0] == '+' {
        s@.drop_first()
    } else {
        s@
    };
    proof {
        assert(digits =~= s@.subrange(start as int, s@.len() as int));
    }
    if start == s.len() {
        return None;
    }
    let mut acc: u64 = 0;
    let mut i: usize = start;
    proof {
        assert(digits.take(0) =~= Seq::<char>::empty());
    }
    while i < s.len()
        invariant
            start <= i <= s.len(),
            max <= u32::MAX,
            digits == s@.subrange(start as int, s@.len() as int),
            digits.len() > 0,
            parse_hex(s@) == hex_digits_value(digits),
            hex_digits_value(digits.take(i - start)) is Some,
            acc == cap(hex_digits_value(digits.take(i - start))->0, max as nat),
        decreases s.len() - i,
    {
        let d = match hex_digit_exec(s[i]) {
            Some(d) => d,
            None => {
                proof {
                    assert(digits[(i - start) as int] == s@[i as int]);
                    lemma_hex_invalid_suffix(digits, (i - start) as int);
                    assert(digits.len() > 0);
                    assert(hex_digits_value(digits) is None);
                    assert(parse_hex(s@) is None);
                }
                return None;
            },
        };
        let ghost k = (i - start) as int;
        proof {
            assert(digits.take(k + 1).drop_last() =~= digits.take(k));
            assert(digits.take(k + 1).last() == s@[i as int]);
        }
        let next = acc * 16 + d;
        acc = if next > max {
            max + 1
        } else {
            next
        };
        i = i + 1;
    }
    proof {
        assert(digits.take(s.len() - start) =~= digits);
    }
    if acc > max {
        None
    } else {
        Some(acc)
    }
}

proof fn lemma_hex_invalid_suffix(s: Seq<char>, k: int)
    requires
        0 <= k < s.len(),
        hex_digit_value(s[k]) is None,
    ensures
        hex_digits_value(s) is None,
    decreases s.len(),
{
    if k < s.len() - 1 {
        assert(s.drop_last()[k] == s[k]);
        lemma_hex_invalid_suffix(s.drop_last(), k);
    }
}

/// An IPv4 address held in a `u32` in little-endian byte order, written dotted:
/// the bytes of `to_le_bytes`, lowest first.
pub open spec fn ipv4_text(v: nat) -> Seq<char> {
    decimal(v % 256) + seq!['.'] + decimal((v / 256) % 256) + seq!['.'] + decimal(
        (v / 65536) % 256,
    ) + seq!['.'] + decimal((v / 16777216) % 256)
}

/// The local address of a `/proc/net/tcp` row (`0100007F:1F90`): the text before the first
/// `:` must be eight characters of hexadecimal `u32`, the text up to the next `:` a
/// hexadecimal `u16` port.
pub open spec fn parse_local_addr_spec(f: Seq<char>) -> Option<(Seq<char>, u16)> {
    let parts = split_spec(f, Separator::Char(':'));
    if parts.len() < 2 || parts[0].len() != 8 {
        None
    } else {
        match parse_hex_max(parts[0], u32::MAX as nat) {
            None => None,
            Some(ip) => match parse_hex_max(parts[1], u16::MAX as nat) {
                None => None,
                Some(port) => Some((ipv4_text(ip), port as u16)),
            },
        }
    }
}

fn parse_addr_chars(v: &Vec<char>) -> (r: Option<(String, u16)>)
    ensures
        r matches Some(p) ==> parse_local_addr_spec(v@) == Some((p.0@, p.1)),
        r is None ==> parse_local_addr_spec(v@) is None,
{
    let parts = split_chars(v, Separator::Char(':'));
    if parts.len() < 2 {
        return None;
    }
    if parts[0].len() != 8 {
        return None;
    }
    let ip = match parse_hex_bounded(&parts[0], 0xffff_ffff) {
        Some(ip) => ip,
        None => return None,
    };
    let port = match parse_hex_bounded(&parts[1], 0xffff) {
        Some(p) => p,
        None => return None,
    };
    let mut text = String::new();
    push_decimal(&mut text, ip % 256);
    push_char(&mut text, '.');
    push_decimal(&mut text, (ip / 256) % 256);
    push_char(&mut text, '.');
    push_decimal(&mut text, (ip / 65536) % 256);
    push_char(&mut text, '.');
    push_decimal(&mut text, (ip / 16777216) % 256);
    proof {
        assert(text@ =~= ipv4_text(ip as nat));
    }
    Some((text, port as u16))
}

/// Parses the local address field of a `/proc/net/tcp` row into the dotted IPv4 address
/// and the port; `None` when the field is not in that form.
pub fn parse_local_addr_v4(field: &str) -> (r: Option<(String, u16)>)
    ensures
        r matches Some(p) ==> parse_local_addr_spec(field@) == Some((p.0@, p.1)),
        r is None ==> parse_local_addr_spec(field@) is None,
{
    let v = chars_of(field);
    parse_addr_chars(&v)
}

/// The `address:port` a `/proc/net/tcp` row shows for a listening socket: the row needs at
/// least four words, the fourth (the state) being `0A` (LISTEN), and a readable second word.
pub open spec fn listener_entry(line: Seq<char>) -> Option<Seq<char>> {
    let w = words_spec(line);
    if w.len() < 4 || w[3] != seq!['0', 'A'] {
        None
    } else {
        match parse_local_addr_spec(w[1]) {
            Some(a) => Some(a.0 + seq![':'] + decimal(a.1 as nat)),
            None => None,
        }
    }
}

/// Every listening endpoint the rows of the table show (the first line is a header).
pub open spec fn listener_set(raw: Seq<char>) -> Set<Seq<char>> {
    Set::new(
        |e: Seq<char>|
            exists|i: int|
                1 <= i < lines_spec(raw).len() && #[trigger] listener_entry(lines_spec(raw)[i]) == Some(e),
    )
}

/// Strictly increasing in the order strings compare, so without repeats.
pub open spec fn strictly_sorted(s: Seq<Seq<char>>) -> bool {
    forall|i: int, j: int| 0 <= i < j < s.len() ==> text_lt(#[trigger] s[i], #[trigger] s[j])
}

fn listener_entry_exec(line: &Vec<char>) -> (r: Option<String>)
    ensures
        r matches Some(e) ==> listener_entry(line@) == Some(e@),
        r is None ==> listener_entry(line@) is None,
{
    let w = words(line);
    proof {
        assert(char_views(w@).len() == w@.len());
    }
    if w.len() < 4 {
        return None;
    }
    let state = &w[3];
    proof {
        assert(char_views(w@)[3] == state@);
        assert(char_views(w@)[1] == w@[1]@);
    }
    if !(state.len() == 2 && state[0] == '0' && state[1] == 'A') {
        proof {
            if state@ == seq!['0', 'A'] {
                assert(state@[0] == '0');
                assert(state@[1] == 'A');
            }
        }
        return None;
    }
    proof {
        assert(state@ =~= seq!['0', 'A']);
    }
    match parse_addr_chars(&w[1]) {
        Some(a) => {
            let mut e = a.0;
            push_char(&mut e, ':');
            push_decimal(&mut e, a.1 as u64);
            Some(e)
        },
        None => None,
    }
}

/// Puts `s` into a strictly sorted list unless it is there already.
fn insert_sorted(v: &mut Vec<String>, s: String)
    requires
        strictly_sorted(string_views(old(v)@)),
    ensures
        strictly_sorted(string_views(final(v)@)),
        string_views(final(v)@).to_set() == string_views(old(v)@).to_set().insert(s@),
{
    let ghost old_views = string_views(v@);
    let mut i: usize = 0;
    while i < v.len() && compare_text(v[i].as_str(), s.as_str()) == TextOrder::Less
        invariant
            i <= v.len(),
            v@ == old(v)@,
            old_views == string_views(v@),
            strictly_sorted(old_views),
            forall|j: int| 0 <= j < i ==> text_lt(#[trigger] old_views[j], s@),
        decreases v.len() - i,
    {
        proof {
            assert(old_views[i as int] == v@[i as int]@);
        }
        i = i + 1;
    }
    if i < v.len() {
        let ord = compare_text(v[i].as_str(), s.as_str());
        proof {
            assert(old_views[i as int] == v@[i as int]@);
        }
        if ord == TextOrder::Equal {
            proof {
                assert(old_views[i as int] == s@);
                assert(old_views.to_set().insert(s@) =~= old_views.to_set());
            }
            return;
        }
    }
    proof {
        if i < v.len() {
            assert(text_lt(s@, old_views[i as int]));
        }
        assert forall|j: int| i <= j < old_views.len() implies text_lt(s@, #[trigger] old_views[j]) by {
            if j > i {
                lemma_text_lt_transitive(s@, old_views[i as int], old_views[j]);
            }
        }
    }
    v.insert(i, s);
    proof {
        let nv = string_views(v@);
        assert(nv =~= old_views.insert(i as int, s@));
        assert forall|a: int, b: int| 0 <= a < b < nv.len() implies text_lt(#[trigger] nv[a], #[trigger] nv[b]) by {
            if b < i {
            } else if b == i {
            } else if a < i {
                lemma_text_lt_transitive(nv[a], s@, nv[b]);
            } else if a == i {
            } else {
            }
        }
        assert forall|x: Seq<char>| nv.to_set().contains(x) <==> old_views.to_set().insert(s@).contains(x) by {
            if nv.to_set().contains(x) {
                let k = choose|k: int| 0 <= k < nv.len() && nv[k] == x;
                if k < i {
                    assert(old_views[k] == x);
                } else if k > i {
                    assert(old_views[k - 1] == x);
                }
            }
            if old_views.to_set().contains(x) {
                let k = choose|k: int| 0 <= k < old_views.len() && old_views[k] == x;
                if k < i {
                    assert(nv[k] == x);
                } else {
                    assert(nv[k + 1] == x);
                }
            }
            if x == s@ {
                assert(nv[i as int] == x);
            }
        }
        assert(nv.to_set() =~= old_views.to_set().insert(s@));
    }
}

spec fn listeners_upto(ls: Seq<Seq<char>>, n: int) -> Set<Seq<char>> {
    Set::new(|e: Seq<char>| exists|i: int| 1 <= i < n && #[trigger] listener_entry(ls[i]) == Some(e))
}

/// The distinct listening IPv4 endpoints (`a.b.c.d:port`) of the text of `/proc/net/tcp`,
/// in ascending string order: the header line is skipped, and so are rows that are not in
/// the LISTEN state or whose local address does not parse.
pub fn tcp_listeners_ipv4_from(raw: &str) -> (r: Vec<String>)
    ensures
        strictly_sorted(string_views(r@)),
        string_views(r@).to_set() == listener_set(raw@),
{
    let cs = chars_of(raw);
    let ls = lines(&cs);
    let ghost lv = lines_spec(raw@);
    let mut out: Vec<String> = Vec::new();
    let mut i: usize = 1;
    proof {
        assert(char_views(ls@).len() == ls@.len());
        assert(string_views(out@).to_set() =~= listeners_upto(lv, 1));
    }
    while i < ls.len()
        invariant
            1 <= i,
            lv == char_views(ls@),
            lv.len() == ls@.len(),
            i <= ls@.len() || (ls@.len() == 0 && i == 1),
            strictly_sorted(string_views(out@)),
            string_views(out@).to_set() == listeners_upto(lv, i as int),
        decreases ls.len() - i,
    {
        let e = listener_entry_exec(&ls[i]);
        proof {
            assert(lv[i as int] == ls@[i as int]@);
        }
        match e {
            Some(e) => {
                let ghost ev = e@;
                insert_sorted(&mut out, e);
                proof {
                    assert(listeners_upto(lv, i + 1) =~= listeners_upto(lv, i as int).insert(ev));
                }
            },
            None => {
                proof {
                    assert(listeners_upto(lv, i + 1) =~= listeners_upto(lv, i as int));
                }
            },
        }
        i = i + 1;
    }
    proof {
        assert(listeners_upto(lv, i as int) =~= listener_set(raw@));
    }
    out
}

/// The upper-case hexadecimal digit of a value below 16.
pub open spec fn hex_upper(d: nat) -> char {
    if d < 10 {
        ((48 + d) as u32) as char
    } else {
        ((55 + d) as u32) as char
    }
}

/// The last `width` upper-case hexadecimal digits of `v`, zero-padded: what `{:0wX}` (here
/// `{:08X}` and `{:04X}`) prints for a value below `16^width`.
pub open spec fn hex_fixed(v: nat, width: nat) -> Seq<char>
    decreases width,
{
    if width == 0 {
        Seq::empty()
    } else {
        hex_fixed(v / 16, (width - 1) as nat).push(hex_upper(v % 16))
    }
}

pub open spec fn pow16(w: nat) -> nat
    decreases w,
{
    if w == 0 {
        1
    } else {
        16 * pow16((w - 1) as nat)
    }
}

proof fn lemma_hex_fixed(v: nat, w: nat)
    ensures
        hex_fixed(v, w).len() == w,
        forall|i: int| 0 <= i < w ==> {
            let c = #[trigger] hex_fixed(v, w)[i];
            c != ':' && c != '+' && hex_digit_value(c) is Some
        },
        hex_digits_value(hex_fixed(v, w)) == Some(v % pow16(w)),
        pow16(w) > 0,
    decreases w,
{
    if w > 0 {
        let w1 = (w - 1) as nat;
        lemma_hex_fixed(v / 16, w1);
        let s = hex_fixed(v, w);
        assert(s.drop_last() =~= hex_fixed(v / 16, w1));
        let d = v % 16;
        assert(hex_digit_value(hex_upper(d)) == Some(d));
        assert forall|i: int| 0 <= i < w implies {
            let c = #[trigger] s[i];
            c != ':' && c != '+' && hex_digit_value(c) is Some
        } by {
            if i < w1 {
                assert(s[i] == hex_fixed(v / 16, w1)[i]);
            }
        }
        vstd::arithmetic::div_mod::lemma_mod_breakdown(v as int, 16, pow16(w1) as int);
    } else {
        assert(v % 1 == 0);
    }
}

proof fn lemma_split_append_plain(p: Seq<char>, b: Seq<char>, sep: Separator)
    requires
        forall|i: int| 0 <= i < b.len() ==> !separates(sep, #[trigger] b[i]),
    ensures
        split_spec(p + b, sep) == split_spec(p, sep).update(
            split_spec(p, sep).len() - 1,
            split_spec(p, sep).last() + b,
        ),
    decreases b.len(),
{
    lemma_split_nonempty(p, sep);
    if b.len() == 0 {
        assert(p + b =~= p);
        assert(split_spec(p, sep).last() + b =~= split_spec(p, sep).last());
        assert(split_spec(p, sep).update(split_spec(p, sep).len() - 1, split_spec(p, sep).last())
            =~= split_spec(p, sep));
    } else {
        let b1 = b.drop_last();
        lemma_split_append_plain(p, b1, sep);
        assert((p + b).drop_last() =~= p + b1);
        assert((p + b).last() == b.last());
        assert(!separates(sep, b[b.len() - 1]));
        let sp = split_spec(p, sep);
        let init = split_spec(p + b1, sep);
        assert(init.len() == sp.len());
        assert(init.last() == sp.last() + b1);
        assert(split_spec(p + b, sep) == init.update(init.len() - 1, init.last().push(b.last())));
        assert((sp.last() + b1).push(b.last()) =~= sp.last() + b);
        assert(split_spec(p + b, sep) =~= split_spec(p, sep).update(
            split_spec(p, sep).len() - 1,
            split_spec(p, sep).last() + b,
        ));
    }
}

/// Law (round trip): a `/proc/net/tcp` address written as `{:08X}:{:04X}` from the `u32`
/// whose little-endian bytes are `b0..b3` and the port `p` parses back to the dotted address
/// `b0.b1.b2.b3` and `p`.
pub proof fn law_local_addr_round_trip(b0: u8, b1: u8, b2: u8, b3: u8, p: u16)
    ensures
        ({
            let v = b0 + 256 * b1 + 65536 * b2 + 16777216 * b3;
            parse_local_addr_spec(hex_fixed(v as nat, 8) + seq![':'] + hex_fixed(p as nat, 4)) == Some(
                (decimal(b0 as nat) + seq!['.'] + decimal(b1 as nat) + seq!['.'] + decimal(b2 as nat)
                    + seq!['.'] + decimal(b3 as nat), p),
            )
        }),
{
    let v: nat = (b0 + 256 * b1 + 65536 * b2 + 16777216 * b3) as nat;
    let ip = hex_fixed(v, 8);
    let port = hex_fixed(p as nat, 4);
    lemma_hex_fixed(v, 8);
    lemma_hex_fixed(p as nat, 4);
    reveal_with_fuel(pow16, 9);
    assert(pow16(8) == 4294967296);
    assert(pow16(4) == 65536);
    let sep = Separator::Char(':');
    assert forall|i: int| 0 <= i < ip.len() implies !separates(sep, #[trigger] ip[i]) by {
        assert(ip[i] != ':');
    }
    assert forall|i: int| 0 <= i < port.len() implies !separates(sep, #[trigger] port[i]) by {
        assert(port[i] != ':');
    }
    let e = Seq::<char>::empty();
    lemma_split_append_plain(e, ip, sep);
    assert(e + ip =~= ip);
    assert(split_spec(e, sep) =~= seq![e]);
    assert(split_spec(ip, sep) =~= seq![ip]);
    let ipc = ip + seq![':'];
    assert(ipc.drop_last() =~= ip);
    assert(split_spec(ipc, sep) =~= seq![ip, e]);
    lemma_split_append_plain(ipc, port, sep);
    assert(split_spec(ipc + port, sep) =~= seq![ip, port]);
    assert(ip[0] != '+');
    assert(port[0] != '+');
    assert(v % 4294967296 == v);
    assert((p as nat) % 65536 == p as nat);
    vstd::arithmetic::div_mod::lemma_fundamental_div_mod_converse(
        v as int, 256, (b1 + 256 * b2 + 65536 * b3) as int, b0 as int);
    vstd::arithmetic::div_mod::lemma_fundamental_div_mod_converse(
        (b1 + 256 * b2 + 65536 * b3) as int, 256, (b2 + 256 * b3) as int, b1 as int);
    vstd::arithmetic::div_mod::lemma_fundamental_div_mod_converse(
        v as int, 65536, (b2 + 256 * b3) as int, (b0 + 256 * b1) as int);
    vstd::arithmetic::div_mod::lemma_fundamental_div_mod_converse(
        (b2 + 256 * b3) as int, 256, b3 as int, b2 as int);
    vstd::arithmetic::div_mod::lemma_fundamental_div_mod_converse(
        v as int, 16777216, b3 as int, (b0 + 256 * b1 + 65536 * b2) as int);
    vstd::arithmetic::div_mod::lemma_fundamental_div_mod_converse(b3 as int, 256, 0, b3 as int);
    assert(ipv4_text(v) == decimal(b0 as nat) + seq!['.'] + decimal(b1 as nat) + seq!['.'] + decimal(
        b2 as nat,
    ) + seq!['.'] + decimal(b3 as nat));
}

/// Law (LISTEN rows only): a row yields an endpoint only when it has at least four words
/// and its fourth word, the state, is exactly `0A`; a row in any other state, such as an
/// established connection (`01`), yields nothing.
pub proof fn law_only_listen_state_yields(line: Seq<char>)
    ensures
        listener_entry(line) is Some ==> words_spec(line).len() >= 4 && words_spec(line)[3]
            == seq!['0', 'A'],
        words_spec(line).len() < 4 || words_spec(line)[3] != seq!['0', 'A'] ==> listener_entry(
            line,
        ) is None,
{
}

/// Law (what is listed): every listed endpoint is the local address, read as
/// `a.b.c.d:port`, of some row after the header whose state is `0A`; and every such row whose
/// address reads is listed.
pub proof fn law_listed_iff_listen_row(raw: Seq<char>, e: Seq<char>)
    ensures
        listener_set(raw).contains(e) <==> exists|i: int|
            #![trigger lines_spec(raw)[i]]
            1 <= i < lines_spec(raw).len() && words_spec(lines_spec(raw)[i]).len() >= 4
                && words_spec(lines_spec(raw)[i])[3] == seq!['0', 'A']
                && parse_local_addr_spec(words_spec(lines_spec(raw)[i])[1]) is Some
                && e == parse_local_addr_spec(words_spec(lines_spec(raw)[i])[1]).unwrap().0
                + seq![':'] + decimal(
                parse_local_addr_spec(words_spec(lines_spec(raw)[i])[1]).unwrap().1 as nat,
            ),
{
    let ls = lines_spec(raw);
    if listener_set(raw).contains(e) {
        let i = choose|i: int| 1 <= i < ls.len() && #[trigger] listener_entry(ls[i]) == Some(e);
        assert(listener_entry(ls[i]) == Some(e));
    }
    if exists|i: int|
        #![trigger lines_spec(raw)[i]]
        1 <= i < lines_spec(raw).len() && words_spec(lines_spec(raw)[i]).len() >= 4
            && words_spec(lines_spec(raw)[i])[3] == seq!['0', 'A']
            && parse_local_addr_spec(words_spec(lines_spec(raw)[i])[1]) is Some
            && e == parse_local_addr_spec(words_spec(lines_spec(raw)[i])[1]).unwrap().0
            + seq![':'] + decimal(
            parse_local_addr_spec(words_spec(lines_spec(raw)[i])[1]).unwrap().1 as nat,
        ) {
        let i = choose|i: int|
            #![trigger lines_spec(raw)[i]]
            1 <= i < lines_spec(raw).len() && words_spec(lines_spec(raw)[i]).len() >= 4
                && words_spec(lines_spec(raw)[i])[3] == seq!['0', 'A']
                && parse_local_addr_spec(words_spec(lines_spec(raw)[i])[1]) is Some
                && e == parse_local_addr_spec(words_spec(lines_spec(raw)[i])[1]).unwrap().0
                + seq![':'] + decimal(
                parse_local_addr_spec(words_spec(lines_spec(raw)[i])[1]).unwrap().1 as nat,
            );
        assert(listener_entry(ls[i]) == Some(e));
        assert(listener_set(raw).contains(e));
    }
}

} // verus!
