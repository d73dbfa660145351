//! The tabular storage format for rule sets.
//!
//! A rule set is persisted as comma-separated records, one line per rule,
//! with a fixed header line.  Every field is written quoted, with quotes
//! doubled; the reader also accepts unquoted fields, so files written by
//! other tools load as well.  Saving and reloading a store gives the same
//! store back.

use crate::rules::{Rule, RuleView, RoleType, spec_role_type_of, spec_role_type_str};
use crate::text::{push_char, str_eq, str_to_chars, chars_to_string};
use vstd::prelude::*;

verus! {

// ---------------------------------------------------------------------
// Character-level grammar: fields, records, tables.
// ---------------------------------------------------------------------

/// A field's text with every quote doubled.
pub open spec fn spec_escape(f: Seq<char>) -> Seq<char>
    decreases f.len(),
{
    if f.len() == 0 {
        Seq::empty()
    } else {
        (if f[0] == '"' {
            seq!['"', '"']
        } else {
            seq![f[0]]
        }) + spec_escape(f.drop_first())
    }
}

/// A field as written: quoted, with quotes doubled.
pub open spec fn spec_encode_field(f: Seq<char>) -> Seq<char> {
    seq!['"'] + spec_escape(f) + seq!['"']
}

/// A record as written: its fields separated by commas.
pub open spec fn spec_encode_record(fields: Seq<Seq<char>>) -> Seq<char>
    decreases fields.len(),
{
    if fields.len() == 0 {
        Seq::empty()
    } else if fields.len() == 1 {
        spec_encode_field(fields[0])
    } else {
        spec_encode_field(fields[0]) + seq![','] + spec_encode_record(fields.drop_first())
    }
}

/// A table as written: each record followed by a line break.
pub open spec fn spec_encode_table(records: Seq<Seq<Seq<char>>>) -> Seq<char>
    decreases records.len(),
{
    if records.len() == 0 {
        Seq::empty()
    } else {
        spec_encode_record(records[0]) + seq!['\n'] + spec_encode_table(records.drop_first())
    }
}

/// Reads a quoted field's remainder: `acc` holds what came before, the
/// result is the field and the text after the closing quote.  A doubled
/// quote stands for one quote; a lone quote closes the field.
pub open spec fn spec_parse_quoted(s: Seq<char>, acc: Seq<char>) -> Option<(Seq<char>, Seq<char>)>
    decreases s.len(),
{
    if s.len() == 0 {
        None
    } else if s[0] == '"' {
        if s.len() >= 2 && s[1] == '"' {
            spec_parse_quoted(s.skip(2), acc.push('"'))
        } else {
            Some((acc, s.skip(1)))
        }
    } else {
        spec_parse_quoted(s.skip(1), acc.push(s[0]))
    }
}

/// Reads an unquoted field: everything up to the next comma or line break.
pub open spec fn spec_parse_unquoted(s: Seq<char>, acc: Seq<char>) -> (Seq<char>, Seq<char>)
    decreases s.len(),
{
    if s.len() == 0 {
        (acc, s)
    } else if s[0] == ',' || s[0] == '\n' {
        (acc, s)
    } else {
        spec_parse_unquoted(s.skip(1), acc.push(s[0]))
    }
}

/// Reads one field.  After a quoted field the next character must be a
/// comma, a line break or the end of the text.
pub open spec fn spec_parse_field(s: Seq<char>) -> Option<(Seq<char>, Seq<char>)> {
    if s.len() > 0 && s[0] == '"' {
        match spec_parse_quoted(s.skip(1), Seq::empty()) {
            None => None,
            Some((f, rest)) => if rest.len() == 0 || rest[0] == ',' || rest[0] == '\n' {
                Some((f, rest))
            } else {
                None
            },
        }
    } else {
        Some(spec_parse_unquoted(s, Seq::empty()))
    }
}

/// Reading an unquoted field consumes nothing past the text.
proof fn lemma_parse_unquoted_shrinks(s: Seq<char>, acc: Seq<char>)
    ensures
        spec_parse_unquoted(s, acc).1.len() <= s.len(),
    decreases s.len(),
{
    if s.len() > 0 && !(s[0] == ',' || s[0] == '\n') {
        lemma_parse_unquoted_shrinks(s.skip(1), acc.push(s[0]));
    }
}

/// Reading a quoted field consumes at least the closing quote.
proof fn lemma_parse_quoted_shrinks(s: Seq<char>, acc: Seq<char>)
    ensures
        spec_parse_quoted(s, acc) matches Some(r) ==> r.1.len() < s.len(),
    decreases s.len(),
{
    if s.len() == 0 {
    } else if s[0] == '"' {
        if s.len() >= 2 && s[1] == '"' {
            lemma_parse_quoted_shrinks(s.skip(2), acc.push('"'));
        }
    } else {
        lemma_parse_quoted_shrinks(s.skip(1), acc.push(s[0]));
    }
}

/// Reading one field consumes nothing past the text.
proof fn lemma_parse_field_shrinks(s: Seq<char>)
    ensures
        spec_parse_field(s) matches Some(r) ==> r.1.len() <= s.len(),
{
    if s.len() > 0 && s[0] == '"' {
        lemma_parse_quoted_shrinks(s.skip(1), Seq::empty());
    } else {
        lemma_parse_unquoted_shrinks(s, Seq::empty());
    }
}

/// Reads one record: fields separated by commas, ended by a line break or
/// the end of the text.
pub open spec fn spec_parse_record(s: Seq<char>) -> Option<(Seq<Seq<char>>, Seq<char>)>
    decreases s.len(),
    via spec_parse_record_decreases
{
    match spec_parse_field(s) {
        None => None,
        Some((f, rest)) => if rest.len() == 0 {
            Some((seq![f], rest))
        } else if rest[0] == '\n' {
            Some((seq![f], rest.skip(1)))
        } else {
            match spec_parse_record(rest.skip(1)) {
                None => None,
                Some((fs, rest2)) => Some((seq![f] + fs, rest2)),
            }
        },
    }
}

#[via_fn]
proof fn spec_parse_record_decreases(s: Seq<char>) {
    lemma_parse_field_shrinks(s);
}

/// Reading one record from non-empty text consumes at least one character.
proof fn lemma_parse_record_shrinks(s: Seq<char>)
    ensures
        s.len() > 0 ==> (spec_parse_record(s) matches Some(r) ==> r.1.len() < s.len()),
    decreases s.len(),
{
    lemma_parse_field_shrinks(s);
    match spec_parse_field(s) {
        None => {},
        Some((f, rest)) => {
            if rest.len() == 0 {
            } else if rest[0] == '\n' {
            } else {
                lemma_parse_record_shrinks(rest.skip(1));
            }
        },
    }
}

/// Reads a whole table: records until the text ends.
pub open spec fn spec_parse_table(s: Seq<char>) -> Option<Seq<Seq<Seq<char>>>>
    decreases s.len(),
    via spec_parse_table_decreases
{
    if s.len() == 0 {
        Some(Seq::empty())
    } else {
        match spec_parse_record(s) {
            None => None,
            Some((r, rest)) => match spec_parse_table(rest) {
                None => None,
                Some(t) => Some(seq![r] + t),
            },
        }
    }
}

#[via_fn]
proof fn spec_parse_table_decreases(s: Seq<char>) {
    lemma_parse_record_shrinks(s);
}

// ---------------------------------------------------------------------
// The writer's output reads back as what was written.
// ---------------------------------------------------------------------

/// Escaping distributes over concatenation.
proof fn lemma_escape_concat(a: Seq<char>, b: Seq<char>)
    ensures
        spec_escape(a + b) == spec_escape(a) + spec_escape(b),
    decreases a.len(),
{
    if a.len() == 0 {
        assert(a + b =~= b);
        assert(spec_escape(a) + spec_escape(b) =~= spec_escape(b));
    } else {
        assert((a + b).drop_first() =~= a.drop_first() + b);
        lemma_escape_concat(a.drop_first(), b);
        assert(spec_escape(a + b) =~= spec_escape(a) + spec_escape(b));
    }
}

/// Reading a quoted field back from its escaped text recovers the field.
proof fn lemma_parse_quoted_escape(f: Seq<char>, acc: Seq<char>, tail: Seq<char>)
    requires
        tail.len() == 0 || tail[0] == ',' || tail[0] == '\n',
    ensures
        spec_parse_quoted(spec_escape(f) + seq!['"'] + tail, acc) == Some((acc + f, tail)),
    decreases f.len(),
{
    let s = spec_escape(f) + seq!['"'] + tail;
    if f.len() == 0 {
        assert(s =~= seq!['"'] + tail);
        assert(s[0] == '"');
        if s.len() >= 2 {
            assert(s[1] == tail[0]);
        }
        assert(s.skip(1) =~= tail);
        assert(acc + f =~= acc);
    } else if f[0] == '"' {
        assert(s[0] == '"');
        assert(s[1] == '"');
        assert(s.len() >= 2);
        assert(s.skip(2) =~= spec_escape(f.drop_first()) + seq!['"'] + tail);
        lemma_parse_quoted_escape(f.drop_first(), acc.push('"'), tail);
        assert(acc.push('"') + f.drop_first() =~= acc + f);
    } else {
        assert(s[0] == f[0]);
        assert(s[0] != '"');
        assert(s.skip(1) =~= spec_escape(f.drop_first()) + seq!['"'] + tail);
        lemma_parse_quoted_escape(f.drop_first(), acc.push(f[0]), tail);
        assert(acc.push(f[0]) + f.drop_first() =~= acc + f);
    }
}

/// Reading a field back from its written form recovers the field.
proof fn lemma_parse_field_encode(f: Seq<char>, tail: Seq<char>)
    requires
        tail.len() == 0 || tail[0] == ',' || tail[0] == '\n',
    ensures
        spec_parse_field(spec_encode_field(f) + tail) == Some((f, tail)),
{
    let s = spec_encode_field(f) + tail;
    assert(s[0] == '"');
    assert(s.skip(1) =~= spec_escape(f) + seq!['"'] + tail);
    lemma_parse_quoted_escape(f, Seq::empty(), tail);
    assert(Seq::<char>::empty() + f =~= f);
}

/// Reading a record back from its written form recovers the fields.
proof fn lemma_parse_record_encode(fields: Seq<Seq<char>>, rest: Seq<char>)
    requires
        fields.len() >= 1,
    ensures
        spec_parse_record(spec_encode_record(fields) + seq!['\n'] + rest) == Some((fields, rest)),
    decreases fields.len(),
{
    let s = spec_encode_record(fields) + seq!['\n'] + rest;
    if fields.len() == 1 {
        assert(s =~= spec_encode_field(fields[0]) + (seq!['\n'] + rest));
        lemma_parse_field_encode(fields[0], seq!['\n'] + rest);
        assert((seq!['\n'] + rest)[0] == '\n');
        assert((seq!['\n'] + rest).skip(1) =~= rest);
        assert(seq![fields[0]] =~= fields);
    } else {
        let tail = seq![','] + spec_encode_record(fields.drop_first()) + seq!['\n'] + rest;
        assert(s =~= spec_encode_field(fields[0]) + tail);
        lemma_parse_field_encode(fields[0], tail);
        assert(tail[0] == ',');
        assert(tail.skip(1) =~= spec_encode_record(fields.drop_first()) + seq!['\n'] + rest);
        lemma_parse_record_encode(fields.drop_first(), rest);
        assert(seq![fields[0]] + fields.drop_first() =~= fields);
    }
}

/// A written field is never empty text.
proof fn lemma_encode_record_nonempty(fields: Seq<Seq<char>>)
    requires
        fields.len() >= 1,
    ensures
        spec_encode_record(fields).len() > 0,
    decreases fields.len(),
{
    if fields.len() > 1 {
        lemma_encode_record_nonempty(fields.drop_first());
    }
}

/// Reading a table back from its written form recovers every record:
/// the writer and the reader are inverse on tables of non-empty records.
pub proof fn lemma_parse_table_encode(records: Seq<Seq<Seq<char>>>)
    requires
        forall|t: int| 0 <= t < records.len() ==> (#[trigger] records[t]).len() >= 1,
    ensures
        spec_parse_table(spec_encode_table(records)) == Some(records),
    decreases records.len(),
{
    if records.len() == 0 {
    } else {
        let s = spec_encode_table(records);
        let rest = spec_encode_table(records.drop_first());
        assert(records[0].len() >= 1);
        lemma_encode_record_nonempty(records[0]);
        assert(s =~= spec_encode_record(records[0]) + seq!['\n'] + rest);
        assert(s.len() > 0);
        lemma_parse_record_encode(records[0], rest);
        lemma_parse_table_encode(records.drop_first());
        assert(seq![records[0]] + records.drop_first() =~= records);
    }
}


// ---------------------------------------------------------------------
// Decimal numbers.
// ---------------------------------------------------------------------

/// The digit character for a value below ten.
pub open spec fn spec_digit_char(d: int) -> char {
    if d == 0 {
        '0'
    } else if d == 1 {
        '1'
    } else if d == 2 {
        '2'
    } else if d == 3 {
        '3'
    } else if d == 4 {
        '4'
    } else if d == 5 {
        '5'
    } else if d == 6 {
        '6'
    } else if d == 7 {
        '7'
    } else if d == 8 {
        '8'
    } else {
        '9'
    }
}

/// The value of a digit character; ten for anything else.
pub open spec fn spec_digit_val(c: char) -> int {
    if c == '0' {
        0
    } else if c == '1' {
        1
    } else if c == '2' {
        2
    } else if c == '3' {
        3
    } else if c == '4' {
        4
    } else if c == '5' {
        5
    } else if c == '6' {
        6
    } else if c == '7' {
        7
    } else if c == '8' {
        8
    } else if c == '9' {
        9
    } else {
        10
    }
}

pub open spec fn spec_is_digit(c: char) -> bool {
    spec_digit_val(c) < 10
}

/// The decimal text of a number.
pub open spec fn spec_dec_of(n: nat) -> Seq<char>
    decreases n,
{
    if n < 10 {
        seq![spec_digit_char(n as int)]
    } else {
        spec_dec_of(n / 10) + seq![spec_digit_char((n % 10) as int)]
    }
}

/// The value of a digit string, most significant digit first.
pub open spec fn spec_dec_val(s: Seq<char>) -> int
    decreases s.len(),
{
    if s.len() == 0 {
        0
    } else {
        spec_dec_val(s.drop_last()) * 10 + spec_digit_val(s.last())
    }
}

pub open spec fn spec_all_digits(s: Seq<char>) -> bool {
    forall|t: int| 0 <= t < s.len() ==> spec_is_digit(#[trigger] s[t])
}

/// What a digit string denotes as a machine word, if it is one and fits.
pub open spec fn spec_parse_u64(s: Seq<char>) -> Option<u64> {
    if s.len() > 0 && spec_all_digits(s) && spec_dec_val(s) <= u64::MAX {
        Some(spec_dec_val(s) as u64)
    } else {
        None
    }
}

proof fn lemma_dec_val_nonneg(s: Seq<char>)
    ensures
        spec_dec_val(s) >= 0,
    decreases s.len(),
{
    if s.len() > 0 {
        lemma_dec_val_nonneg(s.drop_last());
    }
}

/// The value of a digit string never shrinks as digits are appended.
proof fn lemma_dec_val_prefix(s: Seq<char>, i: int)
    requires
        0 <= i <= s.len(),
    ensures
        spec_dec_val(s) >= spec_dec_val(s.take(i)),
    decreases s.len() - i,
{
    if i < s.len() {
        lemma_dec_val_prefix(s, i + 1);
        assert(s.take(i + 1).drop_last() =~= s.take(i));
        lemma_dec_val_nonneg(s.take(i));
        assert(spec_dec_val(s.take(i + 1)) == spec_dec_val(s.take(i)) * 10 + spec_digit_val(
            s.take(i + 1).last(),
        ));
    } else {
        assert(s.take(i) =~= s);
    }
}

/// The decimal text of a number is all digits and reads back as the number.
pub proof fn lemma_dec_of_digits(n: nat)
    ensures
        spec_dec_of(n).len() > 0,
        spec_all_digits(spec_dec_of(n)),
        spec_dec_val(spec_dec_of(n)) == n,
    decreases n,
{
    if n < 10 {
        assert(spec_dec_of(n).drop_last() =~= Seq::<char>::empty());
        assert(spec_dec_val(Seq::<char>::empty()) == 0);
        assert(spec_dec_of(n).last() == spec_digit_char(n as int));
    } else {
        lemma_dec_of_digits(n / 10);
        let s = spec_dec_of(n);
        assert(s.drop_last() =~= spec_dec_of(n / 10));
        assert(s.last() == spec_digit_char((n % 10) as int));
        assert(spec_dec_val(s) == spec_dec_val(spec_dec_of(n / 10)) * 10 + (n % 10));
        assert(n == (n / 10) * 10 + n % 10) by {
            vstd::arithmetic::div_mod::lemma_fundamental_div_mod(n as int, 10);
        }
        assert forall|t: int| 0 <= t < s.len() implies spec_is_digit(#[trigger] s[t]) by {
            if t < s.len() - 1 {
                assert(s[t] == spec_dec_of(n / 10)[t]);
            }
        }
    }
}

/// The digit character for a value below ten.
fn digit_char_of(d: u64) -> (c: char)
    requires
        d < 10,
    ensures
        c == spec_digit_char(d as int),
{
    match d {
        0 => '0',
        1 => '1',
        2 => '2',
        3 => '3',
        4 => '4',
        5 => '5',
        6 => '6',
        7 => '7',
        8 => '8',
        _ => '9',
    }
}

/// The value of a digit character; ten for anything else.
fn digit_val_of(c: char) -> (d: u64)
    ensures
        d == spec_digit_val(c),
{
    match c {
        '0' => 0,
        '1' => 1,
        '2' => 2,
        '3' => 3,
        '4' => 4,
        '5' => 5,
        '6' => 6,
        '7' => 7,
        '8' => 8,
        '9' => 9,
        _ => 10,
    }
}

/// The decimal text of a number.
pub fn u64_to_dec_chars(n: u64) -> (v: Vec<char>)
    ensures
        v@ == spec_dec_of(n as nat),
    decreases n,
{
    if n < 10 {
        let mut v: Vec<char> = Vec::new();
        v.push(digit_char_of(n));
        proof {
            assert(v@ =~= spec_dec_of(n as nat));
        }
        v
    } else {
        let mut v = u64_to_dec_chars(n / 10);
        v.push(digit_char_of(n % 10));
        proof {
            assert(v@ =~= spec_dec_of(n as nat));
        }
        v
    }
}

/// Reads a decimal number, rejecting anything that is not a digit string
/// or does not fit in a machine word.
pub fn parse_u64_chars(v: &Vec<char>) -> (r: Option<u64>)
    ensures
        r == spec_parse_u64(v@),
{
    if v.len() == 0 {
        return None;
    }
    let mut acc: u64 = 0;
    let mut i: usize = 0;
    while i < v.len()
        invariant
            0 <= i <= v@.len(),
            v@.len() > 0,
            forall|t: int| 0 <= t < i ==> spec_is_digit(#[trigger] v@[t]),
            acc == spec_dec_val(v@.take(i as int)),
        decreases v@.len() - i,
    {
        let d = digit_val_of(v[i]);
        if d >= 10 {
            return None;
        }
        if acc > (u64::MAX - d) / 10 {
            proof {
                assert(spec_dec_val(v@.take(i + 1)) > u64::MAX) by {
                    assert(v@.take(i + 1).drop_last() =~= v@.take(i as int));
                    assert(spec_dec_val(v@.take(i + 1)) == acc * 10 + d);
                    if acc * 10 + d <= u64::MAX {
                        assert(acc * 10 <= u64::MAX - d);
                        vstd::arithmetic::div_mod::lemma_div_is_ordered(
                            acc as int * 10,
                            u64::MAX - d,
                            10,
                        );
                        assert(acc as int * 10 / 10 == acc as int) by {
                            vstd::arithmetic::div_mod::lemma_fundamental_div_mod(
                                acc as int * 10,
                                10,
                            );
                        }
                    }
                }
                lemma_dec_val_prefix(v@, i + 1);
            }
            return None;
        }
        proof {
            assert(acc * 10 + d <= u64::MAX) by {
                vstd::arithmetic::div_mod::lemma_fundamental_div_mod((u64::MAX - d) as int, 10);
                vstd::arithmetic::div_mod::lemma_mod_bound((u64::MAX - d) as int, 10);
                assert(acc as int * 10 <= ((u64::MAX - d) as int / 10) * 10);
            }
            assert(v@.take(i + 1).drop_last() =~= v@.take(i as int));
        }
        acc = acc * 10 + d;
        i += 1;
    }
    proof {
        assert(v@.take(v@.len() as int) =~= v@);
    }
    Some(acc)
}

// ---------------------------------------------------------------------
// Activity lists: a semicolon-separated field.
// ---------------------------------------------------------------------

/// The text without leading whitespace.
pub open spec fn spec_trim_front(s: Seq<char>) -> Seq<char>
    decreases s.len(),
{
    if s.len() > 0 && crate::text::is_ws(s[0]) {
        spec_trim_front(s.skip(1))
    } else {
        s
    }
}

/// The text without trailing whitespace.
pub open spec fn spec_trim_back(s: Seq<char>) -> Seq<char>
    decreases s.len(),
{
    if s.len() > 0 && crate::text::is_ws(s.last()) {
        spec_trim_back(s.drop_last())
    } else {
        s
    }
}

/// The text without whitespace at either end.
pub open spec fn spec_trim(s: Seq<char>) -> Seq<char> {
    spec_trim_back(spec_trim_front(s))
}

/// The raw pieces of a semicolon-separated list; `acc` holds the piece
/// read so far.
pub open spec fn spec_split_go(s: Seq<char>, acc: Seq<char>) -> Seq<Seq<char>>
    decreases s.len(),
{
    if s.len() == 0 {
        seq![acc]
    } else if s[0] == ';' {
        seq![acc] + spec_split_go(s.skip(1), Seq::empty())
    } else {
        spec_split_go(s.skip(1), acc.push(s[0]))
    }
}

/// Each piece trimmed, empty pieces dropped.
pub open spec fn spec_clean_pieces(ps: Seq<Seq<char>>) -> Seq<Seq<char>>
    decreases ps.len(),
{
    if ps.len() == 0 {
        Seq::empty()
    } else {
        (if spec_trim(ps[0]).len() > 0 {
            seq![spec_trim(ps[0])]
        } else {
            Seq::<Seq<char>>::empty()
        }) + spec_clean_pieces(ps.drop_first())
    }
}

/// The activity names read from a semicolon-separated field: split,
/// trimmed, with empty entries dropped.
pub open spec fn spec_split_acts(s: Seq<char>) -> Seq<Seq<char>> {
    spec_clean_pieces(spec_split_go(s, Seq::empty()))
}

/// The semicolon-separated text of an activity list.
pub open spec fn spec_join_acts(acts: Seq<Seq<char>>) -> Seq<char>
    decreases acts.len(),
{
    if acts.len() == 0 {
        Seq::empty()
    } else if acts.len() == 1 {
        acts[0]
    } else {
        acts[0] + seq![';'] + spec_join_acts(acts.drop_first())
    }
}

/// Trimming a name that is already clean changes nothing.
proof fn lemma_trim_clean(s: Seq<char>)
    requires
        crate::rules::clean_activity(s),
    ensures
        spec_trim(s) == s,
{
}

/// A semicolon-free piece is one piece.
proof fn lemma_split_go_no_semi(piece: Seq<char>, acc: Seq<char>)
    requires
        forall|t: int| 0 <= t < piece.len() ==> piece[t] != ';',
    ensures
        spec_split_go(piece, acc) =~= seq![acc + piece],
    decreases piece.len(),
{
    if piece.len() == 0 {
        assert(acc + piece =~= acc);
    } else {
        lemma_split_go_no_semi(piece.skip(1), acc.push(piece[0]));
        assert(acc.push(piece[0]) + piece.skip(1) =~= acc + piece);
    }
}

/// Splitting at the first semicolon after a semicolon-free piece.
proof fn lemma_split_go_concat_semi(piece: Seq<char>, b: Seq<char>, acc: Seq<char>)
    requires
        forall|t: int| 0 <= t < piece.len() ==> piece[t] != ';',
    ensures
        spec_split_go(piece + seq![';'] + b, acc) =~= seq![acc + piece] + spec_split_go(
            b,
            Seq::empty(),
        ),
    decreases piece.len(),
{
    let s = piece + seq![';'] + b;
    if piece.len() == 0 {
        assert(s[0] == ';');
        assert(s.skip(1) =~= b);
        assert(acc + piece =~= acc);
    } else {
        assert(s[0] == piece[0]);
        assert(s[0] != ';');
        assert(s.skip(1) =~= piece.skip(1) + seq![';'] + b);
        lemma_split_go_concat_semi(piece.skip(1), b, acc.push(piece[0]));
        assert(acc.push(piece[0]) + piece.skip(1) =~= acc + piece);
    }
}

/// Cleaning one piece trims it and drops it when empty.
proof fn lemma_clean_pieces_single(x: Seq<char>)
    ensures
        spec_clean_pieces(seq![x]) =~= if spec_trim(x).len() > 0 {
            seq![spec_trim(x)]
        } else {
            Seq::<Seq<char>>::empty()
        },
{
    assert(seq![x].drop_first() =~= Seq::<Seq<char>>::empty());
    assert(spec_clean_pieces(Seq::<Seq<char>>::empty()) =~= Seq::<Seq<char>>::empty());
}

/// Cleaning distributes over concatenation of piece lists.
proof fn lemma_clean_pieces_concat(x: Seq<Seq<char>>, y: Seq<Seq<char>>)
    ensures
        spec_clean_pieces(x + y) =~= spec_clean_pieces(x) + spec_clean_pieces(y),
    decreases x.len(),
{
    if x.len() == 0 {
        assert(x + y =~= y);
        assert(spec_clean_pieces(x) + spec_clean_pieces(y) =~= spec_clean_pieces(y));
    } else {
        assert((x + y).drop_first() =~= x.drop_first() + y);
        lemma_clean_pieces_concat(x.drop_first(), y);
        assert((x + y)[0] == x[0]);
    }
}

/// Reading an activity field back from its written form recovers the list,
/// provided every name is clean.
pub proof fn lemma_split_join(acts: Seq<Seq<char>>)
    requires
        forall|t: int| 0 <= t < acts.len() ==> crate::rules::clean_activity(#[trigger] acts[t]),
    ensures
        spec_split_acts(spec_join_acts(acts)) =~= acts,
    decreases acts.len(),
{
    if acts.len() == 0 {
        assert(spec_split_go(Seq::<char>::empty(), Seq::<char>::empty()) =~= seq![
            Seq::<char>::empty(),
        ]);
        assert(spec_trim_front(Seq::<char>::empty()) =~= Seq::<char>::empty());
        assert(spec_trim(Seq::<char>::empty()).len() == 0);
        lemma_clean_pieces_single(Seq::<char>::empty());
        assert(spec_split_acts(spec_join_acts(acts)) =~= Seq::<Seq<char>>::empty());
    } else if acts.len() == 1 {
        assert(crate::rules::clean_activity(acts[0]));
        lemma_split_go_no_semi(acts[0], Seq::empty());
        assert(Seq::<char>::empty() + acts[0] =~= acts[0]);
        lemma_trim_clean(acts[0]);
        lemma_clean_pieces_single(acts[0]);
        assert(spec_clean_pieces(seq![acts[0]]) =~= seq![acts[0]]);
        assert(seq![acts[0]] =~= acts);
    } else {
        let rest = spec_join_acts(acts.drop_first());
        assert(spec_join_acts(acts) == acts[0] + seq![';'] + rest);
        assert(crate::rules::clean_activity(acts[0]));
        lemma_split_go_concat_semi(acts[0], rest, Seq::empty());
        assert(Seq::<char>::empty() + acts[0] =~= acts[0]);
        lemma_clean_pieces_concat(seq![acts[0]], spec_split_go(rest, Seq::empty()));
        lemma_trim_clean(acts[0]);
        lemma_clean_pieces_single(acts[0]);
        assert(spec_clean_pieces(seq![acts[0]]) =~= seq![acts[0]]);
        assert forall|t: int|
            0 <= t < acts.drop_first().len() implies crate::rules::clean_activity(
            #[trigger] acts.drop_first()[t],
        ) by {
            assert(acts.drop_first()[t] == acts[t + 1]);
        }
        lemma_split_join(acts.drop_first());
        assert(seq![acts[0]] + acts.drop_first() =~= acts);
    }
}

/// Whether the character counts as surrounding whitespace.
fn is_ws_char(c: char) -> (r: bool)
    ensures
        r == crate::text::is_ws(c),
{
    c == ' ' || c == '\t' || c == '\r' || c == '\n'
}

/// The characters without whitespace at either end.
fn trim_chars(v: &Vec<char>) -> (r: Vec<char>)
    ensures
        r@ == spec_trim(v@),
{
    let mut a: usize = 0;
    proof {
        assert(v@.skip(0) =~= v@);
    }
    while a < v.len() && is_ws_char(v[a])
        invariant
            0 <= a <= v@.len(),
            spec_trim_front(v@.skip(a as int)) == spec_trim_front(v@),
        decreases v@.len() - a,
    {
        proof {
            assert(v@.skip(a as int)[0] == v@[a as int]);
            assert(v@.skip(a as int).skip(1) =~= v@.skip(a + 1));
        }
        a += 1;
    }
    proof {
        if a < v@.len() {
            assert(v@.skip(a as int)[0] == v@[a as int]);
        } else {
            assert(v@.skip(a as int).len() == 0);
        }
        assert(spec_trim_front(v@) == v@.skip(a as int));
    }
    let mut b: usize = v.len();
    proof {
        assert(v@.skip(a as int).take(v@.len() - a) =~= v@.skip(a as int));
    }
    while b > a && is_ws_char(v[b - 1])
        invariant
            a <= b <= v@.len(),
            spec_trim_front(v@) == v@.skip(a as int),
            spec_trim_back(v@.skip(a as int).take(b - a)) == spec_trim_back(v@.skip(a as int)),
        decreases b,
    {
        proof {
            let cur = v@.skip(a as int).take(b - a);
            assert(cur.len() > 0);
            assert(cur.last() == v@[b - 1]);
            assert(cur.drop_last() =~= v@.skip(a as int).take(b - a - 1));
        }
        b -= 1;
    }
    proof {
        let cur = v@.skip(a as int).take(b - a);
        if b > a {
            assert(cur.last() == v@[b - 1]);
            assert(spec_trim_back(cur) == cur);
        } else {
            assert(cur.len() == 0);
        }
    }
    let mut r: Vec<char> = Vec::new();
    let mut t: usize = a;
    while t < b
        invariant
            a <= t <= b <= v@.len(),
            r@ == v@.skip(a as int).take(t - a),
        decreases b - t,
    {
        r.push(v[t]);
        proof {
            assert(r@ =~= v@.skip(a as int).take(t + 1 - a));
        }
        t += 1;
    }
    r
}

/// Splits a semicolon-separated field into trimmed, non-empty activity
/// names.
pub fn split_activities(s: &str) -> (r: Vec<String>)
    ensures
        r.deep_view() == spec_split_acts(s@),
{
    let chars = crate::text::str_to_chars(s);
    let mut out: Vec<String> = Vec::new();
    let mut cur: Vec<char> = Vec::new();
    let mut i: usize = 0;
    proof {
        assert(chars@.skip(0) =~= chars@);
    }
    while i < chars.len()
        invariant
            0 <= i <= chars@.len(),
            chars@ == s@,
            spec_split_acts(s@) =~= out.deep_view() + spec_clean_pieces(
                spec_split_go(s@.skip(i as int), cur@),
            ),
        decreases chars@.len() - i,
    {
        proof {
            assert(s@.skip(i as int)[0] == s@[i as int]);
            assert(s@.skip(i as int).skip(1) =~= s@.skip(i + 1));
        }
        let c = chars[i];
        if c == ';' {
            let piece = trim_chars(&cur);
            let ghost pieces_rest = spec_split_go(s@.skip(i + 1), Seq::<char>::empty());
            proof {
                assert(spec_split_go(s@.skip(i as int), cur@) =~= seq![cur@] + pieces_rest);
                lemma_clean_pieces_concat(seq![cur@], pieces_rest);
                assert(out.deep_view().len() == out@.len());
            }
            if piece.len() > 0 {
                let ghost prev = out.deep_view();
                out.push(crate::text::chars_to_string(&piece));
                proof {
                    assert forall|j: int| 0 <= j < prev.len() implies out.deep_view()[j]
                        == prev[j] by {}
                    assert(out.deep_view() =~= prev + seq![spec_trim(cur@)]);
                    lemma_clean_pieces_single(cur@);
                    assert(spec_clean_pieces(seq![cur@]) =~= seq![spec_trim(cur@)]);
                }
            } else {
                proof {
                    lemma_clean_pieces_single(cur@);
                    assert(spec_clean_pieces(seq![cur@]) =~= Seq::<Seq<char>>::empty());
                    assert(out.deep_view() + Seq::<Seq<char>>::empty() =~= out.deep_view());
                }
            }
            cur = Vec::new();
        } else {
            cur.push(c);
        }
        i += 1;
    }
    proof {
        assert(s@.skip(s@.len() as int).len() == 0);
        assert(spec_split_go(s@.skip(i as int), cur@) =~= seq![cur@]);
        assert(out.deep_view().len() == out@.len());
    }
    let piece = trim_chars(&cur);
    if piece.len() > 0 {
        let ghost prev = out.deep_view();
        out.push(crate::text::chars_to_string(&piece));
        proof {
            assert forall|j: int| 0 <= j < prev.len() implies out.deep_view()[j] == prev[j] by {}
            assert(out.deep_view() =~= prev + seq![spec_trim(cur@)]);
            lemma_clean_pieces_single(cur@);
            assert(spec_clean_pieces(seq![cur@]) =~= seq![spec_trim(cur@)]);
        }
    } else {
        proof {
            lemma_clean_pieces_single(cur@);
            assert(spec_clean_pieces(seq![cur@]) =~= Seq::<Seq<char>>::empty());
            assert(out.deep_view() + Seq::<Seq<char>>::empty() =~= out.deep_view());
        }
    }
    out
}

/// Joins activity names with semicolons, starting at position `i`.
fn join_acts_from(acts: &Vec<String>, i: usize) -> (r: String)
    requires
        i <= acts@.len(),
    ensures
        r@ == spec_join_acts(acts.deep_view().skip(i as int)),
    decreases acts@.len() - i,
{
    proof {
        assert(acts.deep_view().len() == acts@.len());
    }
    if i >= acts.len() {
        let r = String::new();
        proof {
            assert(acts.deep_view().skip(i as int).len() == 0);
        }
        r
    } else if i == acts.len() - 1 {
        proof {
            assert(acts.deep_view().skip(i as int).len() == 1);
            assert(acts.deep_view().skip(i as int)[0] == acts@[i as int]@);
        }
        acts[i].clone()
    } else {
        let mut r = acts[i].clone();
        r.append(";");
        let restp = join_acts_from(acts, i + 1);
        r.append(restp.as_str());
        proof {
            reveal_strlit(";");
            let sk = acts.deep_view().skip(i as int);
            assert(sk.len() >= 2);
            assert(sk[0] == acts@[i as int]@);
            assert(sk.drop_first() =~= acts.deep_view().skip(i + 1));
            assert(";"@ =~= seq![';']);
            assert(r@ == acts@[i as int]@ + seq![';'] + spec_join_acts(
                acts.deep_view().skip(i + 1),
            ));
        }
        r
    }
}

/// Joins activity names with semicolons.
pub fn join_activities(acts: &Vec<String>) -> (r: String)
    ensures
        r@ == spec_join_acts(acts.deep_view()),
{
    let r = join_acts_from(acts, 0);
    proof {
        assert(acts.deep_view().skip(0) =~= acts.deep_view());
    }
    r
}



// ---------------------------------------------------------------------
// Rows: one stored record per rule.
// ---------------------------------------------------------------------

/// Why a rule file is rejected.
#[derive(Debug, Clone, Copy, PartialEq, Eq, Structural)]
pub enum LoadError {
    /// The text is not a well-formed table.
    MalformedTable,
    /// The first record is not the expected header.
    BadHeader,
    /// A record does not have exactly the expected fields.
    WrongFieldCount,
    /// A group identifier field is not a number.
    InvalidGuildId,
    /// A role identifier field is not a number.
    InvalidRoleId,
    /// A rule kind field names no known kind.
    UnknownRoleType,
}

/// The mathematical content of a [`CsvRow`].
pub struct CsvRowView {
    pub guild_id: Seq<char>,
    pub guild_name: Seq<char>,
    pub role_id: Seq<char>,
    pub role_name: Seq<char>,
    pub role_type: Seq<char>,
    pub activity_names: Seq<char>,
    pub comments: Seq<char>,
}

/// One stored record, every field as text.
#[derive(Debug, PartialEq, Eq)]
pub struct CsvRow {
    pub guild_id: String,
    pub guild_name: String,
    pub role_id: String,
    pub role_name: String,
    pub role_type: String,
    pub activity_names: String,
    pub comments: String,
}

impl View for CsvRow {
    type V = CsvRowView;

    open spec fn view(&self) -> CsvRowView {
        CsvRowView {
            guild_id: self.guild_id@,
            guild_name: self.guild_name@,
            role_id: self.role_id@,
            role_name: self.role_name@,
            role_type: self.role_type@,
            activity_names: self.activity_names@,
            comments: self.comments@,
        }
    }
}

/// A row's fields in storage order.
pub open spec fn spec_row_fields(r: CsvRowView) -> Seq<Seq<char>> {
    seq![
        r.guild_id,
        r.guild_name,
        r.role_id,
        r.role_name,
        r.role_type,
        r.activity_names,
        r.comments,
    ]
}

/// A row from its fields in storage order.
pub open spec fn spec_fields_row(fs: Seq<Seq<char>>) -> CsvRowView
    recommends
        fs.len() == 7,
{
    CsvRowView {
        guild_id: fs[0],
        guild_name: fs[1],
        role_id: fs[2],
        role_name: fs[3],
        role_type: fs[4],
        activity_names: fs[5],
        comments: fs[6],
    }
}

/// The row that stores a rule.
pub open spec fn spec_row_of_rule(rv: RuleView) -> CsvRowView {
    CsvRowView {
        guild_id: spec_dec_of(rv.guild_id as nat),
        guild_name: rv.guild_name,
        role_id: spec_dec_of(rv.role_id as nat),
        role_name: rv.role_name,
        role_type: spec_role_type_str(rv.role_type),
        activity_names: spec_join_acts(rv.activities),
        comments: rv.comments,
    }
}

/// The rule a stored row denotes, or why it denotes none.
pub open spec fn spec_rule_of_row(row: CsvRowView) -> Result<RuleView, LoadError> {
    if spec_parse_u64(row.guild_id) is None {
        Err(LoadError::InvalidGuildId)
    } else if spec_role_type_of(row.role_type) is None {
        Err(LoadError::UnknownRoleType)
    } else if spec_parse_u64(row.role_id) is None {
        Err(LoadError::InvalidRoleId)
    } else {
        Ok(
            RuleView {
                guild_id: spec_parse_u64(row.guild_id).unwrap(),
                guild_name: row.guild_name,
                role_id: spec_parse_u64(row.role_id).unwrap(),
                role_name: row.role_name,
                role_type: spec_role_type_of(row.role_type).unwrap(),
                activities: spec_split_acts(row.activity_names),
                comments: row.comments,
            },
        )
    }
}

impl Rule {
    /// The stored form of this rule.
    pub fn to_row(&self) -> (row: CsvRow)
        ensures
            row@ == spec_row_of_rule(self@),
    {
        let row = CsvRow {
            guild_id: chars_to_string(&u64_to_dec_chars(self.guild_id)),
            guild_name: self.guild_name.clone(),
            role_id: chars_to_string(&u64_to_dec_chars(self.role_id)),
            role_name: self.role_name.clone(),
            role_type: String::from_str(self.role_type.to_str()),
            activity_names: join_activities(&self.activities),
            comments: self.comments.clone(),
        };
        row
    }

    /// The rule a stored row denotes; storage errors are reported, never
    /// swallowed.
    pub fn from_row(row: CsvRow) -> (r: Result<Rule, LoadError>)
        ensures
            match r {
                Ok(rule) => spec_rule_of_row(row@) == Ok::<RuleView, LoadError>(rule@),
                Err(e) => spec_rule_of_row(row@) == Err::<RuleView, LoadError>(e),
            },
    {
        let gid = match parse_u64_chars(&str_to_chars(row.guild_id.as_str())) {
            Some(g) => g,
            None => {
                return Err(LoadError::InvalidGuildId);
            },
        };
        let role_type = match RoleType::from_str(row.role_type.as_str()) {
            Some(t) => t,
            None => {
                return Err(LoadError::UnknownRoleType);
            },
        };
        let rid = match parse_u64_chars(&str_to_chars(row.role_id.as_str())) {
            Some(g) => g,
            None => {
                return Err(LoadError::InvalidRoleId);
            },
        };
        let activities = split_activities(row.activity_names.as_str());
        let rule = Rule {
            guild_id: gid,
            guild_name: row.guild_name,
            role_id: rid,
            role_name: row.role_name,
            role_type,
            activities,
            comments: row.comments,
        };
        Ok(rule)
    }
}

/// The stored row of a rule reads back as the rule, provided the rule's
/// activity names are clean.
pub proof fn lemma_rule_row_round_trip(rv: RuleView)
    requires
        rv.wf(),
    ensures
        spec_rule_of_row(spec_row_of_rule(rv)) == Ok::<RuleView, LoadError>(rv),
{
    lemma_dec_of_digits(rv.guild_id as nat);
    lemma_dec_of_digits(rv.role_id as nat);
    reveal_strlit("named-activity");
    reveal_strlit("else");
    assert("named-activity"@.len() == 14);
    assert("else"@.len() == 4);
    lemma_split_join(rv.activities);
    let row = spec_row_of_rule(rv);
    assert(spec_parse_u64(row.guild_id) == Some(rv.guild_id));
    assert(spec_parse_u64(row.role_id) == Some(rv.role_id));
    assert(spec_role_type_of(row.role_type) == Some(rv.role_type));
    assert(spec_rule_of_row(row).unwrap() == rv);
}

// ---------------------------------------------------------------------
// The header and whole files.
// ---------------------------------------------------------------------

/// The header record that opens every stored file.
pub open spec fn spec_header_fields() -> Seq<Seq<char>> {
    seq![
        "guild_id"@,
        "guild_name"@,
        "role_id"@,
        "role_name"@,
        "type"@,
        "activity_names"@,
        "comments"@,
    ]
}

/// The header record that opens every stored file.
pub fn header_fields() -> (r: Vec<String>)
    ensures
        r.deep_view() == spec_header_fields(),
{
    let mut r: Vec<String> = Vec::new();
    r.push(String::from_str("guild_id"));
    r.push(String::from_str("guild_name"));
    r.push(String::from_str("role_id"));
    r.push(String::from_str("role_name"));
    r.push(String::from_str("type"));
    r.push(String::from_str("activity_names"));
    r.push(String::from_str("comments"));
    proof {
        assert(r.deep_view() =~= spec_header_fields());
    }
    r
}

/// Whether a record is the expected header.
pub fn is_header(fields: &Vec<String>) -> (r: bool)
    ensures
        r == (fields.deep_view() == spec_header_fields()),
{
    let expected = header_fields();
    if fields.len() != expected.len() {
        proof {
            assert(fields.deep_view().len() == fields@.len());
        }
        return false;
    }
    let mut i: usize = 0;
    while i < fields.len()
        invariant
            0 <= i <= fields@.len(),
            fields@.len() == expected@.len(),
            expected.deep_view() == spec_header_fields(),
            forall|t: int| 0 <= t < i ==> fields.deep_view()[t] == spec_header_fields()[t],
        decreases fields@.len() - i,
    {
        proof {
            assert(fields.deep_view()[i as int] == fields@[i as int]@);
            assert(expected.deep_view()[i as int] == expected@[i as int]@);
        }
        if !str_eq(fields[i].as_str(), expected[i].as_str()) {
            proof {
                assert(fields.deep_view()[i as int] != spec_header_fields()[i as int]);
            }
            return false;
        }
        i += 1;
    }
    proof {
        assert(fields.deep_view() =~= spec_header_fields());
    }
    true
}

/// A row's fields in storage order.
pub fn row_to_fields(row: CsvRow) -> (r: Vec<String>)
    ensures
        r.deep_view() == spec_row_fields(row@),
{
    let mut r: Vec<String> = Vec::new();
    r.push(row.guild_id);
    r.push(row.guild_name);
    r.push(row.role_id);
    r.push(row.role_name);
    r.push(row.role_type);
    r.push(row.activity_names);
    r.push(row.comments);
    proof {
        assert(r.deep_view() =~= spec_row_fields(row@));
    }
    r
}

/// Escaping a single character.
proof fn lemma_escape_single(c: char)
    ensures
        spec_escape(seq![c]) =~= if c == '"' {
            seq!['"', '"']
        } else {
            seq![c]
        },
{
    assert(seq![c].drop_first() =~= Seq::<char>::empty());
    assert(spec_escape(Seq::<char>::empty()) =~= Seq::<char>::empty());
}

/// Appends a field in its written form: quoted, with quotes doubled.
fn encode_field_into(out: &mut String, f: &str)
    ensures
        final(out)@ == old(out)@ + spec_encode_field(f@),
{
    push_char(out, '"');
    let n = f.unicode_len();
    let mut i: usize = 0;
    while i < n
        invariant
            0 <= i <= n,
            n == f@.len(),
            out@ == old(out)@ + seq!['"'] + spec_escape(f@.take(i as int)),
        decreases n - i,
    {
        let c = f.get_char(i);
        if c == '"' {
            push_char(out, '"');
            push_char(out, '"');
        } else {
            push_char(out, c);
        }
        proof {
            lemma_escape_concat(f@.take(i as int), seq![f@[i as int]]);
            lemma_escape_single(f@[i as int]);
            assert(f@.take(i + 1) =~= f@.take(i as int) + seq![f@[i as int]]);
            assert(out@ =~= old(out)@ + seq!['"'] + spec_escape(f@.take(i + 1)));
        }
        i += 1;
    }
    push_char(out, '"');
    proof {
        assert(f@.take(n as int) =~= f@);
        assert(out@ =~= old(out)@ + spec_encode_field(f@));
    }
}

/// Appends the fields from position `i` on, separated by commas.
fn encode_record_from(out: &mut String, fields: &Vec<String>, i: usize)
    requires
        i <= fields@.len(),
    ensures
        final(out)@ == old(out)@ + spec_encode_record(fields.deep_view().skip(i as int)),
    decreases fields@.len() - i,
{
    proof {
        assert(fields.deep_view().len() == fields@.len());
    }
    if i >= fields.len() {
        proof {
            assert(fields.deep_view().skip(i as int).len() == 0);
            assert(out@ =~= out@ + spec_encode_record(fields.deep_view().skip(i as int)));
        }
    } else {
        proof {
            assert(fields.deep_view().skip(i as int)[0] == fields@[i as int]@);
            assert(fields.deep_view().skip(i as int).drop_first() =~= fields.deep_view().skip(
                i + 1,
            ));
        }
        encode_field_into(out, fields[i].as_str());
        if i + 1 < fields.len() {
            push_char(out, ',');
            encode_record_from(out, fields, i + 1);
            proof {
                assert(out@ =~= old(out)@ + spec_encode_record(fields.deep_view().skip(i as int)));
            }
        } else {
            proof {
                assert(fields.deep_view().skip(i as int).len() == 1);
                assert(out@ =~= old(out)@ + spec_encode_record(fields.deep_view().skip(i as int)));
            }
        }
    }
}

/// Appends the records from position `i` on, each followed by a line
/// break.
pub fn encode_table_from(out: &mut String, records: &Vec<Vec<String>>, i: usize)
    requires
        i <= records@.len(),
    ensures
        final(out)@ == old(out)@ + spec_encode_table(records.deep_view().skip(i as int)),
    decreases records@.len() - i,
{
    proof {
        assert(records.deep_view().len() == records@.len());
    }
    if i >= records.len() {
        proof {
            assert(records.deep_view().skip(i as int).len() == 0);
            assert(out@ =~= out@ + spec_encode_table(records.deep_view().skip(i as int)));
        }
    } else {
        proof {
            assert(records.deep_view().skip(i as int)[0] == records@[i as int].deep_view());
            assert(records.deep_view().skip(i as int).drop_first() =~= records.deep_view().skip(
                i + 1,
            ));
            assert(records.deep_view().skip(0) =~= records.deep_view());
        }
        let ghost mid = out@;
        encode_record_from(out, &records[i], 0);
        proof {
            assert(records@[i as int].deep_view().skip(0) =~= records@[i as int].deep_view());
        }
        push_char(out, '\n');
        encode_table_from(out, records, i + 1);
        proof {
            assert(out@ =~= old(out)@ + spec_encode_table(records.deep_view().skip(i as int)));
        }
    }
}

// ---------------------------------------------------------------------
// The reader.
// ---------------------------------------------------------------------

/// Reads a quoted field from position `i0`; the opening quote is already
/// consumed.
fn parse_quoted_chars(chars: &Vec<char>, i0: usize) -> (r: Option<(Vec<char>, usize)>)
    requires
        i0 <= chars@.len(),
    ensures
        match r {
            Some(p) => i0 <= p.1 <= chars@.len() && spec_parse_quoted(
                chars@.skip(i0 as int),
                Seq::empty(),
            ) == Some((p.0@, chars@.skip(p.1 as int))),
            None => spec_parse_quoted(chars@.skip(i0 as int), Seq::empty()) is None,
        },
{
    let mut acc: Vec<char> = Vec::new();
    let mut i: usize = i0;
    loop
        invariant
            i0 <= i <= chars@.len(),
            spec_parse_quoted(chars@.skip(i0 as int), Seq::empty()) == spec_parse_quoted(
                chars@.skip(i as int),
                acc@,
            ),
        decreases chars@.len() - i,
    {
        if i == chars.len() {
            proof {
                assert(chars@.skip(i as int).len() == 0);
            }
            return None;
        }
        proof {
            assert(chars@.skip(i as int)[0] == chars@[i as int]);
            assert(chars@.skip(i as int).skip(1) =~= chars@.skip(i + 1));
            if i + 2 <= chars@.len() {
                assert(chars@.skip(i as int).skip(2) =~= chars@.skip(i + 2));
            }
            if chars@.skip(i as int).len() >= 2 {
                assert(chars@.skip(i as int)[1] == chars@[i + 1]);
            }
        }
        let c = chars[i];
        if c == '"' {
            if i + 1 < chars.len() && chars[i + 1] == '"' {
                acc.push('"');
                i += 2;
            } else {
                return Some((acc, i + 1));
            }
        } else {
            acc.push(c);
            i += 1;
        }
    }
}

/// Reads an unquoted field from position `i0`.
fn parse_unquoted_chars(chars: &Vec<char>, i0: usize) -> (r: (Vec<char>, usize))
    requires
        i0 <= chars@.len(),
    ensures
        i0 <= r.1 <= chars@.len(),
        spec_parse_unquoted(chars@.skip(i0 as int), Seq::empty()) == (r.0@, chars@.skip(
            r.1 as int,
        )),
{
    let mut acc: Vec<char> = Vec::new();
    let mut i: usize = i0;
    loop
        invariant
            i0 <= i <= chars@.len(),
            spec_parse_unquoted(chars@.skip(i0 as int), Seq::empty()) == spec_parse_unquoted(
                chars@.skip(i as int),
                acc@,
            ),
        decreases chars@.len() - i,
    {
        if i == chars.len() {
            proof {
                assert(chars@.skip(i as int).len() == 0);
            }
            return (acc, i);
        }
        proof {
            assert(chars@.skip(i as int)[0] == chars@[i as int]);
            assert(chars@.skip(i as int).skip(1) =~= chars@.skip(i + 1));
        }
        let c = chars[i];
        if c == ',' || c == '\n' {
            return (acc, i);
        }
        acc.push(c);
        i += 1;
    }
}

/// Reads one field from position `i0`.
fn parse_field_chars(chars: &Vec<char>, i0: usize) -> (r: Option<(Vec<char>, usize)>)
    requires
        i0 <= chars@.len(),
    ensures
        match r {
            Some(p) => i0 <= p.1 <= chars@.len() && spec_parse_field(chars@.skip(i0 as int))
                == Some((p.0@, chars@.skip(p.1 as int))),
            None => spec_parse_field(chars@.skip(i0 as int)) is None,
        },
{
    proof {
        if i0 < chars@.len() {
            assert(chars@.skip(i0 as int)[0] == chars@[i0 as int]);
        }
    }
    if i0 < chars.len() && chars[i0] == '"' {
        proof {
            assert(chars@.skip(i0 as int).skip(1) =~= chars@.skip(i0 + 1));
        }
        match parse_quoted_chars(chars, i0 + 1) {
            None => None,
            Some((f, j)) => {
                proof {
                    if j < chars@.len() {
                        assert(chars@.skip(j as int)[0] == chars@[j as int]);
                    } else {
                        assert(chars@.skip(j as int).len() == 0);
                    }
                }
                if j == chars.len() {
                    Some((f, j))
                } else {
                    let c = chars[j];
                    if c == ',' || c == '\n' {
                        Some((f, j))
                    } else {
                        None
                    }
                }
            },
        }
    } else {
        let (f, j) = parse_unquoted_chars(chars, i0);
        Some((f, j))
    }
}

/// Reads one record from position `i0`.
fn parse_record_chars(chars: &Vec<char>, i0: usize) -> (r: Option<(Vec<String>, usize)>)
    requires
        i0 <= chars@.len(),
    ensures
        match r {
            Some(p) => i0 <= p.1 <= chars@.len() && spec_parse_record(chars@.skip(i0 as int))
                == Some((p.0.deep_view(), chars@.skip(p.1 as int))) && (i0 < chars@.len() ==> p.1
                > i0),
            None => spec_parse_record(chars@.skip(i0 as int)) is None,
        },
    decreases chars@.len() - i0,
{
    proof {
        lemma_parse_record_shrinks(chars@.skip(i0 as int));
    }
    match parse_field_chars(chars, i0) {
        None => None,
        Some((f, j)) => {
            proof {
                if j < chars@.len() {
                    assert(chars@.skip(j as int)[0] == chars@[j as int]);
                }
            }
            if j == chars.len() {
                proof {
                    assert(chars@.skip(j as int).len() == 0);
                }
                let mut fields: Vec<String> = Vec::new();
                fields.push(chars_to_string(&f));
                proof {
                    assert(fields.deep_view() =~= seq![f@]);
                }
                Some((fields, j))
            } else if chars[j] == '\n' {
                let mut fields: Vec<String> = Vec::new();
                fields.push(chars_to_string(&f));
                proof {
                    assert(fields.deep_view() =~= seq![f@]);
                    assert(chars@.skip(j as int).skip(1) =~= chars@.skip(j + 1));
                }
                Some((fields, j + 1))
            } else {
                proof {
                    assert(chars@.skip(j as int).skip(1) =~= chars@.skip(j + 1));
                }
                match parse_record_chars(chars, j + 1) {
                    None => None,
                    Some((rest, j2)) => {
                        let mut fields: Vec<String> = Vec::new();
                        fields.push(chars_to_string(&f));
                        let ghost before = fields.deep_view();
                        let mut k: usize = 0;
                        let n = rest.len();
                        let mut rest_vec = rest;
                        while k < n
                            invariant
                                0 <= k <= n,
                                n == rest_vec@.len(),
                                fields.deep_view() =~= seq![f@] + rest_vec.deep_view().take(
                                    k as int,
                                ),
                            decreases n - k,
                        {
                            proof {
                                assert(rest_vec.deep_view()[k as int] == rest_vec@[k as int]@);
                                assert(rest_vec.deep_view().len() == rest_vec@.len());
                                assert(fields.deep_view().len() == fields@.len());
                            }
                            let ghost prev = fields.deep_view();
                            fields.push(rest_vec[k].clone());
                            proof {
                                assert(fields.deep_view().len() == fields@.len());
                                assert forall|t: int| 0 <= t < prev.len() implies fields.deep_view()[t]
                                    == prev[t] by {}
                                assert(fields.deep_view()[prev.len() as int]
                                    == rest_vec.deep_view()[k as int]);
                                let rhs = seq![f@] + rest_vec.deep_view().take(k + 1);
                                assert forall|j: int|
                                    0 <= j < fields.deep_view().len() implies fields.deep_view()[j]
                                    == rhs[j] by {
                                    if j < prev.len() {
                                        assert(fields.deep_view()[j] == prev[j]);
                                        assert(prev[j] == (seq![f@]
                                            + rest_vec.deep_view().take(k as int))[j]);
                                        if j >= 1 {
                                            assert(rest_vec.deep_view().take(k as int)[j - 1]
                                                == rest_vec.deep_view()[j - 1]);
                                            assert(rest_vec.deep_view().take(k + 1)[j - 1]
                                                == rest_vec.deep_view()[j - 1]);
                                        }
                                    } else {
                                        assert(j == prev.len());
                                        assert(rhs[j] == rest_vec.deep_view().take(k + 1)[j - 1]);
                                    }
                                }
                                assert(fields.deep_view() =~= rhs);
                            }
                            k += 1;
                        }
                        proof {
                            assert(rest_vec.deep_view().take(rest_vec.deep_view().len() as int)
                                =~= rest_vec.deep_view());
                            assert(fields.deep_view() =~= seq![f@] + rest_vec.deep_view());
                        }
                        Some((fields, j2))
                    },
                }
            }
        },
    }
}

/// Reads a whole table from position `i0`.
pub fn parse_table_chars(chars: &Vec<char>, i0: usize) -> (r: Option<Vec<Vec<String>>>)
    requires
        i0 <= chars@.len(),
    ensures
        match r {
            Some(t) => spec_parse_table(chars@.skip(i0 as int)) == Some(t.deep_view()),
            None => spec_parse_table(chars@.skip(i0 as int)) is None,
        },
    decreases chars@.len() - i0,
{
    if i0 == chars.len() {
        proof {
            assert(chars@.skip(i0 as int).len() == 0);
        }
        let t: Vec<Vec<String>> = Vec::new();
        proof {
            assert(t.deep_view() =~= Seq::<Seq<Seq<char>>>::empty());
        }
        Some(t)
    } else {
        match parse_record_chars(chars, i0) {
            None => None,
            Some((rec, j)) => {
                match parse_table_chars(chars, j) {
                    None => None,
                    Some(rest) => {
                        let mut t: Vec<Vec<String>> = Vec::new();
                        t.push(rec);
                        let ghost rec_dv = t.deep_view();
                        let n = rest.len();
                        let mut rest_vec = rest;
                        let mut k: usize = 0;
                        while k < n
                            invariant
                                0 <= k <= n,
                                n == rest_vec@.len(),
                                t.deep_view() =~= rec_dv + rest_vec.deep_view().take(k as int),
                                rec_dv.len() == 1,
                            decreases n - k,
                        {
                            proof {
                                assert(rest_vec.deep_view()[k as int] == rest_vec@[k as int].deep_view());
                                assert(rest_vec.deep_view().len() == rest_vec@.len());
                                assert(t.deep_view().len() == t@.len());
                            }
                            let ghost prev = t.deep_view();
                            let mut one: Vec<String> = Vec::new();
                            let m = rest_vec[k].len();
                            let mut q: usize = 0;
                            while q < m
                                invariant
                                    0 <= q <= m,
                                    k < rest_vec@.len(),
                                    m == rest_vec@[k as int]@.len(),
                                    one.deep_view() =~= rest_vec@[k as int].deep_view().take(
                                        q as int,
                                    ),
                                decreases m - q,
                            {
                                proof {
                                    let kk = k as int;
                                    assert(rest_vec@[kk].deep_view()[q as int]
                                        == rest_vec@[kk]@[q as int]@);
                                    assert(one.deep_view().len() == one@.len());
                                }
                                let ghost oprev = one.deep_view();
                                one.push(rest_vec[k][q].clone());
                                proof {
                                    assert forall|t2: int| 0 <= t2 < oprev.len() implies
                                        one.deep_view()[t2] == oprev[t2] by {}
                                    assert(one.deep_view() =~= rest_vec@[k as int].deep_view().take(
                                        q + 1,
                                    ));
                                }
                                q += 1;
                            }
                            proof {
                                assert(rest_vec@[k as int].deep_view().take(
                                    rest_vec@[k as int].deep_view().len() as int,
                                ) =~= rest_vec@[k as int].deep_view());
                            }
                            t.push(one);
                            proof {
                                assert(t.deep_view().len() == t@.len());
                                assert forall|t2: int| 0 <= t2 < prev.len() implies t.deep_view()[t2]
                                    == prev[t2] by {}
                                assert(t.deep_view()[prev.len() as int]
                                    == rest_vec.deep_view()[k as int]);
                                let rhs = rec_dv + rest_vec.deep_view().take(k + 1);
                                assert forall|j: int| 0 <= j < t.deep_view().len() implies t.deep_view()[j]
                                    == rhs[j] by {
                                    if j < prev.len() {
                                        assert(t.deep_view()[j] == prev[j]);
                                        assert(prev[j] == (rec_dv + rest_vec.deep_view().take(
                                            k as int,
                                        ))[j]);
                                        if j >= 1 {
                                            assert(rest_vec.deep_view().take(k as int)[j - 1]
                                                == rest_vec.deep_view()[j - 1]);
                                            assert(rest_vec.deep_view().take(k + 1)[j - 1]
                                                == rest_vec.deep_view()[j - 1]);
                                        }
                                    } else {
                                        assert(j == prev.len());
                                        assert(rhs[j] == rest_vec.deep_view().take(k + 1)[j - 1]);
                                    }
                                }
                                assert(t.deep_view() =~= rhs);
                            }
                            k += 1;
                        }
                        proof {
                            assert(rest_vec.deep_view().take(rest_vec.deep_view().len() as int)
                                =~= rest_vec.deep_view());
                            assert(t.deep_view() =~= seq![rec.deep_view()] + rest_vec.deep_view());
                        }
                        Some(t)
                    },
                }
            },
        }
    }
}



/// A piece of a split never holds the separator.
proof fn lemma_split_go_no_semi_pieces(s: Seq<char>, acc: Seq<char>)
    requires
        forall|j: int| 0 <= j < acc.len() ==> acc[j] != ';',
    ensures
        forall|t: int, j: int|
            0 <= t < spec_split_go(s, acc).len() && 0 <= j < spec_split_go(s, acc)[t].len()
                ==> #[trigger] spec_split_go(s, acc)[t][j] != ';',
    decreases s.len(),
{
    let res = spec_split_go(s, acc);
    if s.len() == 0 {
        assert forall|t: int, j: int|
            0 <= t < res.len() && 0 <= j < res[t].len() implies #[trigger] res[t][j] != ';' by {
            assert(res[t] == acc);
        }
    } else if s[0] == ';' {
        lemma_split_go_no_semi_pieces(s.skip(1), Seq::empty());
        let tail = spec_split_go(s.skip(1), Seq::empty());
        assert forall|t: int, j: int|
            0 <= t < res.len() && 0 <= j < res[t].len() implies #[trigger] res[t][j] != ';' by {
            if t == 0 {
                assert(res[0] == acc);
            } else {
                assert(res[t] == tail[t - 1]);
                assert(tail[t - 1][j] != ';');
            }
        }
    } else {
        assert forall|j: int|
            0 <= j < acc.push(s[0]).len() implies acc.push(s[0])[j] != ';' by {
            if j < acc.len() {
            }
        }
        lemma_split_go_no_semi_pieces(s.skip(1), acc.push(s[0]));
        assert(res == spec_split_go(s.skip(1), acc.push(s[0])));
    }
}

/// Trimming the front keeps the text free of a character and leaves no
/// leading whitespace.
proof fn lemma_trim_front_props(s: Seq<char>)
    ensures
        spec_trim_front(s).len() > 0 ==> !crate::text::is_ws(spec_trim_front(s)[0]),
        (forall|j: int| 0 <= j < s.len() ==> s[j] != ';') ==> forall|j: int|
            0 <= j < spec_trim_front(s).len() ==> spec_trim_front(s)[j] != ';',
    decreases s.len(),
{
    if s.len() > 0 && crate::text::is_ws(s[0]) {
        lemma_trim_front_props(s.skip(1));
        assert forall|j: int| 0 <= j < s.skip(1).len() implies s.skip(1)[j] == s[j + 1] by {}
    }
}

/// Trimming the back yields a prefix with no trailing whitespace.
proof fn lemma_trim_back_props(y: Seq<char>)
    ensures
        spec_trim_back(y).len() > 0 ==> !crate::text::is_ws(spec_trim_back(y).last()),
        spec_trim_back(y).len() <= y.len(),
        forall|j: int| 0 <= j < spec_trim_back(y).len() ==> #[trigger] spec_trim_back(y)[j] == y[j],
    decreases y.len(),
{
    if y.len() > 0 && crate::text::is_ws(y.last()) {
        lemma_trim_back_props(y.drop_last());
    }
}

/// Every activity name read from a field is clean: non-empty, free of the
/// separator, with no whitespace at either end.
pub proof fn lemma_split_acts_clean(s: Seq<char>)
    ensures
        forall|t: int|
            0 <= t < spec_split_acts(s).len() ==> crate::rules::clean_activity(
                #[trigger] spec_split_acts(s)[t],
            ),
{
    lemma_split_go_no_semi_pieces(s, Seq::empty());
    lemma_clean_pieces_clean(spec_split_go(s, Seq::empty()));
}

/// Cleaning separator-free pieces yields clean names.
proof fn lemma_clean_pieces_clean(ps: Seq<Seq<char>>)
    requires
        forall|t: int, j: int|
            0 <= t < ps.len() && 0 <= j < ps[t].len() ==> #[trigger] ps[t][j] != ';',
    ensures
        forall|t: int|
            0 <= t < spec_clean_pieces(ps).len() ==> crate::rules::clean_activity(
                #[trigger] spec_clean_pieces(ps)[t],
            ),
    decreases ps.len(),
{
    if ps.len() > 0 {
        assert forall|t: int, j: int|
            0 <= t < ps.drop_first().len() && 0 <= j < ps.drop_first()[t].len() implies #[trigger] ps.drop_first()[t][j]
            != ';' by {
            assert(ps.drop_first()[t] == ps[t + 1]);
            assert(ps[t + 1][j] != ';');
        }
        lemma_clean_pieces_clean(ps.drop_first());
        let res = spec_clean_pieces(ps);
        let tr = spec_trim(ps[0]);
        if tr.len() > 0 {
            lemma_trim_front_props(ps[0]);
            lemma_trim_back_props(spec_trim_front(ps[0]));
            assert forall|j: int| 0 <= j < ps[0].len() implies ps[0][j] != ';' by {}
            assert(crate::rules::clean_activity(tr)) by {
                assert(tr[0] == spec_trim_front(ps[0])[0]);
                assert(forall|j: int| 0 <= j < tr.len() ==> #[trigger] tr[j] == spec_trim_front(
                    ps[0],
                )[j]);
            }
            assert forall|t: int|
                0 <= t < res.len() implies crate::rules::clean_activity(#[trigger] res[t]) by {
                if t == 0 {
                    assert(res[0] == tr);
                } else {
                    assert(res[t] == spec_clean_pieces(ps.drop_first())[t - 1]);
                }
            }
        } else {
            assert forall|t: int|
                0 <= t < res.len() implies crate::rules::clean_activity(#[trigger] res[t]) by {
                assert(res[t] == spec_clean_pieces(ps.drop_first())[t]);
            }
        }
    }
}

/// A stored row denotes a rule whose activity names are clean.
pub proof fn lemma_rule_of_row_wf(row: CsvRowView)
    ensures
        spec_rule_of_row(row) matches Ok(rv) ==> rv.wf(),
{
    lemma_split_acts_clean(row.activity_names);
}


} // verus!
