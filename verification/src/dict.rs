//! The dictionary: digit groups of one to four digits, each mapping to the
//! ordered list of candidate words read from the word file.
//!
//! A digit group keeps its leading zeros, so it is identified by its length
//! together with its numeric value; `group_code` folds both into one integer
//! key, under which the candidate lists are stored in a hash table.

use vstd::prelude::*;
use std::collections::HashMap;
use crate::all_digits;
use crate::digit_val;
use crate::is_digit;
use crate::copy_range;
use crate::rows_view;

verus! {

broadcast use vstd::std_specs::hash::group_hash_axioms;

/// A digit group: one to four ASCII digit bytes.
pub open spec fn valid_group(g: Seq<u8>) -> bool {
    1 <= g.len() <= 4 && all_digits(g)
}

/// Ten to the power `n`.
pub open spec fn pow10(n: nat) -> int
    decreases n,
{
    if n == 0 {
        1
    } else {
        10 * pow10((n - 1) as nat)
    }
}

/// The base-ten value of a digit sequence, leading zeros allowed.
pub open spec fn digits_value(g: Seq<u8>) -> int
    decreases g.len(),
{
    if g.len() == 0 {
        0
    } else {
        digits_value(g.drop_last()) * 10 + digit_val(g.last())
    }
}

/// The integer key of a digit group: the length in the high digits, the
/// numeric value below.  Distinct groups get distinct codes, so `"01"`,
/// `"1"` and `"10"` are three different keys.
pub open spec fn group_code(g: Seq<u8>) -> int {
    g.len() * 10000 + digits_value(g)
}

/// The integer is the code of some digit group.
pub open spec fn is_group_code(c: int) -> bool {
    exists|g: Seq<u8>| valid_group(g) && group_code(g) == c
}

/// The candidate list under a code, empty when the code is unmapped.
pub open spec fn words_at(m: Map<int, Seq<Seq<u8>>>, c: int) -> Seq<Seq<u8>> {
    if m.contains_key(c) {
        m[c]
    } else {
        Seq::empty()
    }
}

pub proof fn lemma_pow10_small()
    ensures
        pow10(0) == 1,
        pow10(1) == 10,
        pow10(2) == 100,
        pow10(3) == 1000,
        pow10(4) == 10000,
{
    reveal_with_fuel(pow10, 5);
}

/// A sequence of digits has a value below ten to its length.
pub proof fn lemma_digits_value_bounds(g: Seq<u8>)
    requires
        all_digits(g),
    ensures
        0 <= digits_value(g) < pow10(g.len()),
    decreases g.len(),
{
    if g.len() == 0 {
    } else {
        assert(all_digits(g.drop_last()));
        lemma_digits_value_bounds(g.drop_last());
        assert(is_digit(g.last()));
    }
}

/// Digit sequences of equal length with equal values are equal.
proof fn lemma_digits_value_injective(g1: Seq<u8>, g2: Seq<u8>)
    requires
        all_digits(g1),
        all_digits(g2),
        g1.len() == g2.len(),
        digits_value(g1) == digits_value(g2),
    ensures
        g1 == g2,
    decreases g1.len(),
{
    if g1.len() == 0 {
        assert(g1 =~= g2);
    } else {
        assert(all_digits(g1.drop_last()));
        assert(all_digits(g2.drop_last()));
        lemma_digits_value_bounds(g1.drop_last());
        lemma_digits_value_bounds(g2.drop_last());
        assert(is_digit(g1.last()));
        assert(is_digit(g2.last()));
        assert(digit_val(g1.last()) == digit_val(g2.last()) && digits_value(g1.drop_last())
            == digits_value(g2.drop_last()));
        lemma_digits_value_injective(g1.drop_last(), g2.drop_last());
        assert(g1.last() == g2.last());
        assert forall|i: int| 0 <= i < g1.len() implies g1[i] == g2[i] by {
            if i < g1.len() - 1 {
                assert(g1[i] == g1.drop_last()[i]);
                assert(g2[i] == g2.drop_last()[i]);
            } else {
                assert(g1[i] == g1.last());
                assert(g2[i] == g2.last());
            }
        }
        assert(g1 =~= g2);
    }
}

/// Distinct digit groups get distinct codes: the integer key stands
/// faithfully for the digit string, leading zeros included.
pub proof fn lemma_group_code_injective(g1: Seq<u8>, g2: Seq<u8>)
    requires
        valid_group(g1),
        valid_group(g2),
        group_code(g1) == group_code(g2),
    ensures
        g1 == g2,
{
    lemma_digits_value_bounds(g1);
    lemma_digits_value_bounds(g2);
    lemma_pow10_small();
    assert(pow10(g1.len()) <= 10000);
    assert(pow10(g2.len()) <= 10000);
    assert(g1.len() == g2.len());
    lemma_digits_value_injective(g1, g2);
}

/// Computes the code of the digit group `v[start..start + len]`.
pub(crate) fn encode_group(v: &Vec<u8>, start: usize, len: usize) -> (code: u64)
    requires
        1 <= len <= 4,
        start + len <= v@.len(),
        all_digits(v@.subrange(start as int, (start + len) as int)),
    ensures
        code as int == group_code(v@.subrange(start as int, (start + len) as int)),
{
    let ghost g = v@.subrange(start as int, (start + len) as int);
    let total = v.len();
    let mut acc: u64 = 0;
    let mut i: usize = 0;
    while i < len
        invariant
            0 <= i <= len,
            1 <= len <= 4,
            total == v@.len(),
            start + len <= v@.len(),
            g == v@.subrange(start as int, (start + len) as int),
            all_digits(g),
            acc as int == digits_value(g.take(i as int)),
        decreases len - i,
    {
        let b = v[start + i];
        proof {
            assert(g[i as int] == v@[(start + i) as int]);
            assert(is_digit(b));
            assert(all_digits(g.take(i as int)));
            lemma_digits_value_bounds(g.take(i as int));
            lemma_pow10_small();
            assert(pow10(i as nat) <= 1000);
        }
        acc = acc * 10 + ((b - 48) as u64);
        i = i + 1;
        proof {
            assert(g.take(i as int).drop_last() =~= g.take(i as int - 1));
            assert(g.take(i as int).last() == g[i as int - 1]);
        }
    }
    proof {
        assert(g.take(len as int) =~= g);
        lemma_digits_value_bounds(g);
        lemma_pow10_small();
    }
    (len as u64) * 10000 + acc
}

/// Checks that a byte vector is a digit group of one to four digits.
pub fn check_group(v: &Vec<u8>) -> (r: bool)
    ensures
        r == valid_group(v@),
{
    if v.len() < 1 || v.len() > 4 {
        return false;
    }
    let mut i: usize = 0;
    while i < v.len()
        invariant
            0 <= i <= v@.len(),
            forall|j: int| 0 <= j < i ==> is_digit(v@[j]),
        decreases v@.len() - i,
    {
        if !crate::byte_is_digit(v[i]) {
            return false;
        }
        i = i + 1;
    }
    true
}

/// The dictionary: every digit group maps to the ordered list of its
/// candidate words.  Its view is the map from group codes to word lists.
pub struct Dict {
    table: HashMap<u64, Vec<Vec<u8>>>,
}

impl View for Dict {
    type V = Map<int, Seq<Seq<u8>>>;

    closed spec fn view(&self) -> Map<int, Seq<Seq<u8>>> {
        Map::new(
            |c: int| 0 <= c <= u64::MAX && self.table@.contains_key(c as u64),
            |c: int| rows_view(self.table@[c as u64]@),
        )
    }
}

impl Dict {
    /// Every key is the code of a digit group and every candidate list is
    /// non-empty.
    pub open spec fn wf(&self) -> bool {
        forall|c: int|
            #[trigger] self@.contains_key(c) ==> is_group_code(c) && self@[c].len() > 0
    }

    /// The empty dictionary.
    pub fn new() -> (d: Dict)
        ensures
            d@ == Map::<int, Seq<Seq<u8>>>::empty(),
            d.wf(),
    {
        let d = Dict { table: HashMap::new() };
        proof {
            assert(d@ =~= Map::<int, Seq<Seq<u8>>>::empty());
        }
        d
    }

    /// Appends one candidate word to the list of the given digit group,
    /// keeping the earlier candidates in order.
    pub fn insert_word(&mut self, group: &Vec<u8>, word: Vec<u8>)
        requires
            valid_group(group@),
        ensures
            final(self)@ == old(self)@.insert(
                group_code(group@),
                words_at(old(self)@, group_code(group@)).push(word@),
            ),
            old(self).wf() ==> final(self).wf(),
    {
        let ghost gc = group_code(group@);
        let code = encode_group(group, 0, group.len());
        proof {
            assert(group@.subrange(0, group@.len() as int) =~= group@);
        }
        let mut list: Vec<Vec<u8>> = match self.table.remove(&code) {
            Some(l) => l,
            None => Vec::new(),
        };
        let ghost old_words = words_at(old(self)@, gc);
        proof {
            assert(rows_view(list@) =~= old_words);
        }
        list.push(word);
        proof {
            assert(rows_view(list@) =~= old_words.push(word@));
        }
        self.table.insert(code, list);
        proof {
            assert(self@ =~= old(self)@.insert(gc, old_words.push(word@)));
            if old(self).wf() {
                assert(valid_group(group@) && group_code(group@) == gc);
                assert(is_group_code(gc));
                assert forall|c: int| #[trigger] self@.contains_key(c) implies is_group_code(c)
                    && self@[c].len() > 0 by {
                    if c != gc {
                        assert(old(self)@.contains_key(c));
                    }
                }
            }
        }
    }

    /// Looks a code up in the table.
    pub fn lookup_code(&self, code: u64) -> (r: Option<&Vec<Vec<u8>>>)
        ensures
            match r {
                Some(v) => self@.contains_key(code as int) && rows_view(v@) == self@[code as int],
                None => !self@.contains_key(code as int),
            },
    {
        self.table.get(&code)
    }

    /// The candidate words of one digit group, in insertion order.
    pub fn lookup(&self, group: &Vec<u8>) -> (r: Option<&Vec<Vec<u8>>>)
        requires
            valid_group(group@),
        ensures
            match r {
                Some(v) => ({
                    &&& self@.contains_key(group_code(group@))
                    &&& rows_view(v@) == self@[group_code(group@)]
                }),
                None => !self@.contains_key(group_code(group@)),
            },
    {
        let code = encode_group(group, 0, group.len());
        proof {
            assert(group@.subrange(0, group@.len() as int) =~= group@);
        }
        self.lookup_code(code)
    }
}

/// ASCII whitespace, the field separator of the word file.
pub open spec fn is_space(b: u8) -> bool {
    b == 32 || 9 <= b <= 13
}

/// Whether a byte is ASCII whitespace.
pub fn byte_is_space(b: u8) -> (r: bool)
    ensures
        r == is_space(b),
{
    b == 32 || (9 <= b && b <= 13)
}

/// Index of the first byte at or after `i` that is not whitespace.
pub open spec fn scan_non_space(s: Seq<u8>, i: int) -> int
    decreases s.len() - i
        when 0 <= i <= s.len()
{
    if i >= s.len() || !is_space(s[i]) {
        i
    } else {
        scan_non_space(s, i + 1)
    }
}

/// Index of the first whitespace byte at or after `i`.
pub open spec fn scan_token(s: Seq<u8>, i: int) -> int
    decreases s.len() - i
        when 0 <= i <= s.len()
{
    if i >= s.len() || is_space(s[i]) {
        i
    } else {
        scan_token(s, i + 1)
    }
}

/// What is wrong with one line of the word file.
#[derive(Clone, Copy, Debug, PartialEq, Eq, Structural)]
pub enum LineError {
    /// The line holds one field, or more than two.
    NotTwoFields,
    /// The first field is not a group of one to four digits.
    KeyNotGroup,
}

/// What one line of the word file means: nothing (a blank line), an entry
/// of digit group and word, or an error.  A line must hold exactly two
/// whitespace-separated fields, the first a digit group of one to four
/// digits; a line of nothing but whitespace is ignored; any other shape
/// fails the load.
pub open spec fn parse_line_spec(line: Seq<u8>) -> Result<Option<(Seq<u8>, Seq<u8>)>, LineError> {
    let a = scan_non_space(line, 0);
    let b = scan_token(line, a);
    let c = scan_non_space(line, b);
    let d = scan_token(line, c);
    let e = scan_non_space(line, d);
    if a >= line.len() {
        Ok(None)
    } else if c >= line.len() || e < line.len() {
        Err(LineError::NotTwoFields)
    } else if !valid_group(line.subrange(a, b)) {
        Err(LineError::KeyNotGroup)
    } else {
        Ok(Some((line.subrange(a, b), line.subrange(c, d))))
    }
}

/// Scans forward to the first non-whitespace byte at or after `from`.
fn find_non_space(line: &Vec<u8>, from: usize) -> (r: usize)
    requires
        from <= line@.len(),
    ensures
        r as int == scan_non_space(line@, from as int),
        from <= r <= line@.len(),
{
    let mut i: usize = from;
    while i < line.len()
        invariant
            from <= i <= line@.len(),
            scan_non_space(line@, from as int) == scan_non_space(line@, i as int),
        decreases line@.len() - i,
    {
        if !byte_is_space(line[i]) {
            return i;
        }
        i = i + 1;
    }
    i
}

/// Scans forward to the first whitespace byte at or after `from`.
fn find_token_end(line: &Vec<u8>, from: usize) -> (r: usize)
    requires
        from <= line@.len(),
    ensures
        r as int == scan_token(line@, from as int),
        from <= r <= line@.len(),
{
    let mut i: usize = from;
    while i < line.len()
        invariant
            from <= i <= line@.len(),
            scan_token(line@, from as int) == scan_token(line@, i as int),
        decreases line@.len() - i,
    {
        if byte_is_space(line[i]) {
            return i;
        }
        i = i + 1;
    }
    i
}

/// Splits one line of the word file into its digit group and its word.
pub fn parse_line(line: &Vec<u8>) -> (r: Result<Option<(Vec<u8>, Vec<u8>)>, LineError>)
    ensures
        match r {
            Ok(kw) => match kw {
                Some(p) => parse_line_spec(line@) == Ok::<Option<(Seq<u8>, Seq<u8>)>, LineError>(
                    Some((p.0@, p.1@)),
                ),
                None => parse_line_spec(line@) == Ok::<Option<(Seq<u8>, Seq<u8>)>, LineError>(None),
            },
            Err(e) => parse_line_spec(line@) == Err::<Option<(Seq<u8>, Seq<u8>)>, LineError>(e),
        },
{
    let a = find_non_space(line, 0);
    if a == line.len() {
        return Ok(None);
    }
    let b = find_token_end(line, a);
    let c = find_non_space(line, b);
    if c == line.len() {
        return Err(LineError::NotTwoFields);
    }
    let d = find_token_end(line, c);
    let e = find_non_space(line, d);
    if e < line.len() {
        return Err(LineError::NotTwoFields);
    }
    let key = copy_range(line, a, b);
    if !check_group(&key) {
        return Err(LineError::KeyNotGroup);
    }
    let word = copy_range(line, c, d);
    Ok(Some((key, word)))
}

/// Why a word file failed to load: the first offending line and its fault.
#[derive(Clone, Copy, Debug, PartialEq, Eq, Structural)]
pub struct LoadError {
    pub line: usize,
    pub kind: LineError,
}

/// The dictionary contents described by the lines of a word file, entries
/// applied in file order, blank lines ignored, unparseable lines skipped.
pub open spec fn load_map(lines: Seq<Seq<u8>>) -> Map<int, Seq<Seq<u8>>>
    decreases lines.len(),
{
    if lines.len() == 0 {
        Map::empty()
    } else {
        let m = load_map(lines.drop_last());
        match parse_line_spec(lines.last()) {
            Ok(kw) => match kw {
                Some(p) => m.insert(group_code(p.0), words_at(m, group_code(p.0)).push(p.1)),
                None => m,
            },
            Err(_) => m,
        }
    }
}

/// The line is blank or a well-formed entry.
pub open spec fn line_ok(l: Seq<u8>) -> bool {
    parse_line_spec(l) is Ok
}

/// Builds the dictionary from the lines of a word file, preserving file
/// order among words that share a digit group.  Fails on the first line
/// that is not blank and not a well-formed entry.
pub fn load_dict(lines: &Vec<Vec<u8>>) -> (r: Result<Dict, LoadError>)
    ensures
        match r {
            Ok(d) => ({
                &&& forall|j: int| 0 <= j < lines@.len() ==> #[trigger] line_ok(lines@[j]@)
                &&& d@ == load_map(rows_view(lines@))
                &&& d.wf()
            }),
            Err(e) => ({
                &&& e.line < lines@.len()
                &&& parse_line_spec(lines@[e.line as int]@) == Err::<
                    Option<(Seq<u8>, Seq<u8>)>,
                    LineError,
                >(e.kind)
                &&& forall|j: int| 0 <= j < e.line ==> #[trigger] line_ok(lines@[j]@)
            }),
        },
{
    let mut d = Dict::new();
    proof {
        assert(d@ =~= load_map(rows_view(lines@).take(0)));
    }
    let mut i: usize = 0;
    while i < lines.len()
        invariant
            0 <= i <= lines@.len(),
            forall|j: int| 0 <= j < i ==> #[trigger] line_ok(lines@[j]@),
            d@ == load_map(rows_view(lines@).take(i as int)),
            d.wf(),
        decreases lines@.len() - i,
    {
        let ghost rows = rows_view(lines@);
        proof {
            assert(rows.take(i as int + 1).drop_last() =~= rows.take(i as int));
            assert(rows.take(i as int + 1).last() == lines@[i as int]@);
        }
        match parse_line(&lines[i]) {
            Ok(Some(kw)) => {
                let (key, word) = kw;
                d.insert_word(&key, word);
                proof {
                    assert(d@ =~= load_map(rows.take(i as int + 1)));
                }
            },
            Ok(None) => {
                proof {
                    assert(d@ =~= load_map(rows.take(i as int + 1)));
                }
            },
            Err(kind) => {
                return Err(LoadError { line: i, kind });
            },
        }
        i = i + 1;
    }
    proof {
        assert(rows_view(lines@).take(lines@.len() as int) =~= rows_view(lines@));
    }
    Ok(d)
}

} // verus!
