//! The greedy tokenizer: consumes the digit string from the front, always
//! trying the longest window first (four digits, or fewer when fewer
//! remain), shrinking the window by one digit on a miss, and drawing one
//! candidate word at random for each matched group.
//!
//! Which group is matched at each step is a function of the dictionary and
//! the input alone (`greedy_groups`); only the choice among a group's
//! candidates is random.

use vstd::prelude::*;
use crate::all_digits;
use crate::is_digit;
use crate::rows_view;
use crate::copy_range;
use crate::dict::Dict;
use crate::dict::group_code;

verus! {

/// The dictionary offers at least one word for this digit group.
pub open spec fn group_hit(m: Map<int, Seq<Seq<u8>>>, g: Seq<u8>) -> bool {
    m.contains_key(group_code(g)) && m[group_code(g)].len() > 0
}

/// The longest hit among the prefixes of `s` of length `n` down to 1;
/// zero when every one of them misses.
pub open spec fn try_len(m: Map<int, Seq<Seq<u8>>>, s: Seq<u8>, n: int) -> int
    decreases n,
{
    if n <= 0 {
        0
    } else if group_hit(m, s.take(n)) {
        n
    } else {
        try_len(m, s, n - 1)
    }
}

/// The widest window the tokenizer may try: four digits, or the whole
/// remainder when it is shorter.
pub open spec fn window(s: Seq<u8>) -> int {
    if s.len() < 4 {
        s.len() as int
    } else {
        4
    }
}

/// The length the greedy step matches at the front of `s`; zero when no
/// prefix of length one to `window(s)` is in the dictionary.
pub open spec fn match_len(m: Map<int, Seq<Seq<u8>>>, s: Seq<u8>) -> int {
    try_len(m, s, window(s))
}

/// `try_len` is zero or a length within the window it was asked about.
pub proof fn lemma_try_len_bounds(m: Map<int, Seq<Seq<u8>>>, s: Seq<u8>, n: int)
    ensures
        try_len(m, s, n) == 0 || 1 <= try_len(m, s, n) <= n,
    decreases n,
{
    if n <= 0 {
    } else if group_hit(m, s.take(n)) {
    } else {
        lemma_try_len_bounds(m, s, n - 1);
    }
}

/// When even the one-digit prefix is in the dictionary, `try_len` never
/// reaches zero.
pub proof fn lemma_try_len_pos(m: Map<int, Seq<Seq<u8>>>, s: Seq<u8>, n: int)
    requires
        n >= 1,
        group_hit(m, s.take(1)),
    ensures
        try_len(m, s, n) >= 1,
    decreases n,
{
    if n == 1 {
    } else if group_hit(m, s.take(n)) {
    } else {
        lemma_try_len_pos(m, s, n - 1);
    }
}

/// The greedy walk consumes all of `s`: at every step some prefix of the
/// current remainder is in the dictionary.
pub open spec fn resolvable(m: Map<int, Seq<Seq<u8>>>, s: Seq<u8>) -> bool
    decreases s.len(),
{
    if s.len() == 0 {
        true
    } else if match_len(m, s) <= 0 {
        false
    } else {
        proof {
            lemma_try_len_bounds(m, s, window(s));
        }
        resolvable(m, s.skip(match_len(m, s)))
    }
}

/// The digit groups the greedy walk consumes, in order, for as long as it
/// can go on.
pub open spec fn greedy_groups(m: Map<int, Seq<Seq<u8>>>, s: Seq<u8>) -> Seq<Seq<u8>>
    decreases s.len(),
{
    if s.len() == 0 || match_len(m, s) <= 0 {
        Seq::empty()
    } else {
        proof {
            lemma_try_len_bounds(m, s, window(s));
        }
        seq![s.take(match_len(m, s))] + greedy_groups(m, s.skip(match_len(m, s)))
    }
}

/// The digit on which the greedy walk gets stuck, when it does: the first
/// digit of the remainder for which not even the one-digit group is in
/// the dictionary.
pub open spec fn stuck_digit(m: Map<int, Seq<Seq<u8>>>, s: Seq<u8>) -> u8
    decreases s.len(),
{
    if s.len() == 0 {
        0
    } else if match_len(m, s) <= 0 {
        s[0]
    } else {
        proof {
            lemma_try_len_bounds(m, s, window(s));
        }
        stuck_digit(m, s.skip(match_len(m, s)))
    }
}

/// The concatenation of a sequence of digit groups.
pub open spec fn concat_groups(gs: Seq<Seq<u8>>) -> Seq<u8>
    decreases gs.len(),
{
    if gs.len() == 0 {
        Seq::empty()
    } else {
        gs[0] + concat_groups(gs.drop_first())
    }
}

/// Resolution failed: no group of one to four digits at the front of some
/// remainder was in the dictionary.  The digit named is the one for which
/// not even a single-digit entry exists.
#[derive(Clone, Copy, Debug, PartialEq, Eq, Structural)]
pub enum ResolveError {
    UnmappedDigit(u8),
}

/// Relies on rand::random_range: a value drawn uniformly from the given
/// range, so on the non-empty range `0..n` the result is below `n`.
#[verifier::external_body]
fn random_below(n: usize) -> (r: usize)
    requires
        n > 0,
    ensures
        r < n,
{
    rand::random_range(0..n)
}

/// Finds the greedy match at position `pos`: the longest prefix of the
/// remainder, at most four digits, that the dictionary maps to a
/// non-empty candidate list.
fn find_match<'a>(digits: &Vec<u8>, pos: usize, dict: &'a Dict) -> (r: Option<
    (usize, &'a Vec<Vec<u8>>),
>)
    requires
        pos < digits@.len(),
        all_digits(digits@),
    ensures
        match r {
            Some(p) => ({
                let suffix = digits@.skip(pos as int);
                &&& 1 <= p.0 <= 4
                &&& pos + p.0 <= digits@.len()
                &&& match_len(dict@, suffix) == p.0
                &&& group_hit(dict@, suffix.take(p.0 as int))
                &&& rows_view(p.1@) == dict@[group_code(suffix.take(p.0 as int))]
                &&& p.1@.len() > 0
            }),
            None => match_len(dict@, digits@.skip(pos as int)) == 0,
        },
{
    let ghost m = dict@;
    let ghost suffix = digits@.skip(pos as int);
    let rem = digits.len() - pos;
    let mut n: usize = if rem < 4 { rem } else { 4 };
    proof {
        assert(window(suffix) == n as int);
    }
    loop
        invariant
            1 <= n,
            n as int <= window(suffix),
            pos < digits@.len(),
            all_digits(digits@),
            m == dict@,
            suffix == digits@.skip(pos as int),
            try_len(m, suffix, window(suffix)) == try_len(m, suffix, n as int),
        decreases n,
    {
        let ghost g = suffix.take(n as int);
        proof {
            assert(g =~= digits@.subrange(pos as int, (pos + n) as int));
            assert(all_digits(digits@.subrange(pos as int, (pos + n) as int)));
        }
        let code = crate::dict::encode_group(digits, pos, n);
        match dict.lookup_code(code) {
            Some(v) => {
                if v.len() > 0 {
                    proof {
                        assert(group_hit(m, g));
                        assert(try_len(m, suffix, n as int) == n as int);
                    }
                    return Some((n, v));
                }
            },
            None => {},
        }
        proof {
            assert(!group_hit(m, g));
            assert(try_len(m, suffix, n as int) == try_len(m, suffix, n as int - 1));
        }
        if n == 1 {
            proof {
                assert(try_len(m, suffix, 0) == 0);
            }
            return None;
        }
        n = n - 1;
    }
}

/// Converts a digit string to words: repeatedly matches the longest
/// dictionary prefix of at most four digits at the front, appends one of
/// its candidate words chosen at random, and consumes the matched digits.
/// The sequence of matched groups is fixed by the dictionary and the
/// input; only the word chosen within each group varies between runs.
pub fn resolve(digits: &Vec<u8>, dict: &Dict) -> (r: Result<Vec<Vec<u8>>, ResolveError>)
    requires
        all_digits(digits@),
    ensures
        r is Ok <==> resolvable(dict@, digits@),
        r matches Ok(out) ==> ({
            let gs = greedy_groups(dict@, digits@);
            &&& out@.len() == gs.len()
            &&& forall|i: int|
                0 <= i < gs.len() ==> dict@[group_code(gs[i])].contains(#[trigger] out@[i]@)
            &&& concat_groups(gs) == digits@
            &&& 4 * out@.len() >= digits@.len()
            &&& digits@.len() > 0 ==> out@.len() >= 1
        }),
        r matches Err(e) ==> e == ResolveError::UnmappedDigit(stuck_digit(dict@, digits@)),
{
    let ghost m = dict@;
    let ghost s = digits@;
    let ghost gs_all = greedy_groups(m, s);
    let mut out: Vec<Vec<u8>> = Vec::new();
    let mut pos: usize = 0;
    proof {
        assert(s.skip(0) =~= s);
    }
    while pos < digits.len()
        invariant
            0 <= pos <= digits@.len(),
            all_digits(digits@),
            m == dict@,
            s == digits@,
            gs_all == greedy_groups(m, s),
            resolvable(m, s) <==> resolvable(m, s.skip(pos as int)),
            !resolvable(m, s.skip(pos as int)) ==> stuck_digit(m, s) == stuck_digit(
                m,
                s.skip(pos as int),
            ),
            resolvable(m, s) ==> ({
                &&& out@.len() <= gs_all.len()
                &&& greedy_groups(m, s.skip(pos as int)) == gs_all.skip(out@.len() as int)
            }),
            resolvable(m, s) ==> forall|i: int|
                0 <= i < out@.len() ==> m[group_code(gs_all[i])].contains(#[trigger] out@[i]@),
        decreases digits@.len() - pos,
    {
        let ghost suffix = s.skip(pos as int);
        match find_match(digits, pos, dict) {
            Some(p) => {
                let (n, v) = p;
                let ghost g = suffix.take(n as int);
                let j = random_below(v.len());
                let word = copy_range(&v[j], 0, v[j].len());
                proof {
                    assert(word@ =~= v@[j as int]@);
                    assert(rows_view(v@)[j as int] == v@[j as int]@);
                    assert(m[group_code(g)].contains(word@));
                    // one greedy step at the current remainder
                    assert(suffix.skip(n as int) =~= s.skip(pos as int + n as int));
                    assert(resolvable(m, suffix) == resolvable(m, s.skip(pos as int + n as int)));
                    if !resolvable(m, s.skip(pos as int + n as int)) {
                        assert(stuck_digit(m, suffix) == stuck_digit(
                            m,
                            s.skip(pos as int + n as int),
                        ));
                    }
                    if resolvable(m, s) {
                        assert(greedy_groups(m, suffix) == seq![g] + greedy_groups(
                            m,
                            suffix.skip(n as int),
                        ));
                        assert(gs_all.skip(out@.len() as int) == seq![g] + greedy_groups(
                            m,
                            s.skip(pos as int + n as int),
                        ));
                        assert(gs_all.skip(out@.len() as int)[0] == g);
                        assert(gs_all[out@.len() as int] == g);
                        assert(out@.len() < gs_all.len());
                        assert((seq![g] + greedy_groups(m, s.skip(pos as int + n as int)))
                            .drop_first() =~= greedy_groups(m, s.skip(pos as int + n as int)));
                        assert(gs_all.skip(out@.len() as int).drop_first() =~= gs_all.skip(
                            out@.len() as int + 1,
                        ));
                    }
                }
                out.push(word);
                pos = pos + n;
            },
            None => {
                proof {
                    assert(suffix.len() > 0);
                    assert(!resolvable(m, suffix));
                    assert(stuck_digit(m, suffix) == suffix[0]);
                    assert(suffix[0] == s[pos as int]);
                }
                return Err(ResolveError::UnmappedDigit(digits[pos]));
            },
        }
    }
    proof {
        assert(s.skip(pos as int) =~= Seq::<u8>::empty());
        assert(resolvable(m, s.skip(pos as int)));
        assert(resolvable(m, s));
        assert(greedy_groups(m, s.skip(pos as int)) =~= Seq::<Seq<u8>>::empty());
        assert(gs_all.skip(out@.len() as int).len() == 0);
        assert(out@.len() == gs_all.len());
        lemma_groups_cover_input(m, s);
        lemma_group_count_bound(m, s);
    }
    Ok(out)
}

/// The dictionary has at least one word for every single digit.
pub open spec fn covers_single_digits(m: Map<int, Seq<Seq<u8>>>) -> bool {
    forall|b: u8| is_digit(b) ==> group_hit(m, seq![b])
}

/// Each step of the greedy walk consumes exactly the matched group, one
/// to four digits long, leaving a strictly shorter remainder; the walk's
/// first group is that match and the rest is the walk of the remainder.
pub proof fn lemma_consumption(m: Map<int, Seq<Seq<u8>>>, s: Seq<u8>)
    requires
        s.len() > 0,
        resolvable(m, s),
    ensures
        1 <= match_len(m, s) <= 4,
        match_len(m, s) <= s.len(),
        s.skip(match_len(m, s)).len() == s.len() - match_len(m, s),
        greedy_groups(m, s) == seq![s.take(match_len(m, s))] + greedy_groups(
            m,
            s.skip(match_len(m, s)),
        ),
{
    lemma_try_len_bounds(m, s, window(s));
}

/// The groups of a completed greedy walk concatenate back to the whole
/// input: nothing is skipped, duplicated or reordered.
pub proof fn lemma_groups_cover_input(m: Map<int, Seq<Seq<u8>>>, s: Seq<u8>)
    requires
        resolvable(m, s),
    ensures
        concat_groups(greedy_groups(m, s)) == s,
    decreases s.len(),
{
    if s.len() == 0 {
        assert(concat_groups(greedy_groups(m, s)) =~= s);
    } else {
        let n = match_len(m, s);
        lemma_try_len_bounds(m, s, window(s));
        lemma_groups_cover_input(m, s.skip(n));
        assert((seq![s.take(n)] + greedy_groups(m, s.skip(n))).drop_first() =~= greedy_groups(
            m,
            s.skip(n),
        ));
        assert(s.take(n) + s.skip(n) =~= s);
    }
}

/// A completed greedy walk over a non-empty input yields at least one
/// group, and at least one group for every four digits: the word count is
/// at least the length of the input divided by four, rounded up.
pub proof fn lemma_group_count_bound(m: Map<int, Seq<Seq<u8>>>, s: Seq<u8>)
    requires
        resolvable(m, s),
    ensures
        4 * greedy_groups(m, s).len() >= s.len(),
        s.len() > 0 ==> greedy_groups(m, s).len() >= 1,
    decreases s.len(),
{
    if s.len() == 0 {
    } else {
        let n = match_len(m, s);
        lemma_try_len_bounds(m, s, window(s));
        lemma_group_count_bound(m, s.skip(n));
    }
}

/// A dictionary that maps every single digit guarantees the greedy walk
/// never gets stuck, whatever multi-digit groups it lacks.
pub proof fn lemma_single_digit_fallback(m: Map<int, Seq<Seq<u8>>>, s: Seq<u8>)
    requires
        covers_single_digits(m),
        all_digits(s),
    ensures
        resolvable(m, s),
    decreases s.len(),
{
    if s.len() == 0 {
    } else {
        assert(s.take(1) =~= seq![s[0]]);
        assert(is_digit(s[0]));
        assert(group_hit(m, seq![s[0]]));
        lemma_try_len_pos(m, s, window(s));
        lemma_try_len_bounds(m, s, window(s));
        let n = match_len(m, s);
        assert(all_digits(s.skip(n)));
        lemma_single_digit_fallback(m, s.skip(n));
    }
}

/// Over a dictionary that maps every single digit, resolution of any
/// non-empty digit string succeeds and yields at least one word, and at
/// least one word for every four digits of input.
pub proof fn lemma_totality(m: Map<int, Seq<Seq<u8>>>, s: Seq<u8>)
    requires
        covers_single_digits(m),
        all_digits(s),
        s.len() > 0,
    ensures
        resolvable(m, s),
        greedy_groups(m, s).len() >= 1,
        4 * greedy_groups(m, s).len() >= s.len(),
{
    lemma_single_digit_fallback(m, s);
    lemma_group_count_bound(m, s);
}

/// The words joined with single spaces between them.
pub open spec fn joined(ws: Seq<Seq<u8>>) -> Seq<u8>
    decreases ws.len(),
{
    if ws.len() == 0 {
        Seq::empty()
    } else if ws.len() == 1 {
        ws[0]
    } else {
        joined(ws.drop_last()) + seq![32u8] + ws.last()
    }
}

/// Joins the words with single spaces, in order.
pub fn join_words(words: &Vec<Vec<u8>>) -> (r: Vec<u8>)
    ensures
        r@ == joined(rows_view(words@)),
{
    let ghost ws = rows_view(words@);
    let mut r: Vec<u8> = Vec::new();
    let mut i: usize = 0;
    while i < words.len()
        invariant
            0 <= i <= words@.len(),
            ws == rows_view(words@),
            r@ == joined(ws.take(i as int)),
        decreases words@.len() - i,
    {
        if i > 0 {
            r.push(32);
        }
        let ghost prev = r@;
        let w = &words[i];
        let mut j: usize = 0;
        while j < w.len()
            invariant
                0 <= j <= w@.len(),
                r@ == prev + w@.take(j as int),
            decreases w@.len() - j,
        {
            r.push(w[j]);
            j = j + 1;
        }
        proof {
            assert(r@ =~= prev + w@);
            assert(ws.take(i as int + 1).drop_last() =~= ws.take(i as int));
            assert(ws.take(i as int + 1).last() == w@);
            if i == 0 {
                assert(joined(ws.take(1)) == w@);
                assert(r@ =~= w@);
            } else {
                assert(joined(ws.take(i as int + 1)) == joined(ws.take(i as int)) + seq![32u8]
                    + w@);
            }
            assert(r@ == joined(ws.take(i as int + 1)));
        }
        i = i + 1;
    }
    proof {
        assert(ws.take(words@.len() as int) =~= ws);
    }
    r
}

} // verus!
