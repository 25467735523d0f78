//! The scratchcard solver. Each input line has the shape
//! `Card <id>: <winning numbers> | <attempted numbers>`. Part 1 scores every
//! card by doubling per matched attempt; Part 2 counts cards after forward
//! copy propagation.

use crate::digits::num_val;
use crate::digits::token_good;
use crate::digits::token_value;
use crate::sums::int_sum;
use crate::sums::lemma_int_sum_ge_elem;
use crate::sums::lemma_int_sum_ge_len;
use crate::sums::lemma_int_sum_prefix_le;
use crate::sums::lemma_int_sum_step;
use vstd::prelude::*;

verus! {

/// ASCII whitespace: space, tab, line feed, vertical tab, form feed, carriage
/// return.
pub open spec fn is_space(c: u8) -> bool {
    c == 32 || (9 <= c <= 13)
}

/// Index of the first occurrence of `c` in `s` at or after `from`, or
/// `s.len()` if there is none.
pub open spec fn find_byte(s: Seq<u8>, c: u8, from: int) -> int
    decreases s.len() - from,
{
    if from < 0 || from >= s.len() {
        s.len() as int
    } else if s[from] == c {
        from
    } else {
        find_byte(s, c, from + 1)
    }
}

/// The maximal runs of non-whitespace bytes in `s[i..hi]`, where `run` bytes
/// of a token are already pending just before position `i`.
pub open spec fn token_scan(s: Seq<u8>, hi: int, i: int, run: int) -> Seq<Seq<u8>>
    decreases hi - i,
{
    if i >= hi {
        if run > 0 {
            seq![s.subrange(i - run, i)]
        } else {
            Seq::empty()
        }
    } else if is_space(s[i]) {
        let rest = token_scan(s, hi, i + 1, 0);
        if run > 0 {
            seq![s.subrange(i - run, i)] + rest
        } else {
            rest
        }
    } else {
        token_scan(s, hi, i + 1, run + 1)
    }
}

/// The whitespace-separated tokens of `s[lo..hi]`.
pub open spec fn tokens_of(s: Seq<u8>, lo: int, hi: int) -> Seq<Seq<u8>> {
    token_scan(s, hi, lo, 0)
}

/// Every token is a digit run whose value fits in `u64`.
pub open spec fn tokens_good(ts: Seq<Seq<u8>>) -> bool {
    forall|j: int| 0 <= j < ts.len() ==> token_good(#[trigger] ts[j])
}

/// The numeric values of a list of tokens.
pub open spec fn token_values(ts: Seq<Seq<u8>>) -> Seq<int> {
    ts.map_values(|t: Seq<u8>| num_val(t))
}

/// Position of the `:` that ends the card header.
pub open spec fn colon_pos(line: Seq<u8>) -> int {
    find_byte(line, 58, 0)
}

/// Position of the `|` that separates the two number groups.
pub open spec fn bar_pos(line: Seq<u8>) -> int {
    find_byte(line, 124, colon_pos(line) + 1)
}

/// The winning-number tokens of a card line: between the `:` and the `|`.
pub open spec fn winning_tokens(line: Seq<u8>) -> Seq<Seq<u8>> {
    tokens_of(line, colon_pos(line) + 1, bar_pos(line))
}

/// The attempted-number tokens of a card line: after the `|`.
pub open spec fn attempt_tokens(line: Seq<u8>) -> Seq<Seq<u8>> {
    tokens_of(line, bar_pos(line) + 1, line.len() as int)
}

/// A well-formed card line: it has a `:` followed by a `|`, and every token
/// on either side is a digit run whose value fits in `u64`.
pub open spec fn row_ok(line: Seq<u8>) -> bool {
    &&& colon_pos(line) < line.len()
    &&& bar_pos(line) < line.len()
    &&& tokens_good(winning_tokens(line))
    &&& tokens_good(attempt_tokens(line))
}

/// The winning numbers of a card line.
pub open spec fn winning_values(line: Seq<u8>) -> Seq<int> {
    token_values(winning_tokens(line))
}

/// The attempted numbers of a card line.
pub open spec fn attempt_values(line: Seq<u8>) -> Seq<int> {
    token_values(attempt_tokens(line))
}

/// Finds the first occurrence of byte `c` in `s` at or after `from`.
fn find_b(s: &[u8], c: u8, from: usize) -> (r: usize)
    requires
        from <= s@.len(),
    ensures
        r == find_byte(s@, c, from as int),
        from <= r <= s@.len(),
        r < s@.len() ==> s@[r as int] == c,
{
    let mut i: usize = from;
    while i < s.len()
        invariant
            from <= i <= s@.len(),
            find_byte(s@, c, from as int) == find_byte(s@, c, i as int),
        decreases s@.len() - i,
    {
        if s[i] == c {
            return i;
        }
        i = i + 1;
    }
    i
}

/// Parses every whitespace-separated token of `s[lo..hi]` as a decimal
/// number. Returns the values exactly when every token is a digit run whose
/// value fits in `u64`.
fn parse_tokens(s: &[u8], lo: usize, hi: usize) -> (r: Option<Vec<u64>>)
    requires
        lo <= hi <= s@.len(),
    ensures
        r is Some <==> tokens_good(tokens_of(s@, lo as int, hi as int)),
        r is Some ==> r->0@.map_values(|v: u64| v as int) == token_values(
            tokens_of(s@, lo as int, hi as int),
        ),
{
    let ghost all = tokens_of(s@, lo as int, hi as int);
    let mut vals: Vec<u64> = Vec::new();
    let ghost done: Seq<Seq<u8>> = Seq::empty();
    let mut i: usize = lo;
    let mut run: usize = 0;
    proof {
        assert(all =~= done + token_scan(s@, hi as int, lo as int, 0));
    }
    while i < hi
        invariant
            lo <= i <= hi <= s@.len(),
            run <= i - lo,
            all == tokens_of(s@, lo as int, hi as int),
            all == done + token_scan(s@, hi as int, i as int, run as int),
            tokens_good(done),
            vals@.map_values(|v: u64| v as int) == token_values(done),
        decreases hi - i,
    {
        let c = s[i];
        if is_space_b(c) {
            if run > 0 {
                let ghost t = s@.subrange(i - run, i as int);
                assert(all[done.len() as int] == t);
                match token_value(s, i - run, i) {
                    Some(v) => {
                        vals.push(v);
                        proof {
                            let f = |v: u64| v as int;
                            let g = |t: Seq<u8>| num_val(t);
                            assert(vals@.map_values(f) =~= done.map_values(g).push(num_val(t)));
                            assert(done.push(t).map_values(g) =~= done.map_values(g).push(
                                num_val(t),
                            ));
                        }
                        proof {
                            done = done.push(t);
                        }
                    },
                    None => {
                        assert(!token_good(all[done.len() as int]));
                        return None;
                    },
                }
                run = 0;
            }
        } else {
            run = run + 1;
        }
        i = i + 1;
    }
    if run > 0 {
        let ghost t = s@.subrange(i - run, i as int);
        assert(all[done.len() as int] == t);
        match token_value(s, i - run, i) {
            Some(v) => {
                vals.push(v);
                proof {
                    let f = |v: u64| v as int;
                    let g = |t: Seq<u8>| num_val(t);
                    assert(vals@.map_values(f) =~= done.map_values(g).push(num_val(t)));
                    assert(done.push(t).map_values(g) =~= done.map_values(g).push(num_val(t)));
                }
                proof {
                    done = done.push(t);
                }
            },
            None => {
                assert(!token_good(all[done.len() as int]));
                return None;
            },
        }
    }
    assert(all == done);
    Some(vals)
}

/// Whether `c` is an ASCII whitespace byte.
fn is_space_b(c: u8) -> (r: bool)
    ensures
        r == is_space(c),
{
    c == 32 || (9 <= c && c <= 13)
}

/// Splits one card line at its `:` and `|` and parses both number groups.
/// Returns the two groups exactly when the line is well formed.
pub fn parse_row(row: &[u8]) -> (r: Option<(Vec<u64>, Vec<u64>)>)
    ensures
        r is Some <==> row_ok(row@),
        r is Some ==> (r->0).0@.map_values(|v: u64| v as int) == winning_values(row@),
        r is Some ==> (r->0).1@.map_values(|v: u64| v as int) == attempt_values(row@),
{
    let colon = find_b(row, 58, 0);
    if colon == row.len() {
        return None;
    }
    let bar = find_b(row, 124, colon + 1);
    if bar == row.len() {
        return None;
    }
    let winning = match parse_tokens(row, colon + 1, bar) {
        Some(w) => w,
        None => {
            return None;
        },
    };
    let attempts = match parse_tokens(row, bar + 1, row.len()) {
        Some(a) => a,
        None => {
            return None;
        },
    };
    Some((winning, attempts))
}

/// The lines of `s` from position `i` on, split on line feed; `start` is the
/// position where the current line began.
pub open spec fn line_scan(s: Seq<u8>, i: int, start: int) -> Seq<Seq<u8>>
    decreases s.len() - i,
{
    if i >= s.len() {
        seq![s.subrange(start, s.len() as int)]
    } else if s[i] == 10 {
        seq![s.subrange(start, i)] + line_scan(s, i + 1, i + 1)
    } else {
        line_scan(s, i + 1, start)
    }
}

/// The lines of `s`, split on line feed. A trailing line feed yields a final
/// empty line.
pub open spec fn lines_of(s: Seq<u8>) -> Seq<Seq<u8>> {
    line_scan(s, 0, 0)
}

/// Every line of the input is a well-formed card line.
pub open spec fn cards_ok(s: Seq<u8>) -> bool {
    forall|j: int| 0 <= j < lines_of(s).len() ==> row_ok(#[trigger] lines_of(s)[j])
}

/// The parsed model of the whole input: per line, its winning and attempted
/// numbers.
pub open spec fn cards_model(s: Seq<u8>) -> Seq<(Seq<int>, Seq<int>)> {
    lines_of(s).map_values(|l: Seq<u8>| (winning_values(l), attempt_values(l)))
}

/// The numeric model of one parsed card.
pub open spec fn pair_model(c: (Vec<u64>, Vec<u64>)) -> (Seq<int>, Seq<int>) {
    (c.0@.map_values(|v: u64| v as int), c.1@.map_values(|v: u64| v as int))
}

/// The numeric model of a parsed card list.
pub open spec fn pairs_model(cs: Seq<(Vec<u64>, Vec<u64>)>) -> Seq<(Seq<int>, Seq<int>)> {
    cs.map_values(|c: (Vec<u64>, Vec<u64>)| pair_model(c))
}

/// Parses the whole input, one card per line. Returns the card list exactly
/// when every line is well formed.
pub fn parse(data: &[u8]) -> (r: Option<Vec<(Vec<u64>, Vec<u64>)>>)
    ensures
        r is Some <==> cards_ok(data@),
        r is Some ==> pairs_model((r->0)@) == cards_model(data@),
{
    let ghost all = lines_of(data@);
    let mut out: Vec<(Vec<u64>, Vec<u64>)> = Vec::new();
    let ghost done: Seq<Seq<u8>> = Seq::empty();
    let mut start: usize = 0;
    let mut i: usize = 0;
    proof {
        assert(all =~= done + line_scan(data@, 0, 0));
    }
    while i < data.len()
        invariant
            start <= i <= data@.len(),
            all == lines_of(data@),
            all == done + line_scan(data@, i as int, start as int),
            forall|j: int| 0 <= j < done.len() ==> row_ok(#[trigger] done[j]),
            pairs_model(out@) == done.map_values(
                |l: Seq<u8>| (winning_values(l), attempt_values(l)),
            ),
        decreases data@.len() - i,
    {
        if data[i] == 10 {
            let line = vstd::slice::slice_subrange(data, start, i);
            assert(all[done.len() as int] == line@);
            match parse_row(line) {
                Some(pair) => {
                    out.push(pair);
                    proof {
                        let m = |l: Seq<u8>| (winning_values(l), attempt_values(l));
                        let pm = |c: (Vec<u64>, Vec<u64>)| pair_model(c);
                        assert(out@.map_values(pm) =~= done.map_values(m).push(pair_model(pair)));
                        assert(done.push(line@).map_values(m) =~= done.map_values(m).push(
                            m(line@),
                        ));
                        done = done.push(line@);
                    }
                },
                None => {
                    assert(!row_ok(all[done.len() as int]));
                    return None;
                },
            }
            start = i + 1;
        }
        i = i + 1;
    }
    let line = vstd::slice::slice_subrange(data, start, data.len());
    assert(all[done.len() as int] == line@);
    match parse_row(line) {
        Some(pair) => {
            out.push(pair);
            proof {
                let m = |l: Seq<u8>| (winning_values(l), attempt_values(l));
                let pm = |c: (Vec<u64>, Vec<u64>)| pair_model(c);
                assert(out@.map_values(pm) =~= done.map_values(m).push(pair_model(pair)));
                assert(done.push(line@).map_values(m) =~= done.map_values(m).push(m(line@)));
                done = done.push(line@);
            }
        },
        None => {
            assert(!row_ok(all[done.len() as int]));
            return None;
        },
    }
    assert(all == done);
    assert(cards_model(data@) == done.map_values(|l: Seq<u8>| (winning_values(l), attempt_values(l))));
    Some(out)
}

/// One scratchcard: its winning numbers, its attempted numbers, and the copy
/// counter that Part 2 propagates forward.
pub struct Card {
    pub winning: Vec<u64>,
    pub attempts: Vec<u64>,
    pub copies: u64,
}

/// The number of attempts that also appear among the winning numbers;
/// duplicate matching attempts count once each.
pub open spec fn match_count(winning: Seq<u64>, attempts: Seq<u64>) -> int {
    int_sum(attempts.map_values(|a: u64| if winning.contains(a) { 1int } else { 0int }))
}

/// Whether `x` occurs in `v`.
fn vec_contains(v: &Vec<u64>, x: u64) -> (r: bool)
    ensures
        r == v@.contains(x),
{
    let mut j: usize = 0;
    while j < v.len()
        invariant
            j <= v@.len(),
            forall|k: int| 0 <= k < j ==> v@[k] != x,
        decreases v@.len() - j,
    {
        if v[j] == x {
            return true;
        }
        j = j + 1;
    }
    false
}

/// Counts the attempts that appear among the winning numbers.
pub fn count_matches(winning: &Vec<u64>, attempts: &Vec<u64>) -> (r: usize)
    ensures
        r == match_count(winning@, attempts@),
{
    let ghost terms = attempts@.map_values(|a: u64| if winning@.contains(a) { 1int } else { 0int });
    let mut count: usize = 0;
    let mut j: usize = 0;
    while j < attempts.len()
        invariant
            j <= attempts@.len(),
            terms == attempts@.map_values(
                |a: u64| if winning@.contains(a) { 1int } else { 0int },
            ),
            count <= j,
            count == int_sum(terms.take(j as int)),
        decreases attempts@.len() - j,
    {
        proof {
            lemma_int_sum_step(terms, j as int);
        }
        if vec_contains(winning, attempts[j]) {
            count = count + 1;
        }
        j = j + 1;
    }
    proof {
        assert(terms.take(attempts@.len() as int) =~= terms);
    }
    count
}

/// The match count of one card.
pub fn get_matching_amount(card: &Card) -> (r: usize)
    ensures
        r == match_count(card.winning@, card.attempts@),
{
    count_matches(&card.winning, &card.attempts)
}

/// The Part 1 score of a card with `m` matches: zero when there is no match,
/// else doubling once per further match.
pub open spec fn score(m: int) -> int
    decreases m,
{
    if m <= 0 {
        0
    } else if m == 1 {
        1
    } else {
        2 * score(m - 1)
    }
}

/// Scores are never negative.
pub proof fn lemma_score_nonneg(m: int)
    ensures
        score(m) >= 0,
    decreases m,
{
    if m > 1 {
        lemma_score_nonneg(m - 1);
    }
}

/// More matches never score less.
pub proof fn lemma_score_mono(m1: int, m2: int)
    requires
        m1 <= m2,
    ensures
        score(m1) <= score(m2),
    decreases m2 - m1,
{
    if m1 < m2 {
        lemma_score_mono(m1, m2 - 1);
        lemma_score_nonneg(m2 - 1);
    }
}

/// The doubling score is a power of two: zero matches score nothing, and `m`
/// matches score `2^(m-1)`.
pub proof fn lemma_score_is_pow2(m: int)
    requires
        m >= 1,
    ensures
        score(m) == vstd::arithmetic::power2::pow2((m - 1) as nat),
    decreases m,
{
    if m == 1 {
        vstd::arithmetic::power2::lemma2_to64();
    } else {
        lemma_score_is_pow2(m - 1);
        vstd::arithmetic::power2::lemma_pow2_unfold((m - 1) as nat);
    }
}

/// Computes the doubling score for `m` matches, exactly when it fits in
/// `u64`.
fn score_of_matches(m: usize) -> (r: Option<u64>)
    ensures
        r is Some <==> score(m as int) <= u64::MAX,
        r is Some ==> r->0 == score(m as int),
{
    if m == 0 {
        return Some(0);
    }
    let mut points: u64 = 1;
    let mut k: usize = 1;
    while k < m
        invariant
            1 <= k <= m,
            points == score(k as int),
        decreases m - k,
    {
        points = match points.checked_mul(2) {
            Some(p) => p,
            None => {
                proof {
                    assert(score(k + 1) == 2 * score(k as int));
                    lemma_score_mono(k + 1, m as int);
                }
                return None;
            },
        };
        k = k + 1;
    }
    Some(points)
}

/// The Part 1 score of one card. The score is zero without matches and
/// doubles per further match; `None` exactly when it does not fit in `u64`.
pub fn get_points(card: (Vec<u64>, Vec<u64>)) -> (r: Option<u64>)
    ensures
        r is Some <==> score(match_count(card.0@, card.1@)) <= u64::MAX,
        r is Some ==> r->0 == score(match_count(card.0@, card.1@)),
{
    let m = count_matches(&card.0, &card.1);
    score_of_matches(m)
}

/// The views of a parsed card list.
pub open spec fn pairs_view(cs: Seq<(Vec<u64>, Vec<u64>)>) -> Seq<(Seq<u64>, Seq<u64>)> {
    cs.map_values(|c: (Vec<u64>, Vec<u64>)| (c.0@, c.1@))
}

/// The total Part 1 score of a card list.
pub open spec fn total_score(cards: Seq<(Seq<u64>, Seq<u64>)>) -> int {
    int_sum(cards.map_values(|c: (Seq<u64>, Seq<u64>)| score(match_count(c.0, c.1))))
}

/// Sums the Part 1 scores of all cards. `None` exactly when the total does
/// not fit in `u64`.
pub fn card_part_1(cards: &Vec<(Vec<u64>, Vec<u64>)>) -> (r: Option<u64>)
    ensures
        r is Some <==> total_score(pairs_view(cards@)) <= u64::MAX,
        r is Some ==> r->0 == total_score(pairs_view(cards@)),
{
    let ghost terms = cards@.map_values(
        |c: (Vec<u64>, Vec<u64>)| score(match_count(c.0@, c.1@)),
    );
    proof {
        assert(terms =~= pairs_view(cards@).map_values(
            |c: (Seq<u64>, Seq<u64>)| score(match_count(c.0, c.1)),
        ));
        assert forall|k: int| 0 <= k < terms.len() implies terms[k] >= 0 by {
            lemma_score_nonneg(match_count(cards@[k].0@, cards@[k].1@));
        }
    }
    let mut sum: u64 = 0;
    let mut i: usize = 0;
    while i < cards.len()
        invariant
            i <= cards@.len(),
            terms == cards@.map_values(
                |c: (Vec<u64>, Vec<u64>)| score(match_count(c.0@, c.1@)),
            ),
            forall|k: int| 0 <= k < terms.len() ==> terms[k] >= 0,
            total_score(pairs_view(cards@)) == int_sum(terms),
            sum == int_sum(terms.take(i as int)),
        decreases cards@.len() - i,
    {
        proof {
            lemma_int_sum_step(terms, i as int);
        }
        let pair = &cards[i];
        let m = count_matches(&pair.0, &pair.1);
        let pts = match score_of_matches(m) {
            Some(p) => p,
            None => {
                proof {
                    lemma_int_sum_ge_elem(terms, i as int);
                }
                return None;
            },
        };
        sum = match sum.checked_add(pts) {
            Some(v) => v,
            None => {
                proof {
                    lemma_int_sum_prefix_le(terms, i + 1);
                }
                return None;
            },
        };
        i = i + 1;
    }
    proof {
        assert(terms.take(cards@.len() as int) =~= terms);
    }
    Some(sum)
}

/// Two `u64` sequences with the same integer image are equal.
proof fn lemma_u64_values_injective(a: Seq<u64>, b: Seq<u64>, f: spec_fn(u64) -> int)
    requires
        forall|v: u64| #[trigger] f(v) == v as int,
        a.map_values(f) == b.map_values(f),
    ensures
        a == b,
{
    assert(a.map_values(f).len() == a.len());
    assert(b.map_values(f).len() == b.len());
    assert forall|j: int| 0 <= j < a.len() implies a[j] == b[j] by {
        assert(a.map_values(f)[j] == f(a[j]));
        assert(b.map_values(f)[j] == f(b[j]));
    }
    assert(a =~= b);
}

/// The match count of every card of a parsed list.
pub open spec fn pair_match_counts(ps: Seq<(Seq<u64>, Seq<u64>)>) -> Seq<int> {
    ps.map_values(|c: (Seq<u64>, Seq<u64>)| match_count(c.0, c.1))
}

/// Running the card parser twice on the same input yields the same outcome
/// and the same cards, so both puzzle answers are functions of the input text
/// alone.
pub proof fn lemma_cards_deterministic(
    s: Seq<u8>,
    r1: Option<Vec<(Vec<u64>, Vec<u64>)>>,
    r2: Option<Vec<(Vec<u64>, Vec<u64>)>>,
)
    requires
        r1 is Some <==> cards_ok(s),
        r1 is Some ==> pairs_model((r1->0)@) == cards_model(s),
        r2 is Some <==> cards_ok(s),
        r2 is Some ==> pairs_model((r2->0)@) == cards_model(s),
    ensures
        r1 is Some <==> r2 is Some,
        r1 is Some ==> pairs_view((r1->0)@) == pairs_view((r2->0)@),
        r1 is Some ==> total_score(pairs_view((r1->0)@)) == total_score(pairs_view((r2->0)@)),
        r1 is Some ==> part2_total(pair_match_counts(pairs_view((r1->0)@))) == part2_total(
            pair_match_counts(pairs_view((r2->0)@)),
        ),
{
    if r1 is Some {
        let a = (r1->0)@;
        let b = (r2->0)@;
        assert(pairs_model(a) == pairs_model(b));
        assert(a.len() == b.len());
        let f = |v: u64| v as int;
        assert forall|j: int| 0 <= j < a.len() implies (#[trigger] pairs_view(a)[j]) == pairs_view(
            b,
        )[j] by {
            assert(pairs_model(a)[j] == pairs_model(b)[j]);
            assert(pair_model(a[j]) == pair_model(b[j]));
            assert(a[j].0@.map_values(f) =~= pair_model(a[j]).0);
            assert(b[j].0@.map_values(f) =~= pair_model(b[j]).0);
            assert(a[j].1@.map_values(f) =~= pair_model(a[j]).1);
            assert(b[j].1@.map_values(f) =~= pair_model(b[j]).1);
            lemma_u64_values_injective(a[j].0@, b[j].0@, f);
            lemma_u64_values_injective(a[j].1@, b[j].1@, f);
        }
        assert(pairs_view(a) =~= pairs_view(b));
    }
}

/// The match counts of a card stack.
pub open spec fn match_counts(cards: Seq<Card>) -> Seq<int> {
    cards.map_values(|c: Card| match_count(c.winning@, c.attempts@))
}

/// One propagation step: card `i` adds its copy count to each of the next
/// `m` cards (cards past the end are ignored).
pub open spec fn prop_step(cs: Seq<int>, m: int, i: int) -> Seq<int> {
    Seq::new(cs.len(), |j: int| if i < j <= i + m { cs[j] + cs[i] } else { cs[j] })
}

/// Copy counters after the first `k` cards have propagated, starting from
/// one copy of each card.
pub open spec fn copies_after(ms: Seq<int>, k: int) -> Seq<int>
    decreases k,
{
    if k <= 0 {
        Seq::new(ms.len(), |j: int| 1int)
    } else {
        prop_step(copies_after(ms, k - 1), ms[k - 1], k - 1)
    }
}

/// The copy counters once every card has propagated.
pub open spec fn final_copies(ms: Seq<int>) -> Seq<int> {
    copies_after(ms, ms.len() as int)
}

/// Copy counters keep the stack's length and stay at least one throughout
/// propagation.
pub proof fn lemma_copies_after_ge_one(ms: Seq<int>, k: int)
    requires
        k <= ms.len(),
    ensures
        copies_after(ms, k).len() == ms.len(),
        forall|j: int| 0 <= j < ms.len() ==> copies_after(ms, k)[j] >= 1,
    decreases k,
{
    if k > 0 {
        lemma_copies_after_ge_one(ms, k - 1);
    }
}

/// Propagating further never decreases a counter.
pub proof fn lemma_copies_after_mono(ms: Seq<int>, k1: int, k2: int, j: int)
    requires
        0 <= k1 <= k2 <= ms.len(),
        0 <= j < ms.len(),
    ensures
        copies_after(ms, k1)[j] <= copies_after(ms, k2)[j],
    decreases k2 - k1,
{
    if k1 < k2 {
        lemma_copies_after_mono(ms, k1, k2 - 1, j);
        lemma_copies_after_ge_one(ms, k2 - 1);
    }
}

/// The Part 2 answer for a stack with match counts `ms`: the total of the
/// final copy counters.
pub open spec fn part2_total(ms: Seq<int>) -> int {
    int_sum(final_copies(ms))
}

/// After propagation every card has at least one copy, and the total is at
/// least the number of cards.
pub proof fn lemma_propagation_lower_bounds(ms: Seq<int>)
    ensures
        final_copies(ms).len() == ms.len(),
        forall|j: int| 0 <= j < ms.len() ==> final_copies(ms)[j] >= 1,
        part2_total(ms) >= ms.len(),
{
    lemma_copies_after_ge_one(ms, ms.len() as int);
    lemma_int_sum_ge_len(final_copies(ms));
}

/// Every final copy counter fits in `u64`.
pub open spec fn copies_fit(ms: Seq<int>) -> bool {
    forall|j: int| 0 <= j < ms.len() ==> final_copies(ms)[j] <= u64::MAX
}

/// Builds one card per parsed line, each with a single copy.
pub fn make_cards(parsed: Vec<(Vec<u64>, Vec<u64>)>) -> (cards: Vec<Card>)
    ensures
        cards@.len() == parsed@.len(),
        forall|j: int|
            0 <= j < cards@.len() ==> (#[trigger] cards@[j]).winning@ == parsed@[j].0@
                && cards@[j].attempts@ == parsed@[j].1@ && cards@[j].copies == 1,
{
    let ghost orig = parsed@;
    let mut rest = parsed;
    let mut cards: Vec<Card> = Vec::new();
    while rest.len() > 0
        invariant
            cards@.len() + rest@.len() == orig.len(),
            forall|j: int| 0 <= j < rest@.len() ==> #[trigger] rest@[j] == orig[cards@.len() + j],
            forall|j: int|
                0 <= j < cards@.len() ==> (#[trigger] cards@[j]).winning@ == orig[j].0@
                    && cards@[j].attempts@ == orig[j].1@ && cards@[j].copies == 1,
        decreases rest@.len(),
    {
        let pair = rest.remove(0);
        cards.push(Card { winning: pair.0, attempts: pair.1, copies: 1 });
    }
    cards
}

/// Runs the forward copy propagation over a fresh stack: in input order,
/// each card adds its own copy count to the next match-count many cards.
/// Returns the updated stack exactly when every final counter fits in `u64`;
/// the cards' numbers are untouched.
pub fn propagate_copies(cards: Vec<Card>) -> (r: Option<Vec<Card>>)
    requires
        forall|j: int| 0 <= j < cards@.len() ==> cards@[j].copies == 1,
    ensures
        r is Some <==> copies_fit(match_counts(cards@)),
        r is Some ==> (r->0)@.len() == cards@.len(),
        r is Some ==> forall|j: int|
            0 <= j < cards@.len() ==> (#[trigger] (r->0)@[j]).winning@ == cards@[j].winning@
                && (r->0)@[j].attempts@ == cards@[j].attempts@ && (r->0)@[j].copies
                == final_copies(match_counts(cards@))[j],
{
    let ghost ms = match_counts(cards@);
    let n = cards.len();
    let mut mvec: Vec<usize> = Vec::new();
    let mut t: usize = 0;
    while t < n
        invariant
            t <= n,
            n == cards@.len(),
            ms == match_counts(cards@),
            mvec@.len() == t,
            forall|j: int| 0 <= j < t ==> mvec@[j] == ms[j],
        decreases n - t,
    {
        let c = &cards[t];
        mvec.push(count_matches(&c.winning, &c.attempts));
        t = t + 1;
    }
    let mut copies: Vec<u64> = Vec::new();
    let mut t2: usize = 0;
    while t2 < n
        invariant
            t2 <= n,
            copies@.len() == t2,
            forall|j: int| 0 <= j < t2 ==> copies@[j] == 1,
        decreases n - t2,
    {
        copies.push(1);
        t2 = t2 + 1;
    }
    proof {
        lemma_copies_after_ge_one(ms, 0);
    }
    let mut i: usize = 0;
    while i < n
        invariant
            i <= n,
            n == cards@.len(),
            ms == match_counts(cards@),
            ms.len() == n,
            mvec@.len() == n,
            forall|j: int| 0 <= j < n ==> mvec@[j] == ms[j],
            copies@.len() == n,
            forall|j: int| 0 <= j < n ==> copies@[j] == copies_after(ms, i as int)[j],
        decreases n - i,
    {
        proof {
            lemma_copies_after_ge_one(ms, i as int);
        }
        let mult = copies[i];
        let m = mvec[i];
        let mut k: usize = 1;
        while k <= m && k < n - i
            invariant
                1 <= k,
                i < n,
                n == ms.len(),
                n == cards@.len(),
                ms == match_counts(cards@),
                copies@.len() == n,
                mvec@.len() == n,
                mvec@[i as int] == ms[i as int],
                m == ms[i as int],
                mult == copies_after(ms, i as int)[i as int],
                k <= m + 1,
                i + k <= n,
                forall|j: int|
                    0 <= j < n ==> copies@[j] == (if i < j < i + k && j <= i + ms[i as int] {
                        copies_after(ms, i as int)[j] + copies_after(ms, i as int)[i as int]
                    } else {
                        copies_after(ms, i as int)[j]
                    }),
            decreases n - i - k,
        {
            let idx = i + k;
            proof {
                lemma_copies_after_ge_one(ms, i as int);
                lemma_copies_after_ge_one(ms, (i + 1) as int);
            }
            let c0 = copies[idx];
            proof {
                assert(c0 == copies_after(ms, i as int)[idx as int]);
                assert(copies_after(ms, (i + 1) as int) == prop_step(
                    copies_after(ms, i as int),
                    ms[i as int],
                    i as int,
                ));
                assert(copies_after(ms, (i + 1) as int)[idx as int] == copies_after(
                    ms,
                    i as int,
                )[idx as int] + copies_after(ms, i as int)[i as int]);
            }
            let v = match c0.checked_add(mult) {
                Some(v) => v,
                None => {
                    proof {
                        lemma_copies_after_mono(ms, (i + 1) as int, ms.len() as int, idx as int);
                        assert(final_copies(ms)[idx as int] > u64::MAX);
                    }
                    return None;
                },
            };
            copies[idx] = v;
            k = k + 1;
        }
        proof {
            lemma_copies_after_ge_one(ms, i as int);
            lemma_copies_after_ge_one(ms, (i + 1) as int);
            assert forall|j: int| 0 <= j < n implies copies@[j] == copies_after(
                ms,
                (i + 1) as int,
            )[j] by {
                assert(copies_after(ms, (i + 1) as int) == prop_step(
                    copies_after(ms, i as int),
                    ms[i as int],
                    i as int,
                ));
            }
        }
        i = i + 1;
    }
    let ghost orig = cards@;
    let mut rest = cards;
    let mut rebuilt: Vec<Card> = Vec::new();
    while rest.len() > 0
        invariant
            rebuilt@.len() + rest@.len() == orig.len(),
            n == orig.len(),
            ms == match_counts(orig),
            copies@.len() == n,
            forall|j: int| 0 <= j < n ==> copies@[j] == final_copies(ms)[j],
            forall|j: int| 0 <= j < rest@.len() ==> #[trigger] rest@[j] == orig[rebuilt@.len() + j],
            forall|j: int|
                0 <= j < rebuilt@.len() ==> (#[trigger] rebuilt@[j]).winning@ == orig[j].winning@
                    && rebuilt@[j].attempts@ == orig[j].attempts@ && rebuilt@[j].copies
                    == final_copies(ms)[j],
        decreases rest@.len(),
    {
        let idx = rebuilt.len();
        let card = rest.remove(0);
        let cnt = copies[idx];
        rebuilt.push(Card { winning: card.winning, attempts: card.attempts, copies: cnt });
    }
    Some(rebuilt)
}

/// The total number of cards, counting copies.
pub open spec fn copies_total(cards: Seq<Card>) -> int {
    int_sum(cards.map_values(|c: Card| c.copies as int))
}

/// Sums the copy counters of all cards. `None` exactly when the total does
/// not fit in `u64`.
pub fn count_cards(cards: Vec<Card>) -> (r: Option<u64>)
    ensures
        r is Some <==> copies_total(cards@) <= u64::MAX,
        r is Some ==> r->0 == copies_total(cards@),
{
    let ghost terms = cards@.map_values(|c: Card| c.copies as int);
    let mut sum: u64 = 0;
    let mut i: usize = 0;
    while i < cards.len()
        invariant
            i <= cards@.len(),
            terms == cards@.map_values(|c: Card| c.copies as int),
            sum == int_sum(terms.take(i as int)),
        decreases cards@.len() - i,
    {
        proof {
            lemma_int_sum_step(terms, i as int);
        }
        let c = cards[i].copies;
        sum = match sum.checked_add(c) {
            Some(v) => v,
            None => {
                proof {
                    assert(forall|k: int| 0 <= k < terms.len() ==> terms[k] >= 0);
                    lemma_int_sum_prefix_le(terms, i + 1);
                }
                return None;
            },
        };
        i = i + 1;
    }
    proof {
        assert(terms.take(cards@.len() as int) =~= terms);
    }
    Some(sum)
}

/// The Part 2 answer: propagates copies forward, then counts every card.
/// `None` exactly when the total does not fit in `u64`.
pub fn card_part_2(cards: Vec<Card>) -> (r: Option<u64>)
    requires
        forall|j: int| 0 <= j < cards@.len() ==> cards@[j].copies == 1,
    ensures
        r is Some <==> part2_total(match_counts(cards@)) <= u64::MAX,
        r is Some ==> r->0 == part2_total(match_counts(cards@)),
{
    let ghost cview = cards@;
    let ghost ms = match_counts(cards@);
    proof {
        lemma_propagation_lower_bounds(ms);
    }
    let propagated = match propagate_copies(cards) {
        Some(p) => p,
        None => {
            proof {
                let j = choose|j: int| 0 <= j < ms.len() && final_copies(ms)[j] > u64::MAX;
                lemma_int_sum_ge_elem(final_copies(ms), j);
            }
            return None;
        },
    };
    proof {
        assert forall|j: int| 0 <= j < propagated@.len() implies propagated@.map_values(
            |c: Card| c.copies as int,
        )[j] == final_copies(ms)[j] by {
            assert(propagated@[j].winning@ == cview[j].winning@);
        }
        assert(propagated@.map_values(|c: Card| c.copies as int) =~= final_copies(ms));
    }
    count_cards(propagated)
}

} // verus!
