//! The engine-schematic solver. The input is a 2-D character grid: runs of
//! digits form numbers, and any other character that is not a period or
//! whitespace is a symbol. Part 1 sums the numbers adjacent to a symbol;
//! Part 2 sums the products at `*` symbols adjacent to exactly two numbers.

use crate::digits::all_digits;
use crate::digits::is_digit;
use crate::digits::lemma_num_val_bounds;
use crate::digits::num_val;
use crate::digits::pow10;
use crate::digits::token_value;
use crate::sums::int_sum;
use crate::sums::lemma_int_sum_prefix_le;
use crate::sums::lemma_int_sum_step;
use vstd::prelude::*;

verus! {

/// One cell of the grid: column `x`, row `y`, both zero-based.
#[derive(Clone, Copy, Debug, PartialEq, Eq, Structural)]
pub struct Coord {
    pub x: usize,
    pub y: usize,
}

/// One symbol: its cell and its character.
#[derive(Clone, Copy, Debug, PartialEq, Eq, Structural)]
pub struct Symbol {
    pub pos: Coord,
    pub ch: u8,
}

/// One number of the schematic: its value and the cells its digits occupy.
pub struct Number {
    pub value: u64,
    pub cells: Vec<Coord>,
}

/// The mathematical model of a schematic number; the value is unbounded so
/// that the model covers digit runs wider than any machine integer.
pub struct NumberModel {
    pub value: int,
    pub cells: Seq<Coord>,
}

impl Number {
    /// The model of this number.
    pub open spec fn model(&self) -> NumberModel {
        NumberModel { value: self.value as int, cells: self.cells@ }
    }
}

/// The models of a list of numbers.
pub open spec fn number_models(ns: Seq<Number>) -> Seq<NumberModel> {
    ns.map_values(|n: Number| n.model())
}

/// Blank characters inside a row: whitespace other than the line feed.
pub open spec fn is_blank(c: u8) -> bool {
    c == 32 || c == 9 || c == 11 || c == 12 || c == 13
}

/// A symbol character: neither a digit, nor a period, nor whitespace.
pub open spec fn is_symbol_char(c: u8) -> bool {
    !is_digit(c) && c != 46 && c != 10 && !is_blank(c)
}

/// The number ending just before position `i`, at column `x` of row `y`, if
/// `run` digit bytes are pending; empty otherwise.
pub open spec fn flush(s: Seq<u8>, i: int, x: int, y: int, run: int) -> Seq<NumberModel> {
    if run > 0 {
        seq![
            NumberModel {
                value: num_val(s.subrange(i - run, i)),
                cells: Seq::new(
                    run as nat,
                    |k: int| Coord { x: (x - run + k) as usize, y: y as usize },
                ),
            },
        ]
    } else {
        Seq::empty()
    }
}

/// Scans the grid text from position `i` at column `x` of row `y`, with `run`
/// pending digit bytes, and yields all numbers and symbols in input order.
pub open spec fn grid_scan(s: Seq<u8>, i: int, x: int, y: int, run: int) -> (Seq<NumberModel>, Seq<
    Symbol,
>)
    decreases s.len() - i,
{
    if i >= s.len() {
        (flush(s, i, x, y, run), Seq::empty())
    } else if s[i] == 10 {
        let rest = grid_scan(s, i + 1, 0, y + 1, 0);
        (flush(s, i, x, y, run) + rest.0, rest.1)
    } else if is_digit(s[i]) {
        grid_scan(s, i + 1, x + 1, y, run + 1)
    } else {
        let rest = grid_scan(s, i + 1, x + 1, y, 0);
        let syms = if is_symbol_char(s[i]) {
            seq![Symbol { pos: Coord { x: x as usize, y: y as usize }, ch: s[i] }] + rest.1
        } else {
            rest.1
        };
        (flush(s, i, x, y, run) + rest.0, syms)
    }
}

/// The numbers of the schematic text.
pub open spec fn spec_numbers(s: Seq<u8>) -> Seq<NumberModel> {
    grid_scan(s, 0, 0, 0, 0).0
}

/// The symbols of the schematic text.
pub open spec fn spec_symbols(s: Seq<u8>) -> Seq<Symbol> {
    grid_scan(s, 0, 0, 0, 0).1
}

/// Every number's value fits in `u64`.
pub open spec fn values_fit(ns: Seq<NumberModel>) -> bool {
    forall|j: int| 0 <= j < ns.len() ==> #[trigger] ns[j].value <= u64::MAX
}

/// A parsed schematic: all numbers and all symbols in input order.
pub struct Schematic {
    pub numbers: Vec<Number>,
    pub symbols: Vec<Symbol>,
}

/// Appends the pending digit run, if any, as one number ending just before
/// position `i` at column `x` of row `y`. Fails exactly when the run's value
/// does not fit in `u64`.
fn flush_run(s: &[u8], i: usize, x: usize, y: usize, run: usize, numbers: &mut Vec<Number>) -> (ok:
    bool)
    requires
        run <= x <= i <= s@.len(),
        all_digits(s@.subrange(i - run, i as int)),
    ensures
        ok <==> values_fit(flush(s@, i as int, x as int, y as int, run as int)),
        ok ==> number_models(final(numbers)@) == number_models(old(numbers)@) + flush(
            s@,
            i as int,
            x as int,
            y as int,
            run as int,
        ),
        !ok ==> final(numbers)@ == old(numbers)@,
{
    let ghost fl = flush(s@, i as int, x as int, y as int, run as int);
    if run == 0 {
        proof {
            assert(number_models(numbers@) =~= number_models(numbers@) + fl);
        }
        return true;
    }
    match token_value(s, i - run, i) {
        None => {
            assert(fl[0].value > u64::MAX);
            false
        },
        Some(v) => {
            let mut cells: Vec<Coord> = Vec::new();
            let mut k: usize = 0;
            while k < run
                invariant
                    k <= run <= x,
                    cells@.len() == k,
                    forall|t: int|
                        0 <= t < k ==> #[trigger] cells@[t] == (Coord {
                            x: (x - run + t) as usize,
                            y,
                        }),
                decreases run - k,
            {
                cells.push(Coord { x: x - run + k, y });
                k = k + 1;
            }
            proof {
                assert(cells@ =~= fl[0].cells);
            }
            numbers.push(Number { value: v, cells });
            proof {
                assert(number_models(numbers@) =~= number_models(old(numbers)@) + fl);
            }
            true
        },
    }
}

/// Parses the schematic text into its numbers and symbols. Returns the
/// schematic exactly when every number's value fits in `u64`.
pub fn parse_schematic(s: &[u8]) -> (r: Option<Schematic>)
    ensures
        r is Some <==> values_fit(spec_numbers(s@)),
        r is Some ==> number_models((r->0).numbers@) == spec_numbers(s@),
        r is Some ==> (r->0).symbols@ == spec_symbols(s@),
{
    let mut numbers: Vec<Number> = Vec::new();
    let mut symbols: Vec<Symbol> = Vec::new();
    let ghost done_n: Seq<NumberModel> = Seq::empty();
    let ghost done_s: Seq<Symbol> = Seq::empty();
    let mut i: usize = 0;
    let mut x: usize = 0;
    let mut y: usize = 0;
    let mut run: usize = 0;
    proof {
        assert(spec_numbers(s@) =~= done_n + grid_scan(s@, 0, 0, 0, 0).0);
        assert(spec_symbols(s@) =~= done_s + grid_scan(s@, 0, 0, 0, 0).1);
    }
    while i < s.len()
        invariant
            run <= x <= i <= s@.len(),
            y <= i,
            all_digits(s@.subrange(i - run, i as int)),
            spec_numbers(s@) == done_n + grid_scan(s@, i as int, x as int, y as int, run as int).0,
            spec_symbols(s@) == done_s + grid_scan(s@, i as int, x as int, y as int, run as int).1,
            values_fit(done_n),
            number_models(numbers@) == done_n,
            symbols@ == done_s,
        decreases s@.len() - i,
    {
        let c = s[i];
        let ghost rest = grid_scan(s@, i as int, x as int, y as int, run as int);
        let ghost fl = flush(s@, i as int, x as int, y as int, run as int);
        if c == 10 {
            if !flush_run(s, i, x, y, run, &mut numbers) {
                proof {
                    let bad = choose|j: int| 0 <= j < fl.len() && fl[j].value > u64::MAX;
                    assert(spec_numbers(s@)[done_n.len() + bad].value > u64::MAX);
                }
                return None;
            }
            proof {
                done_n = done_n + fl;
            }
            x = 0;
            y = y + 1;
            run = 0;
            proof {
                assert(s@.subrange(i + 1 - 0, i + 1 as int) =~= Seq::<u8>::empty());
            }
        } else if 48 <= c && c <= 57 {
            proof {
                assert forall|t: int| 0 <= t < run + 1 implies is_digit(
                    #[trigger] s@.subrange(i - run, i + 1 as int)[t],
                ) by {
                    if t < run {
                        assert(s@.subrange(i - run, i + 1 as int)[t] == s@.subrange(
                            i - run,
                            i as int,
                        )[t]);
                    }
                }
            }
            x = x + 1;
            run = run + 1;
        } else {
            if !flush_run(s, i, x, y, run, &mut numbers) {
                proof {
                    let bad = choose|j: int| 0 <= j < fl.len() && fl[j].value > u64::MAX;
                    assert(spec_numbers(s@)[done_n.len() + bad].value > u64::MAX);
                }
                return None;
            }
            proof {
                done_n = done_n + fl;
            }
            if !(c == 46 || c == 32 || c == 9 || c == 11 || c == 12 || c == 13) {
                let sym = Symbol { pos: Coord { x, y }, ch: c };
                symbols.push(sym);
                proof {
                    let tail = grid_scan(s@, i + 1, x + 1, y as int, 0).1;
                    assert((done_s + seq![sym]) + tail =~= done_s + (seq![sym] + tail));
                    assert(symbols@ =~= done_s + seq![sym]);
                    done_s = done_s + seq![sym];
                }
            }
            x = x + 1;
            run = 0;
            proof {
                assert(s@.subrange(i + 1 - 0, i + 1 as int) =~= Seq::<u8>::empty());
            }
        }
        i = i + 1;
    }
    let ghost fl = flush(s@, i as int, x as int, y as int, run as int);
    if !flush_run(s, i, x, y, run, &mut numbers) {
        proof {
            let bad = choose|j: int| 0 <= j < fl.len() && fl[j].value > u64::MAX;
            assert(spec_numbers(s@)[done_n.len() + bad].value > u64::MAX);
        }
        return None;
    }
    proof {
        done_n = done_n + fl;
        assert(spec_numbers(s@) =~= done_n);
        assert(spec_symbols(s@) =~= done_s);
    }
    Some(Schematic { numbers, symbols })
}

/// Two cells touch when both coordinates differ by at most one; a cell
/// touches itself.
pub open spec fn spec_touches(a: Coord, b: Coord) -> bool {
    -1 <= a.x - b.x <= 1 && -1 <= a.y - b.y <= 1
}

/// Whether two cells touch (8-neighbourhood, including equality).
pub fn touches(a: Coord, b: Coord) -> (r: bool)
    ensures
        r == spec_touches(a, b),
{
    let dx = if a.x >= b.x {
        a.x - b.x
    } else {
        b.x - a.x
    };
    let dy = if a.y >= b.y {
        a.y - b.y
    } else {
        b.y - a.y
    };
    dx <= 1 && dy <= 1
}

/// A number touches a cell when one of its digit cells does.
pub open spec fn number_touches(n: NumberModel, p: Coord) -> bool {
    exists|k: int| 0 <= k < n.cells.len() && spec_touches(n.cells[k], p)
}

/// A number is adjacent to at least one symbol.
pub open spec fn touches_any_symbol(n: NumberModel, syms: Seq<Symbol>) -> bool {
    exists|j: int| 0 <= j < syms.len() && number_touches(n, syms[j].pos)
}

/// Whether number `n` touches the cell `p`.
fn number_touches_cell(n: &Number, p: Coord) -> (r: bool)
    ensures
        r == number_touches(n.model(), p),
{
    let mut k: usize = 0;
    while k < n.cells.len()
        invariant
            k <= n.cells@.len(),
            forall|t: int| 0 <= t < k ==> !spec_touches(n.cells@[t], p),
        decreases n.cells@.len() - k,
    {
        if touches(n.cells[k], p) {
            assert(spec_touches(n.model().cells[k as int], p));
            return true;
        }
        k = k + 1;
    }
    false
}

/// Whether number `n` touches any of the symbols.
fn touches_some_symbol(n: &Number, symbols: &Vec<Symbol>) -> (r: bool)
    ensures
        r == touches_any_symbol(n.model(), symbols@),
{
    let mut j: usize = 0;
    while j < symbols.len()
        invariant
            j <= symbols@.len(),
            forall|t: int| 0 <= t < j ==> !number_touches(n.model(), symbols@[t].pos),
        decreases symbols@.len() - j,
    {
        if number_touches_cell(n, symbols[j].pos) {
            return true;
        }
        j = j + 1;
    }
    false
}

/// The Part 1 sum: the values of all numbers adjacent to at least one
/// symbol, each counted exactly once however many symbols it touches.
pub open spec fn part1_sum(ns: Seq<NumberModel>, syms: Seq<Symbol>) -> int {
    int_sum(
        ns.map_values(|n: NumberModel| if touches_any_symbol(n, syms) {
            n.value
        } else {
            0int
        }),
    )
}

/// Sums the values of all numbers adjacent to a symbol. `None` exactly when
/// the sum does not fit in `u64`.
pub fn schematic_part_1(sch: &Schematic) -> (r: Option<u64>)
    ensures
        r is Some <==> part1_sum(number_models(sch.numbers@), sch.symbols@) <= u64::MAX,
        r is Some ==> r->0 == part1_sum(number_models(sch.numbers@), sch.symbols@),
{
    let ghost ms = number_models(sch.numbers@);
    let ghost terms = ms.map_values(
        |n: NumberModel| if touches_any_symbol(n, sch.symbols@) {
            n.value
        } else {
            0int
        },
    );
    let mut sum: u64 = 0;
    let mut i: usize = 0;
    while i < sch.numbers.len()
        invariant
            i <= sch.numbers@.len(),
            ms == number_models(sch.numbers@),
            terms == ms.map_values(
                |n: NumberModel| if touches_any_symbol(n, sch.symbols@) {
                    n.value
                } else {
                    0int
                },
            ),
            forall|k: int| 0 <= k < terms.len() ==> terms[k] >= 0,
            sum == int_sum(terms.take(i as int)),
        decreases sch.numbers@.len() - i,
    {
        proof {
            lemma_int_sum_step(terms, i as int);
        }
        let n = &sch.numbers[i];
        if touches_some_symbol(n, &sch.symbols) {
            sum = match sum.checked_add(n.value) {
                Some(v) => v,
                None => {
                    proof {
                        lemma_int_sum_prefix_le(terms, i + 1);
                    }
                    return None;
                },
            };
        }
        i = i + 1;
    }
    proof {
        assert(terms.take(sch.numbers@.len() as int) =~= terms);
    }
    Some(sum)
}

/// The values of the numbers touching cell `p`, in input order.
pub open spec fn touch_vals(ns: Seq<NumberModel>, p: Coord) -> Seq<int>
    decreases ns.len(),
{
    if ns.len() == 0 {
        Seq::empty()
    } else {
        let rest = touch_vals(ns.drop_last(), p);
        if number_touches(ns.last(), p) {
            rest.push(ns.last().value)
        } else {
            rest
        }
    }
}

/// The gear contribution of one symbol: the product of the two adjacent
/// number values when the symbol is a `*` adjacent to exactly two numbers,
/// and zero otherwise.
pub open spec fn gear_value(ns: Seq<NumberModel>, sym: Symbol) -> int {
    let tv = touch_vals(ns, sym.pos);
    if sym.ch == 42 && tv.len() == 2 {
        tv[0] * tv[1]
    } else {
        0
    }
}

/// The Part 2 sum: every gear's ratio, over all symbols.
pub open spec fn part2_sum(ns: Seq<NumberModel>, syms: Seq<Symbol>) -> int
    decreases syms.len(),
{
    if syms.len() == 0 {
        0
    } else {
        part2_sum(ns, syms.drop_last()) + gear_value(ns, syms.last())
    }
}

/// With non-negative numbers the Part 2 sum is non-negative.
proof fn lemma_part2_sum_nonneg(ns: Seq<NumberModel>, syms: Seq<Symbol>)
    requires
        forall|j: int| 0 <= j < ns.len() ==> #[trigger] ns[j].value >= 0,
    ensures
        part2_sum(ns, syms) >= 0,
    decreases syms.len(),
{
    if syms.len() > 0 {
        lemma_part2_sum_nonneg(ns, syms.drop_last());
        lemma_gear_value_nonneg(ns, syms.last());
    }
}

/// With non-negative numbers the Part 2 sum over a prefix of the symbols is
/// at most the whole sum.
proof fn lemma_part2_sum_prefix_le(ns: Seq<NumberModel>, syms: Seq<Symbol>, i: int)
    requires
        0 <= i <= syms.len(),
        forall|j: int| 0 <= j < ns.len() ==> #[trigger] ns[j].value >= 0,
    ensures
        part2_sum(ns, syms.take(i)) <= part2_sum(ns, syms),
    decreases syms.len() - i,
{
    if i < syms.len() {
        assert(syms.take(i + 1).drop_last() =~= syms.take(i));
        assert(syms.take(i + 1).last() == syms[i]);
        lemma_gear_value_nonneg(ns, syms[i]);
        lemma_part2_sum_prefix_le(ns, syms, i + 1);
    } else {
        assert(syms.take(i) =~= syms);
    }
}

/// With non-negative numbers the Part 2 sum dominates every single gear
/// contribution.
proof fn lemma_part2_sum_ge_elem(ns: Seq<NumberModel>, syms: Seq<Symbol>, i: int)
    requires
        0 <= i < syms.len(),
        forall|j: int| 0 <= j < ns.len() ==> #[trigger] ns[j].value >= 0,
    ensures
        part2_sum(ns, syms) >= gear_value(ns, syms[i]),
{
    assert(syms.take(i + 1).drop_last() =~= syms.take(i));
    assert(syms.take(i + 1).last() == syms[i]);
    lemma_part2_sum_nonneg(ns, syms.take(i));
    lemma_part2_sum_prefix_le(ns, syms, i + 1);
}

/// Values collected from non-negative numbers are non-negative.
proof fn lemma_touch_vals_nonneg(ns: Seq<NumberModel>, p: Coord)
    requires
        forall|j: int| 0 <= j < ns.len() ==> #[trigger] ns[j].value >= 0,
    ensures
        forall|t: int| 0 <= t < touch_vals(ns, p).len() ==> #[trigger] touch_vals(ns, p)[t] >= 0,
    decreases ns.len(),
{
    if ns.len() > 0 {
        assert(forall|j: int|
            0 <= j < ns.drop_last().len() ==> #[trigger] ns.drop_last()[j].value >= 0);
        lemma_touch_vals_nonneg(ns.drop_last(), p);
        let tv = touch_vals(ns, p);
        let rest = touch_vals(ns.drop_last(), p);
        assert forall|t: int| 0 <= t < tv.len() implies tv[t] >= 0 by {
            if number_touches(ns.last(), p) {
                assert(tv == rest.push(ns.last().value));
                if t == rest.len() {
                    assert(ns[ns.len() - 1].value >= 0);
                }
            }
        }
    }
}

/// Gear contributions of non-negative numbers are non-negative.
proof fn lemma_gear_value_nonneg(ns: Seq<NumberModel>, sym: Symbol)
    requires
        forall|j: int| 0 <= j < ns.len() ==> #[trigger] ns[j].value >= 0,
    ensures
        gear_value(ns, sym) >= 0,
{
    lemma_touch_vals_nonneg(ns, sym.pos);
    let tv = touch_vals(ns, sym.pos);
    if sym.ch == 42 && tv.len() == 2 {
        vstd::arithmetic::mul::lemma_mul_nonnegative(tv[0], tv[1]);
    }
}

/// Counts the numbers touching `p` and hands out the first two values.
fn touching_values(numbers: &Vec<Number>, p: Coord) -> (r: (usize, u64, u64))
    ensures
        r.0 == touch_vals(number_models(numbers@), p).len(),
        r.0 >= 1 ==> r.1 == touch_vals(number_models(numbers@), p)[0],
        r.0 >= 2 ==> r.2 == touch_vals(number_models(numbers@), p)[1],
{
    let ghost ms = number_models(numbers@);
    let mut count: usize = 0;
    let mut v1: u64 = 0;
    let mut v2: u64 = 0;
    let mut j: usize = 0;
    while j < numbers.len()
        invariant
            j <= numbers@.len(),
            ms == number_models(numbers@),
            count <= j,
            count == touch_vals(ms.take(j as int), p).len(),
            count >= 1 ==> v1 == touch_vals(ms.take(j as int), p)[0],
            count >= 2 ==> v2 == touch_vals(ms.take(j as int), p)[1],
        decreases numbers@.len() - j,
    {
        proof {
            assert(ms.take(j + 1).drop_last() =~= ms.take(j as int));
            assert(ms.take(j + 1).last() == ms[j as int]);
        }
        let n = &numbers[j];
        if number_touches_cell(n, p) {
            if count == 0 {
                v1 = n.value;
            } else if count == 1 {
                v2 = n.value;
            }
            count = count + 1;
        }
        j = j + 1;
    }
    proof {
        assert(ms.take(numbers@.len() as int) =~= ms);
    }
    (count, v1, v2)
}

/// Sums the gear ratios: for every `*` symbol adjacent to exactly two
/// numbers, the product of those two values. `None` exactly when the sum
/// does not fit in `u64`.
pub fn schematic_part_2(sch: &Schematic) -> (r: Option<u64>)
    ensures
        r is Some <==> part2_sum(number_models(sch.numbers@), sch.symbols@) <= u64::MAX,
        r is Some ==> r->0 == part2_sum(number_models(sch.numbers@), sch.symbols@),
{
    let ghost ms = number_models(sch.numbers@);
    proof {
        assert forall|j: int| 0 <= j < ms.len() implies (#[trigger] ms[j]).value >= 0 by {
            assert(ms[j] == sch.numbers@[j].model());
        }
    }
    let mut sum: u64 = 0;
    let mut i: usize = 0;
    while i < sch.symbols.len()
        invariant
            i <= sch.symbols@.len(),
            ms == number_models(sch.numbers@),
            forall|j: int| 0 <= j < ms.len() ==> (#[trigger] ms[j]).value >= 0,
            sum == part2_sum(ms, sch.symbols@.take(i as int)),
        decreases sch.symbols@.len() - i,
    {
        proof {
            assert(sch.symbols@.take(i + 1).drop_last() =~= sch.symbols@.take(i as int));
            assert(sch.symbols@.take(i + 1).last() == sch.symbols@[i as int]);
        }
        let sym = sch.symbols[i];
        let (count, v1, v2) = touching_values(&sch.numbers, sym.pos);
        let mut g: u64 = 0;
        if sym.ch == 42 && count == 2 {
            g = match v1.checked_mul(v2) {
                Some(p) => p,
                None => {
                    proof {
                        lemma_part2_sum_ge_elem(ms, sch.symbols@, i as int);
                    }
                    return None;
                },
            };
        }
        sum = match sum.checked_add(g) {
            Some(v) => v,
            None => {
                proof {
                    lemma_part2_sum_prefix_le(ms, sch.symbols@, i + 1);
                }
                return None;
            },
        };
        i = i + 1;
    }
    proof {
        assert(sch.symbols@.take(sch.symbols@.len() as int) =~= sch.symbols@);
    }
    Some(sum)
}

/// Removing one number removes exactly its contribution from the touch
/// values of a cell.
proof fn lemma_touch_vals_remove(ns: Seq<NumberModel>, p: Coord, i: int)
    requires
        0 <= i < ns.len(),
    ensures
        touch_vals(ns, p).to_multiset() == (if number_touches(ns[i], p) {
            touch_vals(ns.remove(i), p).to_multiset().insert(ns[i].value)
        } else {
            touch_vals(ns.remove(i), p).to_multiset()
        }),
    decreases ns.len(),
{
    broadcast use vstd::seq_lib::group_to_multiset_ensures;

    let rem = ns.remove(i);
    if i == ns.len() - 1 {
        assert(rem =~= ns.drop_last());
    } else {
        let last = ns.last();
        assert(rem.last() == last);
        assert(rem.drop_last() =~= ns.drop_last().remove(i));
        lemma_touch_vals_remove(ns.drop_last(), p, i);
        assert(ns.drop_last()[i] == ns[i]);
        let base = touch_vals(ns.drop_last().remove(i), p).to_multiset();
        if number_touches(ns[i], p) && number_touches(last, p) {
            assert(touch_vals(ns, p).to_multiset() == base.insert(ns[i].value).insert(last.value));
            assert(touch_vals(rem, p).to_multiset() == base.insert(last.value));
            assert(base.insert(ns[i].value).insert(last.value) =~= base.insert(last.value).insert(
                ns[i].value,
            ));
        }
    }
}

/// The touch values of two permutations of the same numbers are themselves
/// permutations of each other.
proof fn lemma_touch_vals_permutation(ns1: Seq<NumberModel>, ns2: Seq<NumberModel>, p: Coord)
    requires
        ns1.to_multiset() == ns2.to_multiset(),
    ensures
        touch_vals(ns1, p).to_multiset() == touch_vals(ns2, p).to_multiset(),
    decreases ns1.len(),
{
    broadcast use vstd::seq_lib::group_to_multiset_ensures;

    if ns1.len() == 0 {
        assert(ns2.to_multiset().len() == 0);
        assert(ns2.len() == 0);
    } else {
        let a = ns1.last();
        assert(ns1.contains(a));
        assert(ns1.to_multiset().count(a) > 0);
        assert(ns2.contains(a));
        let i = ns2.index_of(a);
        assert(0 <= i < ns2.len() && ns2[i] == a);
        assert(ns1.drop_last() =~= ns1.remove(ns1.len() - 1));
        assert(ns1.drop_last().to_multiset() == ns1.to_multiset().remove(a));
        assert(ns2.remove(i).to_multiset() == ns2.to_multiset().remove(a));
        lemma_touch_vals_permutation(ns1.drop_last(), ns2.remove(i), p);
        lemma_touch_vals_remove(ns2, p, i);
    }
}

/// Two two-element sequences with equal multisets have equal products.
proof fn lemma_pair_product(a: Seq<int>, b: Seq<int>)
    requires
        a.len() == 2,
        b.len() == 2,
        a.to_multiset() == b.to_multiset(),
    ensures
        a[0] * a[1] == b[0] * b[1],
{
    broadcast use vstd::seq_lib::group_to_multiset_ensures;

    assert(b.contains(b[0]));
    assert(a.to_multiset().count(b[0]) > 0);
    assert(a.contains(b[0]));
    let j = choose|j: int| 0 <= j < a.len() && a[j] == b[0];
    assert(a.remove(j).to_multiset() == a.to_multiset().remove(a[j]));
    assert(b.remove(0).to_multiset() == b.to_multiset().remove(b[0]));
    assert(a.remove(j).to_multiset() == b.remove(0).to_multiset());
    let ar = a.remove(j);
    let br = b.remove(0);
    a.remove_ensures(j);
    b.remove_ensures(0);
    assert(ar.len() == 1 && br.len() == 1);
    assert(ar.contains(ar[0]));
    assert(ar.to_multiset().count(ar[0]) > 0);
    assert(br.to_multiset().count(ar[0]) > 0);
    assert(br.contains(ar[0]));
    let k = choose|k: int| 0 <= k < br.len() && br[k] == ar[0];
    assert(k == 0);
    assert(br[0] == ar[0]);
    if j == 0 {
        assert(ar[0] == a[1] && br[0] == b[1]);
        assert(a[0] == b[0] && a[1] == b[1]);
        assert(a[0] * a[1] == b[0] * b[1]);
    } else {
        assert(j == 1);
        assert(ar[0] == a[0] && br[0] == b[1]);
        assert(b[0] == a[1] && b[1] == a[0]);
        vstd::arithmetic::mul::lemma_mul_is_commutative(a[0], a[1]);
        assert(a[0] * a[1] == b[0] * b[1]);
    }
}

/// Removing one symbol removes exactly its gear contribution from the
/// Part 2 sum.
proof fn lemma_part2_sum_remove(ns: Seq<NumberModel>, ss: Seq<Symbol>, i: int)
    requires
        0 <= i < ss.len(),
    ensures
        part2_sum(ns, ss) == part2_sum(ns, ss.remove(i)) + gear_value(ns, ss[i]),
    decreases ss.len(),
{
    if i == ss.len() - 1 {
        assert(ss.remove(i) =~= ss.drop_last());
    } else {
        assert(ss.remove(i).drop_last() =~= ss.drop_last().remove(i));
        assert(ss.remove(i).last() == ss.last());
        lemma_part2_sum_remove(ns, ss.drop_last(), i);
        assert(ss.drop_last()[i] == ss[i]);
    }
}

/// With the numbers fixed, the Part 2 sum is invariant under permutation of
/// the symbols.
proof fn lemma_part2_sum_symbols_permutation(ns: Seq<NumberModel>, ss1: Seq<Symbol>, ss2: Seq<
    Symbol,
>)
    requires
        ss1.to_multiset() == ss2.to_multiset(),
    ensures
        part2_sum(ns, ss1) == part2_sum(ns, ss2),
    decreases ss1.len(),
{
    broadcast use vstd::seq_lib::group_to_multiset_ensures;

    if ss1.len() == 0 {
        assert(ss2.to_multiset().len() == 0);
        assert(ss2.len() == 0);
    } else {
        let a = ss1.last();
        assert(ss1.contains(a));
        assert(ss1.to_multiset().count(a) > 0);
        assert(ss2.contains(a));
        let i = ss2.index_of(a);
        assert(0 <= i < ss2.len() && ss2[i] == a);
        assert(ss1.drop_last() =~= ss1.remove(ss1.len() - 1));
        assert(ss1.drop_last().to_multiset() == ss1.to_multiset().remove(a));
        assert(ss2.remove(i).to_multiset() == ss2.to_multiset().remove(a));
        lemma_part2_sum_symbols_permutation(ns, ss1.drop_last(), ss2.remove(i));
        lemma_part2_sum_remove(ns, ss2, i);
    }
}

/// With the symbols fixed, the Part 2 sum is unchanged when every gear
/// contribution agrees.
proof fn lemma_part2_sum_pointwise(ns1: Seq<NumberModel>, ns2: Seq<NumberModel>, ss: Seq<Symbol>)
    requires
        forall|sym: Symbol| #[trigger] gear_value(ns1, sym) == gear_value(ns2, sym),
    ensures
        part2_sum(ns1, ss) == part2_sum(ns2, ss),
    decreases ss.len(),
{
    if ss.len() > 0 {
        lemma_part2_sum_pointwise(ns1, ns2, ss.drop_last());
    }
}

/// The Part 2 sum depends only on which numbers and symbols the grid holds,
/// not on the order in which parsing delivered them.
pub proof fn lemma_part2_sum_order_independent(
    ns1: Seq<NumberModel>,
    ns2: Seq<NumberModel>,
    ss1: Seq<Symbol>,
    ss2: Seq<Symbol>,
)
    requires
        ns1.to_multiset() == ns2.to_multiset(),
        ss1.to_multiset() == ss2.to_multiset(),
    ensures
        part2_sum(ns1, ss1) == part2_sum(ns2, ss2),
{
    broadcast use vstd::seq_lib::group_to_multiset_ensures;

    assert forall|sym: Symbol| #[trigger] gear_value(ns1, sym) == gear_value(ns2, sym) by {
        lemma_touch_vals_permutation(ns1, ns2, sym.pos);
        let t1 = touch_vals(ns1, sym.pos);
        let t2 = touch_vals(ns2, sym.pos);
        assert(t1.to_multiset().len() == t2.to_multiset().len());
        assert(t1.len() == t2.len());
        if sym.ch == 42 && t1.len() == 2 {
            lemma_pair_product(t1, t2);
        }
    }
    lemma_part2_sum_pointwise(ns1, ns2, ss1);
    lemma_part2_sum_symbols_permutation(ns2, ss1, ss2);
}

/// The shape of every parsed number: at least one cell, all cells on one row
/// at consecutive columns, and the value written in no more digits than it
/// has cells.
pub open spec fn number_wf(n: NumberModel) -> bool {
    &&& n.cells.len() >= 1
    &&& forall|k: int| 0 <= k < n.cells.len() ==> (#[trigger] n.cells[k]).y == n.cells[0].y
    &&& forall|k: int| 0 <= k < n.cells.len() ==> (#[trigger] n.cells[k]).x == n.cells[0].x + k
    &&& 0 <= n.value < pow10(n.cells.len())
}

/// Shape and position facts carried through the whole scan: every produced
/// number is well formed and lies at or after the scan position, every symbol
/// lies at or after the scan position, and no symbol stands on a number cell.
proof fn lemma_grid_scan_shape(s: Seq<u8>, i: int, x: int, y: int, run: int)
    requires
        s.len() <= usize::MAX,
        0 <= run <= x <= i <= s.len(),
        0 <= y <= i,
        all_digits(s.subrange(i - run, i)),
    ensures
        forall|j: int|
            0 <= j < grid_scan(s, i, x, y, run).0.len() ==> number_wf(
                #[trigger] grid_scan(s, i, x, y, run).0[j],
            ),
        forall|j: int|
            0 <= j < grid_scan(s, i, x, y, run).0.len() ==> (#[trigger] grid_scan(
                s,
                i,
                x,
                y,
                run,
            ).0[j]).cells[0].y > y || (grid_scan(s, i, x, y, run).0[j].cells[0].y == y && grid_scan(
                s,
                i,
                x,
                y,
                run,
            ).0[j].cells[0].x >= x - run),
        forall|j: int|
            0 <= j < grid_scan(s, i, x, y, run).1.len() ==> (#[trigger] grid_scan(
                s,
                i,
                x,
                y,
                run,
            ).1[j]).pos.y > y || (grid_scan(s, i, x, y, run).1[j].pos.y == y && grid_scan(
                s,
                i,
                x,
                y,
                run,
            ).1[j].pos.x >= x),
        forall|j: int, k: int, t: int|
            #![trigger grid_scan(s, i, x, y, run).0[j].cells[t], grid_scan(s, i, x, y, run).1[k]]
            0 <= j < grid_scan(s, i, x, y, run).0.len() && 0 <= k < grid_scan(s, i, x, y, run).1.len()
                && 0 <= t < grid_scan(s, i, x, y, run).0[j].cells.len() ==> grid_scan(
                s,
                i,
                x,
                y,
                run,
            ).0[j].cells[t] != grid_scan(s, i, x, y, run).1[k].pos,
    decreases s.len() - i,
{
    let ns = grid_scan(s, i, x, y, run).0;
    let ss = grid_scan(s, i, x, y, run).1;
    let fl = flush(s, i, x, y, run);
    if run > 0 {
        lemma_num_val_bounds(s.subrange(i - run, i));
        assert(fl[0].cells.len() == run);
        assert forall|k: int| 0 <= k < run implies (#[trigger] fl[0].cells[k]).y == y && fl[0].cells[k].x
            == x - run + k by {}
        assert(number_wf(fl[0]));
    }
    if i >= s.len() {
        assert(ns == fl && ss =~= Seq::<Symbol>::empty());
    } else if s[i] == 10 {
        assert(s.subrange(i + 1 - 0, i + 1) =~= Seq::<u8>::empty());
        lemma_grid_scan_shape(s, i + 1, 0, y + 1, 0);
        let rns = grid_scan(s, i + 1, 0, y + 1, 0).0;
        let rss = grid_scan(s, i + 1, 0, y + 1, 0).1;
        assert(ns == fl + rns && ss == rss);
        assert forall|j: int| 0 <= j < ns.len() implies number_wf(#[trigger] ns[j]) by {
            if j < fl.len() {
                assert(ns[j] == fl[j]);
            } else {
                assert(ns[j] == rns[j - fl.len()]);
            }
        }
        assert forall|j: int, k: int, t: int|
            0 <= j < ns.len() && 0 <= k < ss.len() && 0 <= t < ns[j].cells.len() implies #[trigger] ns[j].cells[t]
            != (#[trigger] ss[k]).pos by {
            if j < fl.len() {
                assert(ns[j] == fl[j]);
                assert(ns[j].cells[t].y == y);
                assert(ss[k].pos.y > y);
            } else {
                assert(ns[j] == rns[j - fl.len()]);
            }
        }
    } else if is_digit(s[i]) {
        assert forall|t: int| 0 <= t < run + 1 implies is_digit(
            #[trigger] s.subrange(i - run, i + 1)[t],
        ) by {
            if t < run {
                assert(s.subrange(i - run, i + 1)[t] == s.subrange(i - run, i)[t]);
            }
        }
        lemma_grid_scan_shape(s, i + 1, x + 1, y, run + 1);
        assert(grid_scan(s, i, x, y, run) == grid_scan(s, i + 1, x + 1, y, run + 1));
    } else {
        assert(s.subrange(i + 1 - 0, i + 1) =~= Seq::<u8>::empty());
        lemma_grid_scan_shape(s, i + 1, x + 1, y, 0);
        let rns = grid_scan(s, i + 1, x + 1, y, 0).0;
        let rss = grid_scan(s, i + 1, x + 1, y, 0).1;
        assert(ns == fl + rns);
        assert forall|j: int| 0 <= j < ns.len() implies number_wf(#[trigger] ns[j]) by {
            if j < fl.len() {
                assert(ns[j] == fl[j]);
            } else {
                assert(ns[j] == rns[j - fl.len()]);
            }
        }
        assert forall|j: int, k: int, t: int|
            0 <= j < ns.len() && 0 <= k < ss.len() && 0 <= t < ns[j].cells.len() implies #[trigger] ns[j].cells[t]
            != (#[trigger] ss[k]).pos by {
            let sympos = ss[k].pos;
            if is_symbol_char(s[i]) && k == 0 {
                assert(sympos.x == x && sympos.y == y);
            } else {
                let k2 = if is_symbol_char(s[i]) {
                    k - 1
                } else {
                    k
                };
                assert(ss[k] == rss[k2]);
                assert(sympos.y > y || (sympos.y == y && sympos.x >= x + 1));
            }
            if j < fl.len() {
                assert(ns[j] == fl[j]);
                assert(ns[j].cells[t].y == y && ns[j].cells[t].x == x - run + t <= x - 1);
            } else {
                let n = rns[j - fl.len()];
                assert(ns[j] == n);
                assert(number_wf(n));
                assert(n.cells[t].y == n.cells[0].y && n.cells[t].x == n.cells[0].x + t);
                assert(n.cells[0].y > y || (n.cells[0].y == y && n.cells[0].x >= x + 1));
            }
        }
    }
}

/// Every number of a schematic occupies one contiguous horizontal run of
/// cells, and that run is at least as wide as the written value.
pub proof fn lemma_numbers_wf(s: Seq<u8>)
    requires
        s.len() <= usize::MAX,
    ensures
        forall|j: int|
            0 <= j < spec_numbers(s).len() ==> number_wf(#[trigger] spec_numbers(s)[j]),
{
    assert(s.subrange(0, 0) =~= Seq::<u8>::empty());
    lemma_grid_scan_shape(s, 0, 0, 0, 0);
}

/// Running the schematic parser twice on the same text yields the same
/// outcome and the same model, so both puzzle answers are functions of the
/// input text alone.
pub proof fn lemma_schematic_deterministic(
    s: Seq<u8>,
    r1: Option<Schematic>,
    r2: Option<Schematic>,
)
    requires
        r1 is Some <==> values_fit(spec_numbers(s)),
        r1 is Some ==> number_models((r1->0).numbers@) == spec_numbers(s),
        r1 is Some ==> (r1->0).symbols@ == spec_symbols(s),
        r2 is Some <==> values_fit(spec_numbers(s)),
        r2 is Some ==> number_models((r2->0).numbers@) == spec_numbers(s),
        r2 is Some ==> (r2->0).symbols@ == spec_symbols(s),
    ensures
        r1 is Some <==> r2 is Some,
        r1 is Some ==> number_models((r1->0).numbers@) == number_models((r2->0).numbers@),
        r1 is Some ==> (r1->0).symbols@ == (r2->0).symbols@,
        r1 is Some ==> part1_sum(number_models((r1->0).numbers@), (r1->0).symbols@) == part1_sum(
            number_models((r2->0).numbers@),
            (r2->0).symbols@,
        ),
        r1 is Some ==> part2_sum(number_models((r1->0).numbers@), (r1->0).symbols@) == part2_sum(
            number_models((r2->0).numbers@),
            (r2->0).symbols@,
        ),
{
}

/// No symbol of a schematic stands on a cell of any of its numbers.
pub proof fn lemma_symbols_off_numbers(s: Seq<u8>)
    requires
        s.len() <= usize::MAX,
    ensures
        forall|j: int, k: int, t: int|
            #![trigger spec_numbers(s)[j].cells[t], spec_symbols(s)[k]]
            0 <= j < spec_numbers(s).len() && 0 <= k < spec_symbols(s).len() && 0 <= t
                < spec_numbers(s)[j].cells.len() ==> spec_numbers(s)[j].cells[t] != spec_symbols(
                s,
            )[k].pos,
{
    assert(s.subrange(0, 0) =~= Seq::<u8>::empty());
    lemma_grid_scan_shape(s, 0, 0, 0, 0);
}

} // verus!
