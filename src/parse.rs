use vstd::prelude::*;

use vstd::string::StringSliceAdditionalSpecFns;

use crate::instance::TkpInstance;
use crate::model::Order;
use crate::random::seeded_rng;

verus! {

/// ASCII white space: space, tab, line feed, vertical tab, form feed,
/// carriage return.
pub open spec fn is_space(b: u8) -> bool {
    b == 32 || (9 <= b && b <= 13)
}

pub open spec fn trim_start(s: Seq<u8>) -> Seq<u8>
    decreases s.len(),
{
    if s.len() > 0 && is_space(s[0]) {
        trim_start(s.drop_first())
    } else {
        s
    }
}

pub open spec fn trim_end(s: Seq<u8>) -> Seq<u8>
    decreases s.len(),
{
    if s.len() > 0 && is_space(s.last()) {
        trim_end(s.drop_last())
    } else {
        s
    }
}

/// `s` without leading and trailing white space.
pub open spec fn trimmed(s: Seq<u8>) -> Seq<u8> {
    trim_end(trim_start(s))
}

/// The pieces of `s` between occurrences of `sep`: one more than there are
/// separators, empty pieces included.
pub open spec fn fields(s: Seq<u8>, sep: u8) -> Seq<Seq<u8>>
    decreases s.len(),
{
    if s.len() == 0 {
        seq![Seq::empty()]
    } else {
        let f = fields(s.drop_last(), sep);
        if s.last() == sep {
            f.push(Seq::empty())
        } else {
            f.update(f.len() - 1, f.last().push(s.last()))
        }
    }
}

pub open spec fn is_digit(b: u8) -> bool {
    48 <= b && b <= 57
}

pub open spec fn all_digits(s: Seq<u8>) -> bool {
    forall|i: int| 0 <= i < s.len() ==> is_digit(#[trigger] s[i])
}

/// The number that the decimal digits `s` spell.
pub open spec fn digits_value(s: Seq<u8>) -> int
    decreases s.len(),
{
    if s.len() == 0 {
        0
    } else {
        digits_value(s.drop_last()) * 10 + (s.last() - 48)
    }
}

/// `t` without one leading `+`.
pub open spec fn unsigned_part(t: Seq<u8>) -> Seq<u8> {
    if t.len() > 0 && t[0] == 43 {
        t.drop_first()
    } else {
        t
    }
}

/// Whether `t` is an unsigned decimal number of at most `max`: an optional
/// `+` and at least one digit.
pub open spec fn is_number_upto(t: Seq<u8>, max: int) -> bool {
    let d = unsigned_part(t);
    d.len() > 0 && all_digits(d) && digits_value(d) <= max
}

/// The value of the unsigned decimal number `t`.
pub open spec fn number_value(t: Seq<u8>) -> int {
    digits_value(unsigned_part(t))
}

/// The order that a line describes: after trimming, fields separated by
/// single spaces, every one a `u32`, at least four of them; the first four
/// are profit, demand, start and end.
pub open spec fn order_line(s: Seq<u8>) -> Option<Order> {
    let f = fields(trimmed(s), 32);
    if f.len() >= 4 && forall|i: int| 0 <= i < f.len() ==> is_number_upto(#[trigger] f[i], u32::MAX as int) {
        Some(
            Order {
                profit: number_value(f[0]) as u32,
                demand: number_value(f[1]) as u32,
                start: number_value(f[2]) as u32,
                end: number_value(f[3]) as u32,
            },
        )
    } else {
        None
    }
}

proof fn lemma_digits_nonneg(s: Seq<u8>)
    requires
        all_digits(s),
    ensures
        digits_value(s) >= 0,
    decreases s.len(),
{
    if s.len() > 0 {
        lemma_digits_nonneg(s.drop_last());
    }
}

proof fn lemma_digits_grow(s: Seq<u8>, k: int)
    requires
        all_digits(s),
        0 <= k <= s.len(),
    ensures
        0 <= digits_value(s.take(k)) <= digits_value(s),
    decreases s.len(),
{
    if k < s.len() {
        assert(s.drop_last().take(k) =~= s.take(k));
        lemma_digits_grow(s.drop_last(), k);
    } else {
        assert(s.take(k) =~= s);
    }
    if s.len() > 0 {
        lemma_digits_grow(s.drop_last(), s.len() - 1);
        assert(s.drop_last().take(s.len() - 1) =~= s.drop_last());
    }
}

/// Reads the unsigned decimal number `b[lo..hi]` if it is at most `max`.
pub fn parse_number(b: &[u8], lo: usize, hi: usize, max: u64) -> (r: Option<u64>)
    requires
        lo <= hi <= b@.len(),
    ensures
        r == if is_number_upto(b@.subrange(lo as int, hi as int), max as int) {
            Some(number_value(b@.subrange(lo as int, hi as int)) as u64)
        } else {
            None::<u64>
        },
{
    let ghost t = b@.subrange(lo as int, hi as int);
    let mut start = lo;
    if lo < hi && b[lo] == 43 {
        start = lo + 1;
    }
    let ghost d = b@.subrange(start as int, hi as int);
    assert(unsigned_part(t) =~= d);
    if start == hi {
        return None;
    }
    let mut v: u64 = 0;
    let mut i = start;
    while i < hi
        invariant
            lo <= start <= i <= hi <= b@.len(),
            t == b@.subrange(lo as int, hi as int),
            d == b@.subrange(start as int, hi as int),
            unsigned_part(t) == d,
            all_digits(b@.subrange(start as int, i as int)),
            v == digits_value(b@.subrange(start as int, i as int)),
            v <= max,
        decreases hi - i,
    {
        let c = b[i];
        assert(b@.subrange(start as int, i + 1).drop_last() =~= b@.subrange(start as int, i as int));
        if c < 48 || c > 57 {
            assert(d[i - start] == c);
            assert(!is_digit(d[i - start]));
            assert(!is_number_upto(t, max as int));
            return None;
        }
        let next = v as u128 * 10 + (c - 48) as u128;
        assert(all_digits(b@.subrange(start as int, i + 1)));
        assert(next == digits_value(b@.subrange(start as int, i + 1)));
        if next > max as u128 {
            proof {
                if all_digits(d) {
                    lemma_digits_grow(d, i + 1 - start);
                    assert(d.take(i + 1 - start) =~= b@.subrange(start as int, i + 1));
                }
                assert(!is_number_upto(t, max as int));
            }
            return None;
        }
        v = next as u64;
        i = i + 1;
    }
    assert(b@.subrange(start as int, i as int) =~= d);
    Some(v)
}

/// The ranges of `b[lo..hi]` between occurrences of `sep`, as in [`fields`].
pub fn split_ranges(b: &[u8], lo: usize, hi: usize, sep: u8) -> (r: Vec<(usize, usize)>)
    requires
        lo <= hi <= b@.len(),
    ensures
        r@.len() == fields(b@.subrange(lo as int, hi as int), sep).len(),
        forall|j: int|
            0 <= j < r@.len() ==> {
                &&& lo <= (#[trigger] r@[j]).0 <= r@[j].1 <= hi
                &&& b@.subrange(r@[j].0 as int, r@[j].1 as int) == fields(
                    b@.subrange(lo as int, hi as int),
                    sep,
                )[j]
            },
{
    let mut r: Vec<(usize, usize)> = Vec::new();
    let mut cur = lo;
    let mut k = lo;
    while k < hi
        invariant
            lo <= cur <= k <= hi <= b@.len(),
            r@.len() + 1 == fields(b@.subrange(lo as int, k as int), sep).len(),
            forall|j: int|
                0 <= j < r@.len() ==> {
                    &&& lo <= (#[trigger] r@[j]).0 <= r@[j].1 <= k
                    &&& b@.subrange(r@[j].0 as int, r@[j].1 as int) == fields(
                        b@.subrange(lo as int, k as int),
                        sep,
                    )[j]
                },
            fields(b@.subrange(lo as int, k as int), sep).last() == b@.subrange(
                cur as int,
                k as int,
            ),
        decreases hi - k,
    {
        let ghost f = fields(b@.subrange(lo as int, k as int), sep);
        assert(b@.subrange(lo as int, k + 1).drop_last() =~= b@.subrange(lo as int, k as int));
        let ghost g = fields(b@.subrange(lo as int, k + 1), sep);
        if b[k] == sep {
            r.push((cur, k));
            cur = k + 1;
            assert(b@.subrange(cur as int, k + 1) =~= Seq::<u8>::empty());
        } else {
            assert(b@.subrange(cur as int, k + 1) =~= b@.subrange(cur as int, k as int).push(b@[k as int]));
        }
        k = k + 1;
    }
    r.push((cur, hi));
    r
}

/// The first index of `b[lo..hi]` that is not white space, or `hi`.
fn skip_space_forward(b: &[u8], lo: usize, hi: usize) -> (r: usize)
    requires
        lo <= hi <= b@.len(),
    ensures
        lo <= r <= hi,
        trim_start(b@.subrange(lo as int, hi as int)) == b@.subrange(r as int, hi as int),
{
    let mut i = lo;
    while i < hi && (b[i] == 32 || (9 <= b[i] && b[i] <= 13))
        invariant
            lo <= i <= hi <= b@.len(),
            trim_start(b@.subrange(lo as int, hi as int)) == trim_start(
                b@.subrange(i as int, hi as int),
            ),
        decreases hi - i,
    {
        assert(b@.subrange(i as int, hi as int).drop_first() =~= b@.subrange(i + 1, hi as int));
        i = i + 1;
    }
    i
}

/// The end of `b[lo..hi]` without trailing white space.
fn skip_space_backward(b: &[u8], lo: usize, hi: usize) -> (r: usize)
    requires
        lo <= hi <= b@.len(),
    ensures
        lo <= r <= hi,
        trim_end(b@.subrange(lo as int, hi as int)) == b@.subrange(lo as int, r as int),
{
    let mut j = hi;
    while j > lo && (b[j - 1] == 32 || (9 <= b[j - 1] && b[j - 1] <= 13))
        invariant
            lo <= j <= hi <= b@.len(),
            trim_end(b@.subrange(lo as int, hi as int)) == trim_end(
                b@.subrange(lo as int, j as int),
            ),
        decreases j - lo,
    {
        assert(b@.subrange(lo as int, j as int).drop_last() =~= b@.subrange(lo as int, j - 1));
        j = j - 1;
    }
    j
}

/// Reads the order that `b[lo..hi]` describes, as in [`order_line`].
pub fn parse_order(b: &[u8], lo: usize, hi: usize) -> (r: Option<Order>)
    requires
        lo <= hi <= b@.len(),
    ensures
        r == order_line(b@.subrange(lo as int, hi as int)),
{
    let ghost line = b@.subrange(lo as int, hi as int);
    let first = skip_space_forward(b, lo, hi);
    let last = skip_space_backward(b, first, hi);
    assert(trimmed(line) == b@.subrange(first as int, last as int));
    let ranges = split_ranges(b, first, last, 32);
    let ghost f = fields(b@.subrange(first as int, last as int), 32);
    let mut vals: Vec<u32> = Vec::new();
    let mut k: usize = 0;
    while k < ranges.len()
        invariant
            lo <= hi <= b@.len(),
            line == b@.subrange(lo as int, hi as int),
            f == fields(trimmed(line), 32),
            k <= ranges@.len(),
            ranges@.len() == f.len(),
            forall|j: int|
                0 <= j < ranges@.len() ==> {
                    &&& first <= (#[trigger] ranges@[j]).0 <= ranges@[j].1 <= last
                    &&& b@.subrange(ranges@[j].0 as int, ranges@[j].1 as int) == f[j]
                },
            last <= b@.len(),
            vals@.len() == k,
            forall|j: int| 0 <= j < k ==> is_number_upto(#[trigger] f[j], u32::MAX as int),
            forall|j: int| 0 <= j < k ==> #[trigger] vals@[j] == number_value(f[j]),
        decreases ranges@.len() - k,
    {
        let (a, z) = ranges[k];
        assert(b@.subrange(a as int, z as int) == f[k as int]);
        match parse_number(b, a, z, u32::MAX as u64) {
            Some(v) => {
                assert(is_number_upto(f[k as int], u32::MAX as int));
                proof {
                    lemma_digits_nonneg(unsigned_part(f[k as int]));
                }
                assert(v == number_value(f[k as int]));
                vals.push(v as u32);
            },
            None => {
                assert(!is_number_upto(f[k as int], u32::MAX as int));
                return None;
            },
        }
        k = k + 1;
    }
    if vals.len() < 4 {
        return None;
    }
    Some(Order { profit: vals[0], demand: vals[1], start: vals[2], end: vals[3] })
}

impl Order {
    /// Reads an order from a line `profit demand start end`: surrounding
    /// white space is ignored, fields are separated by single spaces, every
    /// field must be a `u32`, and fields after the fourth are ignored. `None`
    /// when the line is not of that form.
    pub fn parse_from_line(line: &str) -> (r: Option<Order>)
        ensures
            r == order_line(line.spec_bytes()),
    {
        let b = line.as_bytes();
        assert(b@.subrange(0, b@.len() as int) =~= b@);
        parse_order(b, 0, b.len())
    }
}

proof fn lemma_fields_nonempty(s: Seq<u8>, sep: u8)
    ensures
        fields(s, sep).len() >= 1,
    decreases s.len(),
{
    if s.len() > 0 {
        lemma_fields_nonempty(s.drop_last(), sep);
    }
}

/// `l` without one trailing carriage return.
pub open spec fn strip_cr(l: Seq<u8>) -> Seq<u8> {
    if l.len() > 0 && l.last() == 13 {
        l.drop_last()
    } else {
        l
    }
}

/// The lines of `text`: the pieces between line feeds, each without one
/// trailing carriage return; an empty last piece (after a final line feed,
/// or of an empty text) is no line.
pub open spec fn text_lines(text: Seq<u8>) -> Seq<Seq<u8>> {
    let f = fields(text, 10);
    let kept = if f.last().len() == 0 {
        f.drop_last()
    } else {
        f
    };
    kept.map_values(|l: Seq<u8>| strip_cr(l))
}

/// What a problem text holds: a line with the order count `n`, a line with
/// the capacity, then up to `n` order lines (fewer if the text ends first),
/// each of which must read as an order; lines after them are ignored.
pub open spec fn instance_text(text: Seq<u8>) -> Option<(usize, u32, Seq<Order>)> {
    let ls = text_lines(text);
    if ls.len() < 2 || !is_number_upto(ls[0], usize::MAX as int) || !is_number_upto(
        ls[1],
        u32::MAX as int,
    ) {
        None
    } else {
        let n = number_value(ls[0]);
        let m = if n < ls.len() - 2 {
            n
        } else {
            ls.len() - 2
        };
        if forall|i: int| 0 <= i < m ==> #[trigger] order_line(ls[i + 2]) is Some {
            Some(
                (
                    n as usize,
                    number_value(ls[1]) as u32,
                    Seq::new(m as nat, |i: int| order_line(ls[i + 2])->0),
                ),
            )
        } else {
            None
        }
    }
}

/// The range of line `j` of `ranges` without its trailing carriage return.
fn line_range(b: &[u8], ranges: &Vec<(usize, usize)>, j: usize) -> (r: (usize, usize))
    requires
        j < ranges@.len(),
        ranges@[j as int].0 <= ranges@[j as int].1 <= b@.len(),
    ensures
        r.0 <= r.1 <= b@.len(),
        b@.subrange(r.0 as int, r.1 as int) == strip_cr(
            b@.subrange(ranges@[j as int].0 as int, ranges@[j as int].1 as int),
        ),
{
    let (a, z) = ranges[j];
    if z > a && b[z - 1] == 13 {
        assert(b@.subrange(a as int, z - 1) =~= b@.subrange(a as int, z as int).drop_last());
        (a, z - 1)
    } else {
        (a, z)
    }
}

impl TkpInstance {
    /// Reads a problem from its text (see [`instance_text`]) and gives it
    /// `name` and a random stream seeded with `seed`. `None` when the text is
    /// not of that form.
    pub fn parse_from_text(text: &str, name: String, seed: u64) -> (r: Option<TkpInstance>)
        ensures
            match r {
                Some(inst) => {
                    &&& instance_text(text.spec_bytes()) == Some(
                        (inst.order_count, inst.capacity, inst.orders@),
                    )
                    &&& inst.name@ == name@
                },
                None => instance_text(text.spec_bytes()) is None,
            },
    {
        let b = text.as_bytes();
        let ghost t = b@;
        assert(b@.subrange(0, b@.len() as int) =~= b@);
        let ranges = split_ranges(b, 0, b.len(), 10);
        let ghost f = fields(t, 10);
        let ghost ls = text_lines(t);
        proof {
            lemma_fields_nonempty(t, 10);
        }
        let last = ranges.len() - 1;
        let mut lines = ranges.len();
        if ranges[last].0 == ranges[last].1 {
            lines = last;
        }
        assert(lines == ls.len());
        assert forall|j: int| 0 <= j < lines implies #[trigger] ls[j] == strip_cr(f[j]) by {}
        if lines < 2 {
            return None;
        }
        let (a0, z0) = line_range(b, &ranges, 0);
        let (a1, z1) = line_range(b, &ranges, 1);
        let count = parse_number(b, a0, z0, usize::MAX as u64);
        let capacity = parse_number(b, a1, z1, u32::MAX as u64);
        if count.is_none() || capacity.is_none() {
            return None;
        }
        proof {
            lemma_digits_nonneg(unsigned_part(ls[0]));
            lemma_digits_nonneg(unsigned_part(ls[1]));
        }
        let n = count.unwrap() as usize;
        let capacity = capacity.unwrap() as u32;
        assert(n == number_value(ls[0]));
        assert(capacity == number_value(ls[1]));
        let m = if n < lines - 2 {
            n
        } else {
            lines - 2
        };
        let mut orders: Vec<Order> = Vec::new();
        let mut i: usize = 0;
        while i < m
            invariant
                t == b@,
                t == text.spec_bytes(),
                ls == text_lines(t),
                f == fields(t, 10),
                lines == ls.len(),
                ranges@.len() == f.len(),
                lines <= ranges@.len(),
                forall|j: int|
                    0 <= j < ranges@.len() ==> {
                        &&& 0 <= (#[trigger] ranges@[j]).0 <= ranges@[j].1 <= b@.len()
                        &&& b@.subrange(ranges@[j].0 as int, ranges@[j].1 as int) == f[j]
                    },
                forall|j: int| 0 <= j < lines ==> #[trigger] ls[j] == strip_cr(f[j]),
                m + 2 <= lines,
                is_number_upto(ls[0], usize::MAX as int),
                is_number_upto(ls[1], u32::MAX as int),
                n == number_value(ls[0]),
                capacity == number_value(ls[1]),
                m == if n < ls.len() - 2 {
                    n as int
                } else {
                    ls.len() - 2
                },
                i <= m,
                orders@.len() == i,
                forall|j: int| 0 <= j < i ==> #[trigger] order_line(ls[j + 2]) == Some(orders@[j]),
            decreases m - i,
        {
            let (a, z) = line_range(b, &ranges, i + 2);
            assert(b@.subrange(a as int, z as int) == ls[i + 2]);
            match parse_order(b, a, z) {
                Some(o) => {
                    orders.push(o);
                },
                None => {
                    assert(order_line(ls[i + 2]) is None);
                    assert(!(forall|x: int| 0 <= x < m ==> #[trigger] order_line(ls[x + 2]) is Some));
                    return None;
                },
            }
            i = i + 1;
        }
        assert(orders@ =~= Seq::new(m as nat, |j: int| order_line(ls[j + 2])->0));
        Some(TkpInstance { order_count: n, capacity, orders, name, rng: seeded_rng(seed) })
    }
}

} // verus!
