//! Column selectors.
//!
//! A selector is a list of items separated by commas. An item is a
//! column index counted from 1, a range of indices `first-last`, or the name
//! of a column. It resolves, against the headers of a dataset, to the column
//! positions that it names, counted from 0, in the order in which it names
//! them.

use vstd::prelude::*;
use vstd::slice::{slice_subrange, slice_to_vec};
use crate::error::{JoinError, Side};
use crate::relation::in_range;
use crate::row::{bytes_equal, row_view, Fields, Row};

verus! {

/// The index of the first byte `b` in `s`; the length of `s` where it has
/// none.
pub open spec fn first_of(s: Seq<u8>, b: u8) -> int
    decreases s.len(),
{
    if s.len() == 0 || s[0] == b {
        0
    } else {
        1 + first_of(s.drop_first(), b)
    }
}

/// A place in `s` with no byte `b` before it, which is the end of `s` or
/// holds `b`, is the one that [`first_of`] gives.
pub proof fn lemma_first_of(s: Seq<u8>, b: u8, at: int)
    requires
        0 <= at <= s.len(),
        forall|i: int| 0 <= i < at ==> s[i] != b,
        at == s.len() || s[at] == b,
    ensures
        first_of(s, b) == at,
    decreases s.len(),
{
    if at > 0 {
        let tail = s.drop_first();
        assert forall|i: int| 0 <= i < at - 1 implies tail[i] != b by {
            assert(tail[i] == s[i + 1]);
        }
        lemma_first_of(tail, b, at - 1);
    }
}

/// `s` is a decimal number: one digit or more, and nothing else.
pub open spec fn all_digits(s: Seq<u8>) -> bool {
    s.len() > 0 && forall|i: int| 0 <= i < s.len() ==> 0x30 <= #[trigger] s[i] <= 0x39
}

/// The value of the decimal number `s`.
pub open spec fn number(s: Seq<u8>) -> nat
    decreases s.len(),
{
    if s.len() == 0 {
        0
    } else {
        number(s.drop_last()) * 10 + (s.last() - 0x30) as nat
    }
}

/// The index of the first of `headers` that is `name`; the number of headers
/// where none is.
pub open spec fn first_named(headers: Fields, name: Seq<u8>) -> int
    decreases headers.len(),
{
    if headers.len() == 0 || headers[0] == name {
        0
    } else {
        1 + first_named(headers.drop_first(), name)
    }
}

/// A place in `headers` with no `name` before it, which is their end or
/// holds `name`, is the one that [`first_named`] gives.
pub proof fn lemma_first_named(headers: Fields, name: Seq<u8>, at: int)
    requires
        0 <= at <= headers.len(),
        forall|i: int| 0 <= i < at ==> headers[i] != name,
        at == headers.len() || headers[at] == name,
    ensures
        first_named(headers, name) == at,
    decreases headers.len(),
{
    if at > 0 {
        let tail = headers.drop_first();
        assert forall|i: int| 0 <= i < at - 1 implies tail[i] != name by {
            assert(tail[i] == headers[i + 1]);
        }
        lemma_first_named(tail, name, at - 1);
    }
}

/// The positions that one item names, or `None` where it names none.
///
/// An item of digits is an index, and names the column of that index if
/// there is one. An item of digits, a hyphen and digits is a range, and
/// names the columns from its first index up to its last if the headers have
/// them all and the first does not lie behind the last. Any other item is a
/// name, and names the first column whose header it is; where `named` is
/// not set, no name resolves.
pub open spec fn resolve_item(item: Seq<u8>, headers: Fields, named: bool) -> Option<Seq<usize>> {
    let dash = first_of(item, 0x2d);
    if all_digits(item) {
        let n = number(item);
        if 1 <= n <= headers.len() {
            Some(seq![(n - 1) as usize])
        } else {
            None
        }
    } else if dash < item.len() && all_digits(item.take(dash)) && all_digits(item.skip(dash + 1)) {
        let first = number(item.take(dash));
        let last = number(item.skip(dash + 1));
        if 1 <= first <= last <= headers.len() {
            Some(Seq::new((last - first + 1) as nat, |i: int| (first - 1 + i) as usize))
        } else {
            None
        }
    } else if named && first_named(headers, item) < headers.len() {
        Some(seq![first_named(headers, item) as usize])
    } else {
        None
    }
}

/// `done` and `items` put in front of what the rest of a selector
/// resolves to: positions before positions, and the count of items before
/// the index of the item that fails.
pub open spec fn after(done: Seq<usize>, items: nat, rest: Result<Seq<usize>, nat>) -> Result<
    Seq<usize>,
    nat,
> {
    match rest {
        Ok(sel) => Ok(done + sel),
        Err(item) => Err(items + item),
    }
}

/// The positions that a selector names: those of its items, in order.
/// Where an item names none, the index of the first such item, counted
/// from 0.
pub open spec fn resolve(text: Seq<u8>, headers: Fields, named: bool) -> Result<Seq<usize>, nat>
    decreases text.len(),
{
    let comma = first_of(text, 0x2c);
    match resolve_item(text.take(comma), headers, named) {
        None => Err(0),
        Some(sel) => if 0 <= comma < text.len() {
            after(sel, 1, resolve(text.skip(comma + 1), headers, named))
        } else {
            Ok(sel)
        },
    }
}

/// The place of the first byte `b` of `s`, or the length of `s`.
fn position_of(s: &[u8], b: u8) -> (at: usize)
    ensures
        at == first_of(s@, b),
        at <= s@.len(),
{
    let mut at: usize = 0;
    while at < s.len() && s[at] != b
        invariant
            at <= s@.len(),
            forall|i: int| 0 <= i < at ==> s@[i] != b,
        decreases s@.len() - at,
    {
        at += 1;
    }
    proof {
        lemma_first_of(s@, b, at as int);
    }
    at
}

/// Tells whether `s` is a decimal number.
fn is_number(s: &[u8]) -> (yes: bool)
    ensures
        yes == all_digits(s@),
{
    if s.len() == 0 {
        return false;
    }
    let mut i: usize = 0;
    while i < s.len()
        invariant
            i <= s@.len(),
            forall|k: int| 0 <= k < i ==> 0x30 <= #[trigger] s@[k] <= 0x39,
        decreases s@.len() - i,
    {
        if s[i] < 0x30 || s[i] > 0x39 {
            return false;
        }
        i += 1;
    }
    true
}

/// A number is at least the number that its first `i` digits make.
proof fn lemma_number_grows(s: Seq<u8>, i: int)
    requires
        0 <= i <= s.len(),
        all_digits(s),
    ensures
        number(s.take(i)) <= number(s),
    decreases s.len() - i,
{
    if i < s.len() {
        let longer = s.take(i + 1);
        assert(longer.drop_last() =~= s.take(i));
        assert(longer.last() == s[i]);
        lemma_number_grows(s, i + 1);
    } else {
        assert(s.take(i) =~= s);
    }
}

/// The value of the number `s`, if it is at most `limit`.
fn value_within(s: &[u8], limit: usize) -> (value: Option<usize>)
    requires
        all_digits(s@),
    ensures
        match value {
            Some(n) => n == number(s@) && n <= limit,
            None => number(s@) > limit,
        },
{
    let mut n: usize = 0;
    let mut i: usize = 0;
    proof {
        assert(s@.take(0) =~= Seq::<u8>::empty());
    }
    while i < s.len()
        invariant
            i <= s@.len(),
            all_digits(s@),
            n == number(s@.take(i as int)),
            n <= limit,
        decreases s@.len() - i,
    {
        let digit = (s[i] - 0x30) as usize;
        proof {
            let longer = s@.take(i + 1);
            assert(longer.drop_last() =~= s@.take(i as int));
            assert(longer.last() == s@[i as int]);
            assert(number(longer) == n * 10 + digit);
            lemma_number_grows(s@, i + 1);
        }
        if n > limit / 10 {
            return None;
        }
        if digit > limit || n * 10 > limit - digit {
            return None;
        }
        n = n * 10 + digit;
        i += 1;
    }
    proof {
        assert(s@.take(i as int) =~= s@);
    }
    Some(n)
}

/// The place of the first of `headers` that is `name`, or their number.
fn position_named(headers: &Row, name: &[u8]) -> (at: usize)
    ensures
        at == first_named(row_view(*headers), name@),
        at <= headers@.len(),
{
    let wanted = slice_to_vec(name);
    let mut at: usize = 0;
    while at < headers.len() && !bytes_equal(&headers[at], &wanted)
        invariant
            at <= headers@.len(),
            wanted@ == name@,
            forall|i: int| 0 <= i < at ==> headers@[i]@ != name@,
        decreases headers@.len() - at,
    {
        at += 1;
    }
    proof {
        lemma_first_named(row_view(*headers), name@, at as int);
    }
    at
}

/// Appends to `sel` the positions that `item` names. Tells whether it names
/// any; where it does not, `sel` stays as it is.
fn push_item(item: &[u8], headers: &Row, named: bool, sel: &mut Vec<usize>) -> (found: bool)
    ensures
        match resolve_item(item@, row_view(*headers), named) {
            Some(more) => found && final(sel)@ == old(sel)@ + more && in_range(
                more,
                headers@.len() as nat,
            ),
            None => !found && final(sel)@ == old(sel)@,
        },
{
    let width = headers.len();
    let dash = position_of(item, 0x2d);
    if is_number(item) {
        match value_within(item, width) {
            Some(n) => {
                if n >= 1 {
                    sel.push(n - 1);
                    proof {
                        assert(final(sel)@ =~= old(sel)@ + seq![(n - 1) as usize]);
                    }
                    return true;
                }
                false
            },
            None => false,
        }
    } else if dash < item.len() && is_number(slice_subrange(item, 0, dash)) && is_number(
        slice_subrange(item, dash + 1, item.len()),
    ) {
        let first = match value_within(slice_subrange(item, 0, dash), width) {
            Some(n) => n,
            None => {
                return false;
            },
        };
        let last = match value_within(slice_subrange(item, dash + 1, item.len()), width) {
            Some(n) => n,
            None => {
                return false;
            },
        };
        if first < 1 || first > last {
            return false;
        }
        let ghost more = Seq::new((last - first + 1) as nat, |i: int| (first - 1 + i) as usize);
        let mut at: usize = first - 1;
        proof {
            assert(sel@ =~= old(sel)@ + more.take(0));
        }
        while at < last
            invariant
                1 <= first <= at + 1 <= last + 1,
                last <= width,
                sel@ == old(sel)@ + more.take(at + 1 - first),
                more == Seq::new((last - first + 1) as nat, |i: int| (first - 1 + i) as usize),
            decreases last - at,
        {
            sel.push(at);
            proof {
                assert(more.take(at + 2 - first) =~= more.take(at + 1 - first).push(at));
                assert(sel@ =~= old(sel)@ + more.take(at + 2 - first));
            }
            at += 1;
        }
        proof {
            assert(more.take(at + 1 - first) =~= more);
        }
        true
    } else if named {
        let at = position_named(headers, item);
        if at < width {
            sel.push(at);
            proof {
                assert(final(sel)@ =~= old(sel)@ + seq![at]);
            }
            true
        } else {
            false
        }
    } else {
        false
    }
}

/// Positions and a count put in front twice are their sums put in front
/// once.
proof fn lemma_after_twice(
    done: Seq<usize>,
    items: nat,
    more: Seq<usize>,
    rest: Result<Seq<usize>, nat>,
)
    ensures
        after(done, items, after(more, 1, rest)) == after(done + more, items + 1, rest),
{
    match rest {
        Ok(tail) => {
            assert(done + (more + tail) =~= (done + more) + tail);
        },
        Err(_) => {},
    }
}

/// What a selector resolves to, by its first item and what follows
/// the first comma.
proof fn lemma_resolve_unfold(text: Seq<u8>, headers: Fields, named: bool)
    ensures
        resolve(text, headers, named) == match resolve_item(
            text.take(first_of(text, 0x2c)),
            headers,
            named,
        ) {
            None => Err::<Seq<usize>, nat>(0),
            Some(sel) => if 0 <= first_of(text, 0x2c) < text.len() {
                after(sel, 1, resolve(text.skip(first_of(text, 0x2c) + 1), headers, named))
            } else {
                Ok::<Seq<usize>, nat>(sel)
            },
        },
{
}

/// Resolves a column selector against the headers of a dataset.
///
/// Gives the positions that the items name, in the order of the items, all
/// of them inside the headers. Fails at the first item that names nothing,
/// with the index of that item and the side given. `named` says whether
/// names may be used: it is not set for a dataset without headers.
pub fn resolve_columns(text: &[u8], headers: &Row, named: bool, side: Side) -> (res: Result<
    Vec<usize>,
    JoinError,
>)
    ensures
        match resolve(text@, row_view(*headers), named) {
            Ok(sel) => res is Ok && res->Ok_0@ == sel && in_range(sel, headers@.len() as nat),
            Err(item) => res == Err::<Vec<usize>, JoinError>(
                JoinError::BadColumn { side, item: item as usize },
            ),
        },
{
    let ghost fields = row_view(*headers);
    let mut sel: Vec<usize> = Vec::new();
    let mut rest: &[u8] = text;
    let mut items: usize = 0;
    proof {
        vstd::slice::axiom_spec_len(text);
        match resolve(rest@, fields, named) {
            Ok(more) => {
                assert(sel@ + more =~= more);
            },
            Err(_) => {},
        }
    }
    loop
        invariant
            fields == row_view(*headers),
            items + rest@.len() <= text@.len() <= usize::MAX,
            resolve(text@, fields, named) == after(sel@, items as nat, resolve(rest@, fields, named)),
            in_range(sel@, headers@.len() as nat),
        decreases rest@.len(),
    {
        let ghost whole = rest@;
        let ghost before = sel@;
        let comma = position_of(rest, 0x2c);
        let item = slice_subrange(rest, 0, comma);
        proof {
            assert(item@ =~= whole.take(comma as int));
            lemma_resolve_unfold(whole, fields, named);
        }
        if !push_item(item, headers, named, &mut sel) {
            proof {
                assert(resolve(whole, fields, named) == Err::<Seq<usize>, nat>(0));
            }
            return Err(JoinError::BadColumn { side, item: items });
        }
        let ghost more = resolve_item(item@, fields, named)->Some_0;
        if comma == rest.len() {
            proof {
                assert(resolve(whole, fields, named) == Ok::<Seq<usize>, nat>(more));
            }
            return Ok(sel);
        }
        rest = slice_subrange(rest, comma + 1, rest.len());
        proof {
            assert(rest@ =~= whole.skip(comma + 1));
            assert(rest@.len() == whole.len() - comma - 1);
            assert(resolve(whole, fields, named) == after(more, 1, resolve(rest@, fields, named)));
            lemma_after_twice(before, items as nat, more, resolve(rest@, fields, named));
        }
        items += 1;
    }
}

} // verus!
