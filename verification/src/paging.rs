//! Lists shown page by page.
use vstd::prelude::*;

verus! {

/// How many pages of `per_page` entries `length` entries fill, the last one
/// perhaps in part.
pub open spec fn pages(length: nat, per_page: nat) -> nat
    recommends
        per_page > 0,
{
    ((length + per_page - 1) / per_page as int) as nat
}

/// Where a page begins.
pub open spec fn page_start(page: nat, per_page: nat) -> nat {
    page * per_page
}

/// Where a page ends: at the beginning of the next one, or at the end of the list.
pub open spec fn page_end(page: nat, per_page: nat, length: nat) -> nat {
    let next = (page + 1) * per_page;
    if next <= length {
        next
    } else {
        length
    }
}

/// How many pages `length` entries fill.
pub fn total_pages(length: usize, per_page: usize) -> (total: usize)
    requires
        per_page > 0,
    ensures
        total == pages(length as nat, per_page as nat),
{
    let full: usize = length / per_page;
    let rest: usize = length % per_page;
    proof {
        lemma_page_count(length as int, per_page as int);
    }
    if rest == 0 {
        full
    } else {
        full + 1
    }
}

/// The count of pages by quotient and remainder.
proof fn lemma_page_count(length: int, per_page: int)
    requires
        0 <= length,
        0 < per_page,
    ensures
        (length + per_page - 1) / per_page == length / per_page + (if length % per_page == 0 {
            0int
        } else {
            1int
        }),
        length % per_page != 0 ==> length / per_page < length,
{
    let q = length / per_page;
    let r = length % per_page;
    vstd::arithmetic::div_mod::lemma_fundamental_div_mod(length, per_page);
    assert(q >= 0) by (nonlinear_arith)
        requires
            q == length / per_page,
            0 <= length,
            0 < per_page,
    ;
    assert(per_page * q == q * per_page) by (nonlinear_arith);
    if r == 0 {
        assert(length + per_page - 1 == q * per_page + (per_page - 1));
        vstd::arithmetic::div_mod::lemma_fundamental_div_mod_converse(
            length + per_page - 1,
            per_page,
            q,
            per_page - 1,
        );
    } else {
        assert((q + 1) * per_page == q * per_page + per_page) by (nonlinear_arith);
        assert(length + per_page - 1 == (q + 1) * per_page + (r - 1));
        vstd::arithmetic::div_mod::lemma_fundamental_div_mod_converse(
            length + per_page - 1,
            per_page,
            q + 1,
            r - 1,
        );
        assert(q <= q * per_page) by (nonlinear_arith)
            requires
                0 <= q,
                0 < per_page,
        ;
    }
}

/// Where a page begins and ends.
pub fn page_bounds(page: usize, per_page: usize, length: usize) -> (bounds: (usize, usize))
    requires
        page_start(page as nat, per_page as nat) <= length,
    ensures
        bounds.0 == page_start(page as nat, per_page as nat),
        bounds.1 == page_end(page as nat, per_page as nat, length as nat),
        bounds.0 <= bounds.1 <= length,
        bounds.0 == page * per_page,
        bounds.1 == (if (page + 1) * per_page <= length {
            (page + 1) * per_page
        } else {
            length as int
        }),
{
    let start: usize = page * per_page;
    assert((page + 1) * per_page == page * per_page + per_page) by (nonlinear_arith);
    let end: usize = if length - start < per_page {
        length
    } else {
        start + per_page
    };
    (start, end)
}

/// Whether there is a page after `page` among `total`.
pub fn has_next_page(page: usize, total: usize) -> (more: bool)
    ensures
        more == (page + 1 < total),
{
    total > 1 && page < total - 1
}

/// The page and the number of pages as the user counts them: from one, and one
/// page even of an empty list.
pub fn page_numbers(page: usize, total: usize) -> (numbers: (usize, usize))
    requires
        page < usize::MAX,
    ensures
        numbers.0 == page + 1,
        numbers.1 == (if total > 1 { total } else { 1 }),
{
    (page + 1, if total > 1 { total } else { 1 })
}

/// A list has no pages exactly when it has no entries.
pub proof fn lemma_no_pages(length: nat, per_page: nat)
    requires
        per_page > 0,
    ensures
        pages(length, per_page) == 0 <==> length == 0,
{
    let n = length as int;
    let p = per_page as int;
    vstd::arithmetic::div_mod::lemma_fundamental_div_mod(n + p - 1, p);
    let q = (n + p - 1) / p;
    if length == 0 {
        vstd::arithmetic::div_mod::lemma_fundamental_div_mod_converse(p - 1, p, 0, p - 1);
    } else {
        assert(q >= 1) by (nonlinear_arith)
            requires
                n >= 1,
                p > 0,
                n + p - 1 == p * q + (n + p - 1) % p,
                (n + p - 1) % p < p,
        ;
    }
}

/// A list has as many pages as it takes to hold its entries, and no more. A page begins
/// behind as many entries as the pages before it hold, and ends a page further on or
/// where the list ends.
pub proof fn lemma_pages_hold(length: nat, per_page: nat, page: nat)
    requires
        per_page > 0,
    ensures
        length <= pages(length, per_page) * per_page,
        pages(length, per_page) > 0 ==> (pages(length, per_page) - 1) * per_page < length,
        page_start(page, per_page) == page * per_page,
        (page + 1) * per_page <= length ==> page_end(page, per_page, length) == (page + 1)
            * per_page,
        (page + 1) * per_page >= length ==> page_end(page, per_page, length) == length,
{
    let n = length as int;
    let p = per_page as int;
    let total = pages(length, per_page) as int;
    vstd::arithmetic::div_mod::lemma_fundamental_div_mod(n + p - 1, p);
    assert((n + p - 1) / p >= 0) by (nonlinear_arith)
        requires
            n >= 0,
            p > 0,
    ;
    assert(p * total == total * p) by (nonlinear_arith);
    assert((total - 1) * p == total * p - p) by (nonlinear_arith);
}

/// The pages of a list lie end to end: the first begins where the list does, each
/// begins where the one before ends, none is empty, none is longer than a page,
/// and the last ends where the list does.
pub proof fn lemma_pages_cover(length: nat, per_page: nat, page: nat)
    requires
        per_page > 0,
        page < pages(length, per_page),
    ensures
        page_start(0, per_page) == 0,
        page_start(page, per_page) < page_end(page, per_page, length) <= length,
        page_end(page, per_page, length) <= page_start(page, per_page) + per_page,
        page + 1 < pages(length, per_page) ==> page_end(page, per_page, length) == page_start(
            page + 1,
            per_page,
        ),
        page + 1 == pages(length, per_page) ==> page_end(page, per_page, length) == length,
{
    let total = pages(length, per_page) as int;
    let n = length as int;
    let p = per_page as int;
    let k = page as int;
    vstd::arithmetic::div_mod::lemma_fundamental_div_mod(n + p - 1, p);
    assert(total >= 0);
    let r = (n + p - 1) % p;
    assert(n + p - 1 == p * total + r);
    assert(0 <= r < p);
    assert(k * p <= (total - 1) * p) by (nonlinear_arith)
        requires
            k <= total - 1,
            0 < p,
    ;
    assert((total - 1) * p == p * total - p) by (nonlinear_arith);
    assert((k + 1) * p == k * p + p) by (nonlinear_arith);
    if k + 1 < total {
        assert((k + 1) * p <= (total - 1) * p) by (nonlinear_arith)
            requires
                k + 1 <= total - 1,
                0 < p,
        ;
    }
    assert(0 * p == 0) by (nonlinear_arith);
}

} // verus!
