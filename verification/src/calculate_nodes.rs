use vstd::prelude::*;

verus! {

/// `k` raised to the power `e`, as a natural number.
pub open spec fn power(k: nat, e: nat) -> nat
    decreases e,
{
    if e == 0 {
        1
    } else {
        power(k, (e - 1) as nat) * k
    }
}

/// The number of nodes of a complete `k`-ary tree with `h` levels:
/// `k^0 + k^1 + ... + k^(h - 1)`.
pub open spec fn tree_node_count(k: nat, h: nat) -> nat
    decreases h,
{
    if h == 0 {
        0
    } else {
        tree_node_count(k, (h - 1) as nat) + power(k, (h - 1) as nat)
    }
}

/// What `page_count_per_bot` returns: the closed form `(k^h - 1) / (k - 1)`,
/// `None` when `k^h` does not fit in a `u128`, and `h` itself when `k` is 1
/// (the division by zero is answered with the depth).
pub open spec fn page_count_spec(links_per_page: u8, max_depth: u32) -> Option<u128> {
    let k = links_per_page as nat;
    let h = max_depth as nat;
    if k == 1 {
        Some(max_depth as u128)
    } else if power(k, h) > u128::MAX {
        None
    } else {
        Some(((power(k, h) - 1) / (k - 1)) as u128)
    }
}

proof fn lemma_power_positive(k: nat, e: nat)
    requires
        k >= 1,
    ensures
        power(k, e) >= 1,
    decreases e,
{
    if e > 0 {
        lemma_power_positive(k, (e - 1) as nat);
        let p = power(k, (e - 1) as nat);
        assert(p * k >= 1) by (nonlinear_arith)
            requires
                p >= 1,
                k >= 1,
        ;
    }
}

proof fn lemma_power_monotone(k: nat, a: nat, b: nat)
    requires
        k >= 1,
        a <= b,
    ensures
        power(k, a) <= power(k, b),
    decreases b - a,
{
    if a < b {
        lemma_power_monotone(k, a, (b - 1) as nat);
        let p = power(k, (b - 1) as nat);
        assert(p <= p * k) by (nonlinear_arith)
            requires
                k >= 1,
        ;
    }
}

/// `(k - 1) * (k^0 + ... + k^(h-1)) == k^h - 1`.
proof fn lemma_geometric_sum(k: nat, h: nat)
    requires
        k >= 1,
    ensures
        (k - 1) * tree_node_count(k, h) == power(k, h) - 1,
    decreases h,
{
    if h == 0 {
        assert(tree_node_count(k, 0) == 0);
        assert(power(k, 0) == 1);
    } else {
        lemma_geometric_sum(k, (h - 1) as nat);
        let t = tree_node_count(k, (h - 1) as nat);
        let p = power(k, (h - 1) as nat);
        assert(tree_node_count(k, h) == t + p);
        assert(power(k, h) == p * k);
        assert((k - 1) * (t + p) == p * k - 1) by (nonlinear_arith)
            requires
                (k - 1) * t == p - 1,
                k >= 1,
        ;
    }
}

/// With one link per page the tree is a path: it has exactly `h` nodes.
proof fn lemma_single_link_tree(h: nat)
    ensures
        tree_node_count(1, h) == h,
    decreases h,
{
    if h > 0 {
        lemma_single_link_tree((h - 1) as nat);
        lemma_power_positive(1, (h - 1) as nat);
        assert(power(1, (h - 1) as nat) == 1) by {
            lemma_power_one((h - 1) as nat);
        }
    }
}

proof fn lemma_power_one(e: nat)
    ensures
        power(1, e) == 1,
    decreases e,
{
    if e > 0 {
        lemma_power_one((e - 1) as nat);
    }
}

/// The closed form is the node count of the `k`-ary tree whenever it is
/// defined: every page a crawler can reach is counted exactly once.
pub proof fn lemma_page_count_is_tree_size(links_per_page: u8, max_depth: u32)
    requires
        links_per_page >= 1,
    ensures
        page_count_spec(links_per_page, max_depth) matches Some(v) ==> v == tree_node_count(
            links_per_page as nat,
            max_depth as nat,
        ),
{
    let k = links_per_page as nat;
    let h = max_depth as nat;
    if k == 1 {
        lemma_single_link_tree(h);
    } else {
        lemma_geometric_sum(k, h);
        let t = tree_node_count(k, h);
        let p = power(k, h);
        lemma_power_positive(k, h);
        assert((p - 1) / (k - 1) == t) by (nonlinear_arith)
            requires
                (k - 1) * t == p - 1,
                k >= 2,
        ;
    }
}

/// A tree one level deeper is a root with `k` copies of the shallower tree
/// below it.
proof fn lemma_tree_one_level_deeper(k: nat, h: nat)
    ensures
        tree_node_count(k, h + 1) == 1 + k * tree_node_count(k, h),
    decreases h,
{
    if h == 0 {
        assert(tree_node_count(k, 1) == tree_node_count(k, 0) + power(k, 0));
    } else {
        lemma_tree_one_level_deeper(k, (h - 1) as nat);
        let t = tree_node_count(k, (h - 1) as nat);
        let p = power(k, (h - 1) as nat);
        assert(tree_node_count(k, h) == t + p);
        assert(power(k, h) == p * k);
        assert(tree_node_count(k, h + 1) == tree_node_count(k, h) + power(k, h));
        assert(1 + k * (t + p) == (1 + k * t) + p * k) by (nonlinear_arith);
    }
}

/// Page counts of consecutive depths: no pages at depth 0, and one level
/// more gives the root page plus `links_per_page` times the pages of the
/// shallower crawl; whenever the deeper count is defined, so is the
/// shallower one.
pub proof fn lemma_page_count_recurrence(links_per_page: u8, max_depth: u32)
    requires
        links_per_page >= 1,
        max_depth < u32::MAX,
    ensures
        page_count_spec(links_per_page, 0) == Some(0u128),
        page_count_spec(links_per_page, (max_depth + 1) as u32) matches Some(v) ==> (page_count_spec(
            links_per_page,
            max_depth,
        ) matches Some(u) && v == 1 + links_per_page * u),
{
    let k = links_per_page as nat;
    let h = max_depth as nat;
    assert(power(k, 0) == 1);
    if k == 1 {
        lemma_power_one(h + 1);
    } else {
        if power(k, h + 1) <= u128::MAX {
            lemma_power_monotone(k, h, h + 1);
            lemma_page_count_is_tree_size(links_per_page, max_depth);
            lemma_page_count_is_tree_size(links_per_page, (max_depth + 1) as u32);
            lemma_tree_one_level_deeper(k, h);
        }
    }
}

/// How many pages one crawler can be led through: the number of nodes of a
/// `links_per_page`-ary tree `max_depth` levels deep, or `None` when
/// `links_per_page ^ max_depth` overflows a `u128`.
pub fn page_count_per_bot(links_per_page: u8, max_depth: u32) -> (count: Option<u128>)
    requires
        links_per_page >= 1,
    ensures
        count == page_count_spec(links_per_page, max_depth),
        count matches Some(v) ==> v == tree_node_count(links_per_page as nat, max_depth as nat),
        count is None <==> (links_per_page >= 2 && power(links_per_page as nat, max_depth as nat)
            > u128::MAX),
{
    let k: u128 = links_per_page as u128;
    let h: u32 = max_depth;
    let mut p: u128 = 1;
    let mut i: u32 = 0;
    while i < h
        invariant
            1 <= k <= 255,
            k == links_per_page,
            h == max_depth,
            i <= h,
            p == power(k as nat, i as nat),
        decreases h - i,
    {
        match p.checked_mul(k) {
            Some(q) => {
                p = q;
            },
            None => {
                proof {
                    assert(power(k as nat, (i + 1) as nat) == p * k);
                    lemma_power_monotone(k as nat, (i + 1) as nat, h as nat);
                    lemma_power_one(h as nat);
                }
                return None;
            },
        }
        assert(p == power(k as nat, (i + 1) as nat));
        i = i + 1;
    }
    proof {
        lemma_power_positive(k as nat, h as nat);
        lemma_power_one(h as nat);
        lemma_page_count_is_tree_size(links_per_page, max_depth);
    }
    let num: u128 = p - 1;
    let denom: u128 = k - 1;
    match num.checked_div(denom) {
        Some(q) => Some(q),
        None => Some(max_depth as u128),
    }
}

} // verus!
