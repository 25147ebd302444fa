use vstd::prelude::*;
use crate::model::{CustomerChartDatum, CustomerGroup, EnvStatus, Filter};
use crate::sorting::{is_stable_sort_of, lemma_filter_push, sort_stable, total_preorder};
use crate::text::{lemma_text_order, same_text, text_le, text_le_exec, text_lt, text_lt_exec};

verus! {

/// Whether the dashboard filter lets an environment through.
pub open spec fn passes(filter: Filter, e: EnvStatus) -> bool {
    match filter {
        Filter::All => true,
        Filter::Failed => e.err > 0,
        Filter::Healthy => e.err == 0,
    }
}

/// `passes` as a predicate.
pub open spec fn passes_pred(filter: Filter) -> spec_fn(EnvStatus) -> bool {
    |e: EnvStatus| passes(filter, e)
}

/// The environments that the filter lets through, in their order.
pub open spec fn included(items: Seq<EnvStatus>, filter: Filter) -> Seq<EnvStatus> {
    items.filter(passes_pred(filter))
}

/// Environments of customer `c`.
pub open spec fn of_customer(c: Seq<char>) -> spec_fn(EnvStatus) -> bool {
    |e: EnvStatus| e.customer@ == c
}

/// The environments of customer `c` among `envs`, in their order.
pub open spec fn members(envs: Seq<EnvStatus>, c: Seq<char>) -> Seq<EnvStatus> {
    envs.filter(of_customer(c))
}

/// The sum of `f` over `s`.
pub open spec fn sum_by(s: Seq<EnvStatus>, f: spec_fn(EnvStatus) -> int) -> int
    decreases s.len(),
{
    if s.len() == 0 {
        0
    } else {
        sum_by(s.drop_last(), f) + f(s.last())
    }
}

pub open spec fn total_field() -> spec_fn(EnvStatus) -> int {
    |e: EnvStatus| e.total as int
}

pub open spec fn ok_field() -> spec_fn(EnvStatus) -> int {
    |e: EnvStatus| e.ok as int
}

pub open spec fn err_field() -> spec_fn(EnvStatus) -> int {
    |e: EnvStatus| e.err as int
}

/// Environments ordered by name.
pub open spec fn env_name_order() -> spec_fn(EnvStatus, EnvStatus) -> bool {
    |a: EnvStatus, b: EnvStatus| text_le(a.env_name@, b.env_name@)
}

/// Some group is that of customer `c`.
pub open spec fn has_customer(gs: Seq<CustomerGroup>, c: Seq<char>) -> bool {
    exists|k: int| 0 <= k < gs.len() && #[trigger] gs[k].customer@ == c
}

/// Some environment among `envs` is of customer `c`.
pub open spec fn names_customer(envs: Seq<EnvStatus>, c: Seq<char>) -> bool {
    exists|m: int| 0 <= m < envs.len() && #[trigger] envs[m].customer@ == c
}

/// The groups stand in strictly ascending order of their customers.
pub open spec fn customers_ascending(gs: Seq<CustomerGroup>) -> bool {
    forall|i: int, j: int|
        0 <= i < j < gs.len() ==> text_lt(#[trigger] gs[i].customer@, #[trigger] gs[j].customer@)
}

/// The sums of each customer's totals, ok counts and error counts fit in a `usize`.
pub open spec fn sums_fit(envs: Seq<EnvStatus>) -> bool {
    forall|c: Seq<char>|
        #![trigger members(envs, c)]
        sum_by(members(envs, c), total_field()) <= usize::MAX && sum_by(members(envs, c), ok_field())
            <= usize::MAX && sum_by(members(envs, c), err_field()) <= usize::MAX
}

/// Group `g` holds exactly the environments of its customer among `envs`, in their order,
/// with their sums.
pub open spec fn group_of(g: CustomerGroup, envs: Seq<EnvStatus>) -> bool {
    &&& g.envs@ == members(envs, g.customer@)
    &&& g.total == sum_by(members(envs, g.customer@), total_field())
    &&& g.ok == sum_by(members(envs, g.customer@), ok_field())
    &&& g.err == sum_by(members(envs, g.customer@), err_field())
}

/// `g` is the group of its customer among `envs`, with the environments ordered by name.
pub open spec fn sorted_group_of(g: CustomerGroup, envs: Seq<EnvStatus>) -> bool {
    &&& is_stable_sort_of(g.envs@, members(envs, g.customer@), env_name_order())
    &&& g.total == sum_by(members(envs, g.customer@), total_field())
    &&& g.ok == sum_by(members(envs, g.customer@), ok_field())
    &&& g.err == sum_by(members(envs, g.customer@), err_field())
}

pub proof fn lemma_sum_concat(a: Seq<EnvStatus>, b: Seq<EnvStatus>, f: spec_fn(EnvStatus) -> int)
    ensures
        sum_by(a + b, f) == sum_by(a, f) + sum_by(b, f),
    decreases b.len(),
{
    if b.len() == 0 {
        assert(a + b =~= a);
    } else {
        lemma_sum_concat(a, b.drop_last(), f);
        assert((a + b).drop_last() =~= a + b.drop_last());
    }
}

proof fn lemma_sum_nonneg(s: Seq<EnvStatus>, f: spec_fn(EnvStatus) -> int)
    requires
        forall|e: EnvStatus| #[trigger] f(e) >= 0,
    ensures
        sum_by(s, f) >= 0,
    decreases s.len(),
{
    if s.len() > 0 {
        lemma_sum_nonneg(s.drop_last(), f);
    }
}

/// The sum over the members of a prefix is at most the sum over all members.
proof fn lemma_prefix_sum(s: Seq<EnvStatus>, n: int, c: Seq<char>, f: spec_fn(EnvStatus) -> int)
    requires
        0 <= n <= s.len(),
        forall|e: EnvStatus| #[trigger] f(e) >= 0,
    ensures
        sum_by(members(s.take(n), c), f) <= sum_by(members(s, c), f),
{
    assert(s =~= s.take(n) + s.skip(n));
    Seq::filter_distributes_over_add(s.take(n), s.skip(n), of_customer(c));
    lemma_sum_concat(members(s.take(n), c), members(s.skip(n), c), f);
    lemma_sum_nonneg(members(s.skip(n), c), f);
}

/// Ordering by name is a total preorder.
pub proof fn lemma_env_name_order()
    ensures
        total_preorder(env_name_order()),
{
    lemma_text_order();
}

/// Whether `a` may stand before `b` when environments are ordered by name.
fn env_name_in_order(a: &EnvStatus, b: &EnvStatus) -> (o: bool)
    ensures
        o == env_name_order()(*a, *b),
{
    text_le_exec(a.env_name.as_str(), b.env_name.as_str())
}

/// Whether `a` may stand before `b` in the customer chart.
fn chart_in_order(a: &CustomerChartDatum, b: &CustomerChartDatum) -> (o: bool)
    ensures
        o == chart_order()(*a, *b),
{
    a.total > b.total || (a.total == b.total && text_le_exec(a.customer.as_str(), b.customer.as_str()))
}

/// Whether the filter lets `e` through.
fn passes_exec(filter: Filter, e: &EnvStatus) -> (r: bool)
    ensures
        r == passes(filter, *e),
{
    match filter {
        Filter::All => true,
        Filter::Failed => e.err > 0,
        Filter::Healthy => e.err == 0,
    }
}

/// The environments that the filter lets through.
fn filter_envs(items: Vec<EnvStatus>, filter: Filter) -> (r: Vec<EnvStatus>)
    ensures
        r@ == included(items@, filter),
{
    let ghost s = items@;
    let mut r: Vec<EnvStatus> = Vec::new();
    proof {
        reveal(Seq::filter);
        assert(s.take(0) =~= Seq::<EnvStatus>::empty());
    }
    for x in it: items
        invariant
            it.seq() == s,
            r@ == s.take(it.index() as int).filter(passes_pred(filter)),
    {
        proof {
            let i = it.index() as int;
            lemma_filter_push(s.take(i), x, passes_pred(filter));
            assert(s.take(i + 1) =~= s.take(i).push(x));
        }
        if passes_exec(filter, &x) {
            r.push(x);
        }
    }
    assert(s.take(s.len() as int) =~= s);
    r
}

/// Groups `envs` by customer, in ascending order of customers; each group holds the
/// environments of its customer in the order of `envs`.
/// Where a customer's sums do not fit in a `usize`, `None`.
///
/// The groups are kept in a `Vec` in ascending order of customers, which is the order a
/// `BTreeMap` keyed by the customer would give: vstd specifies `BTreeMap` only for keys
/// that obey its model of `Ord`, and it establishes that for no `String`.
fn group_envs(envs: Vec<EnvStatus>) -> (r: Option<Vec<CustomerGroup>>)
    ensures
        match r {
            None => !sums_fit(envs@),
            Some(v) => {
                &&& sums_fit(envs@)
                &&& customers_ascending(v@)
                &&& forall|c: Seq<char>| has_customer(v@, c) <==> names_customer(envs@, c)
                &&& forall|k: int| 0 <= k < v.len() ==> group_of(#[trigger] v@[k], envs@)
            },
        },
{
    let ghost s = envs@;
    let mut groups: Vec<CustomerGroup> = Vec::new();
    proof {
        lemma_text_order();
    }
    for x in it: envs
        invariant
            it.seq() == s,
            customers_ascending(groups@),
            forall|c: Seq<char>|
                has_customer(groups@, c) <==> names_customer(s.take(it.index() as int), c),
            forall|k: int|
                0 <= k < groups.len() ==> group_of(#[trigger] groups@[k], s.take(it.index() as int)),
    {
        let ghost i = it.index() as int;
        let ghost t = s.take(i);
        let ghost t2 = s.take(i + 1);
        let ghost c = x.customer@;
        proof {
            lemma_text_order();
            assert(t2 =~= t.push(x));
            assert(s[i] == x);
        }
        let mut j: usize = 0;
        while j < groups.len() && text_lt_exec(groups[j].customer.as_str(), x.customer.as_str())
            invariant
                j <= groups.len(),
                forall|k: int| 0 <= k < j ==> text_lt(#[trigger] groups@[k].customer@, x.customer@),
            decreases groups.len() - j,
        {
            j = j + 1;
        }
        proof {
            lemma_text_order();
        }
        if j < groups.len() && same_text(groups[j].customer.as_str(), x.customer.as_str()) {
            let ghost old_groups = groups@;
            assert(forall|e: Seq<char>| has_customer(old_groups, e) <==> names_customer(t, e));
            proof {
                lemma_filter_push(t, x, of_customer(c));
                assert(members(t2, c) =~= members(t, c).push(x));
                assert(members(t2, c).drop_last() =~= members(t, c));
                assert(group_of(old_groups[j as int], t));
            }
            if groups[j].total > usize::MAX - x.total || groups[j].ok > usize::MAX - x.ok
                || groups[j].err > usize::MAX - x.err {
                proof {
                    // the sums of customer `c` up to `x` already exceed a `usize`
                    lemma_prefix_sum(s, i + 1, c, total_field());
                    lemma_prefix_sum(s, i + 1, c, ok_field());
                    lemma_prefix_sum(s, i + 1, c, err_field());
                    assert(!(sum_by(members(s, c), total_field()) <= usize::MAX && sum_by(
                        members(s, c),
                        ok_field(),
                    ) <= usize::MAX && sum_by(members(s, c), err_field()) <= usize::MAX));
                }
                return None;
            }
            let mut g = groups.remove(j);
            g.total = g.total + x.total;
            g.ok = g.ok + x.ok;
            g.err = g.err + x.err;
            g.envs.push(x);
            groups.insert(j, g);
            proof {
                assert(groups@ =~= old_groups.update(j as int, g));
                assert forall|k: int| 0 <= k < groups.len() implies group_of(#[trigger] groups@[k], t2) by {
                    if k != j {
                        let d = groups@[k].customer@;
                        assert(groups@[k] == old_groups[k]);
                        if k < j {
                            assert(text_lt(old_groups[k].customer@, old_groups[j as int].customer@));
                        } else {
                            assert(text_lt(old_groups[j as int].customer@, old_groups[k].customer@));
                        }
                        assert(d != c);
                        lemma_filter_push(t, x, of_customer(d));
                        assert(group_of(old_groups[k], t));
                    }
                }
                assert forall|e: Seq<char>| has_customer(groups@, e) <==> names_customer(t2, e) by {
                    if has_customer(groups@, e) {
                        let k = choose|k: int| 0 <= k < groups.len() && #[trigger] groups@[k].customer@ == e;
                        assert(old_groups[k].customer@ == e);
                        assert(has_customer(old_groups, e));
                        let m = choose|m: int| 0 <= m < t.len() && #[trigger] t[m].customer@ == e;
                        assert(t2[m] == t[m]);
                    }
                    if names_customer(t2, e) {
                        let m = choose|m: int| 0 <= m < t2.len() && #[trigger] t2[m].customer@ == e;
                        if m < t.len() {
                            assert(t[m] == t2[m]);
                            assert(names_customer(t, e));
                            let k = choose|k: int| 0 <= k < old_groups.len() && #[trigger] old_groups[k].customer@ == e;
                            assert(groups@[k].customer@ == e);
                        } else {
                            assert(groups@[j as int].customer@ == e);
                        }
                    }
                }
            }
        } else {
            let ghost old_groups = groups@;
            assert(forall|e: Seq<char>| has_customer(old_groups, e) <==> names_customer(t, e));
            let customer = x.customer.clone();
            let total = x.total;
            let ok = x.ok;
            let err = x.err;
            let mut envs_of: Vec<EnvStatus> = Vec::new();
            envs_of.push(x);
            let g = CustomerGroup { customer, total, ok, err, envs: envs_of };
            proof {
                if j < groups.len() {
                    assert(!text_lt(groups@[j as int].customer@, c));
                    assert(groups@[j as int].customer@ != c);
                    assert(text_lt(c, groups@[j as int].customer@));
                }
                reveal(Seq::filter);
                assert forall|k: int| 0 <= k < old_groups.len() implies #[trigger] old_groups[k].customer@ != c by {
                    if k >= j {
                        assert(text_lt(c, old_groups[k].customer@)) by {
                            if k > j {
                                assert(text_lt(old_groups[j as int].customer@, old_groups[k].customer@));
                            }
                        }
                    }
                }
                // no earlier environment is of customer `c`
                assert(!has_customer(old_groups, c));
                assert(!names_customer(t, c));
                assert forall|m: int| 0 <= m < t.len() implies !of_customer(c)(#[trigger] t[m]) by {
                    if t[m].customer@ == c {
                        assert(names_customer(t, c));
                    }
                }
                crate::sorting::lemma_filter_none(t, of_customer(c));
                lemma_filter_push(t, x, of_customer(c));
                assert(members(t2, c) =~= seq![x]);
                assert(members(t2, c).drop_last() =~= Seq::<EnvStatus>::empty());
                assert(g.envs@ =~= seq![x]);
            }
            groups.insert(j, g);
            proof {
                assert(groups@ =~= old_groups.insert(j as int, g));
                assert forall|a: int, b: int|
                    0 <= a < b < groups.len() implies text_lt(#[trigger] groups@[a].customer@, #[trigger] groups@[b].customer@) by {
                    if b < j {
                        assert(groups@[a] == old_groups[a] && groups@[b] == old_groups[b]);
                    } else if b == j {
                        assert(groups@[a] == old_groups[a]);
                    } else if a == j {
                        assert(groups@[b] == old_groups[b - 1]);
                        if b - 1 > j {
                            assert(text_lt(old_groups[j as int].customer@, old_groups[b - 1].customer@));
                        }
                    } else if a < j {
                        assert(groups@[a] == old_groups[a] && groups@[b] == old_groups[b - 1]);
                    } else {
                        assert(groups@[a] == old_groups[a - 1] && groups@[b] == old_groups[b - 1]);
                    }
                }
                assert forall|k: int| 0 <= k < groups.len() implies group_of(#[trigger] groups@[k], t2) by {
                    if k != j {
                        let kk = if k < j { k } else { k - 1 };
                        assert(groups@[k] == old_groups[kk]);
                        let d = old_groups[kk].customer@;
                        assert(d != c);
                        lemma_filter_push(t, x, of_customer(d));
                        assert(group_of(old_groups[kk], t));
                    } else {
                        assert(groups@[k] == g);
                        assert(g.customer@ == c);
                        assert(sum_by(Seq::<EnvStatus>::empty(), total_field()) == 0);
                        assert(sum_by(Seq::<EnvStatus>::empty(), ok_field()) == 0);
                        assert(sum_by(Seq::<EnvStatus>::empty(), err_field()) == 0);
                        assert(members(t2, c).last() == x);
                    }
                }
                assert forall|e: Seq<char>| has_customer(groups@, e) <==> names_customer(t2, e) by {
                    if has_customer(groups@, e) {
                        let k = choose|k: int| 0 <= k < groups.len() && #[trigger] groups@[k].customer@ == e;
                        if k == j {
                            assert(t2[i] == x);
                        } else {
                            let kk = if k < j { k } else { k - 1 };
                            assert(old_groups[kk].customer@ == e);
                            assert(has_customer(old_groups, e));
                            let m = choose|m: int| 0 <= m < t.len() && #[trigger] t[m].customer@ == e;
                            assert(t2[m] == t[m]);
                        }
                    }
                    if names_customer(t2, e) {
                        let m = choose|m: int| 0 <= m < t2.len() && #[trigger] t2[m].customer@ == e;
                        if m < t.len() {
                            assert(t[m] == t2[m]);
                            assert(names_customer(t, e));
                            let k = choose|k: int| 0 <= k < old_groups.len() && #[trigger] old_groups[k].customer@ == e;
                            if k < j {
                                assert(groups@[k].customer@ == e);
                            } else {
                                assert(groups@[k + 1].customer@ == e);
                            }
                        } else {
                            assert(groups@[j as int].customer@ == e);
                        }
                    }
                }
            }
        }
    }
    proof {
        assert(s.take(s.len() as int) =~= s);
        assert forall|c: Seq<char>|
            #![trigger members(s, c)]
            sum_by(members(s, c), total_field()) <= usize::MAX && sum_by(members(s, c), ok_field())
                <= usize::MAX && sum_by(members(s, c), err_field()) <= usize::MAX by {
            if has_customer(groups@, c) {
                let k = choose|k: int| 0 <= k < groups.len() && #[trigger] groups@[k].customer@ == c;
                assert(group_of(groups@[k], s));
            } else {
                assert forall|m: int| 0 <= m < s.len() implies !of_customer(c)(#[trigger] s[m]) by {
                    if s[m].customer@ == c {
                        assert(names_customer(s, c));
                    }
                }
                crate::sorting::lemma_filter_none(s, of_customer(c));
                assert(sum_by(Seq::<EnvStatus>::empty(), total_field()) == 0);
                assert(sum_by(Seq::<EnvStatus>::empty(), ok_field()) == 0);
                assert(sum_by(Seq::<EnvStatus>::empty(), err_field()) == 0);
            }
        }
    }
    Some(groups)
}

/// Groups the environments that the filter lets through by customer, in ascending order of
/// customers; each group holds its customer's environments ordered by name (equal names
/// keep their order) and the sums of their totals, ok counts and error counts.
pub fn group_by_customer(items: Vec<EnvStatus>, filter: Filter) -> (r: Vec<CustomerGroup>)
    requires
        sums_fit(included(items@, filter)),
    ensures
        is_customer_grouping(r@, included(items@, filter)),
        forall|k: int, i: int, j: int|
            0 <= k < r.len() && 0 <= i < j < r@[k].envs@.len() ==> text_le(
                (#[trigger] r@[k].envs@[i]).env_name@,
                (#[trigger] r@[k].envs@[j]).env_name@,
            ),
        forall|k: int, e: EnvStatus|
            0 <= k < r.len() && #[trigger] r@[k].envs@.contains(e) ==> items@.contains(e) && e.customer@
                == r@[k].customer@ && (filter == Filter::Failed ==> e.err > 0) && (filter
                == Filter::Healthy ==> e.err == 0),
{
    let ghost s = items@;
    let r = group_by_customer_unchecked(items, filter);
    proof {
        crate::laws::lemma_group_envs_by_name(r@, included(s, filter));
        crate::laws::lemma_grouped_envs_pass_filter(r@, s, filter);
        crate::laws::lemma_grouping_places_every_env(r@, included(s, filter));
        assert forall|k: int, e: EnvStatus|
            0 <= k < r.len() && #[trigger] r@[k].envs@.contains(e) implies s.contains(e) && e.customer@
                == r@[k].customer@ && (filter == Filter::Failed ==> e.err > 0) && (filter
                == Filter::Healthy ==> e.err == 0) by {
            crate::laws::lemma_filter_meaning(e);
        }
    }
    r
}

/// `group_by_customer` with only the grouping stated.
fn group_by_customer_unchecked(items: Vec<EnvStatus>, filter: Filter) -> (r: Vec<CustomerGroup>)
    requires
        sums_fit(included(items@, filter)),
    ensures
        is_customer_grouping(r@, included(items@, filter)),
{
    match try_group_by_customer(items, filter) {
        Some(r) => r,
        // cannot happen: `requires` rules out sums that do not fit
        None => Vec::new(),
    }
}

/// Groups the environments that the filter lets through by customer, as `group_by_customer`
/// does; `None` where the sums of some customer do not fit in a `usize`.
pub fn try_group_by_customer(items: Vec<EnvStatus>, filter: Filter) -> (r: Option<Vec<CustomerGroup>>)
    ensures
        match r {
            None => !sums_fit(included(items@, filter)),
            Some(v) => sums_fit(included(items@, filter)) && is_customer_grouping(v@, included(items@, filter)),
        },
{
    let inc = filter_envs(items, filter);
    match group_envs(inc) {
        None => None,
        Some(groups) => Some(sort_group_envs(groups, Ghost(inc@))),
    }
}

/// Orders the environments of each group by name.
fn sort_group_envs(groups: Vec<CustomerGroup>, Ghost(s): Ghost<Seq<EnvStatus>>) -> (r: Vec<CustomerGroup>)
    requires
        customers_ascending(groups@),
        forall|k: int| 0 <= k < groups.len() ==> group_of(#[trigger] groups@[k], s),
    ensures
        customers_ascending(r@),
        forall|c: Seq<char>| has_customer(r@, c) <==> has_customer(groups@, c),
        forall|k: int| 0 <= k < r.len() ==> sorted_group_of(#[trigger] r@[k], s),
{
    let ghost gs = groups@;
    let mut r: Vec<CustomerGroup> = Vec::new();
    proof {
        lemma_env_name_order();
    }
    for g in it: groups
        invariant
            it.seq() == gs,
            total_preorder(env_name_order()),
            forall|k: int| 0 <= k < gs.len() ==> group_of(#[trigger] gs[k], s),
            r.len() == it.index(),
            forall|k: int| 0 <= k < r.len() ==> (#[trigger] r@[k]).customer == gs[k].customer,
            forall|k: int| 0 <= k < r.len() ==> sorted_group_of(#[trigger] r@[k], s),
    {
        let ghost k = it.index() as int;
        assert(group_of(gs[k], s));
        let envs = sort_stable(g.envs, env_name_in_order, Ghost(env_name_order()));
        r.push(CustomerGroup { customer: g.customer, total: g.total, ok: g.ok, err: g.err, envs });
    }
    proof {
        assert forall|c: Seq<char>| has_customer(r@, c) <==> has_customer(gs, c) by {
            if has_customer(r@, c) {
                let k = choose|k: int| 0 <= k < r.len() && #[trigger] r@[k].customer@ == c;
                assert(gs[k].customer@ == c);
            }
            if has_customer(gs, c) {
                let k = choose|k: int| 0 <= k < gs.len() && #[trigger] gs[k].customer@ == c;
                assert(r@[k].customer@ == c);
            }
        }
        assert forall|a: int, b: int|
            0 <= a < b < r.len() implies text_lt(#[trigger] r@[a].customer@, #[trigger] r@[b].customer@) by {
            assert(text_lt(gs[a].customer@, gs[b].customer@));
        }
    }
    r
}

/// `gs` groups `envs` by customer: one group per customer, in strictly ascending order of
/// customers, each with its customer's environments ordered by name (equal names in the
/// order of `envs`) and their sums.
pub open spec fn is_customer_grouping(gs: Seq<CustomerGroup>, envs: Seq<EnvStatus>) -> bool {
    &&& customers_ascending(gs)
    &&& forall|c: Seq<char>| has_customer(gs, c) <==> names_customer(envs, c)
    &&& forall|k: int| 0 <= k < gs.len() ==> sorted_group_of(#[trigger] gs[k], envs)
}

/// The group of customer `c`, where there is one.
pub open spec fn customer_group(gs: Seq<CustomerGroup>, c: Seq<char>) -> Option<CustomerGroup> {
    if has_customer(gs, c) {
        Some(gs[choose|k: int| 0 <= k < gs.len() && #[trigger] gs[k].customer@ == c])
    } else {
        None
    }
}

/// Total of customer `c` among the groups; 0 without a group.
pub open spec fn customer_total(gs: Seq<CustomerGroup>, c: Seq<char>) -> int {
    match customer_group(gs, c) {
        Some(g) => g.total as int,
        None => 0,
    }
}

/// Ok count of customer `c` among the groups; 0 without a group.
pub open spec fn customer_ok(gs: Seq<CustomerGroup>, c: Seq<char>) -> int {
    match customer_group(gs, c) {
        Some(g) => g.ok as int,
        None => 0,
    }
}

/// Error count of customer `c` among the groups; 0 without a group.
pub open spec fn customer_err(gs: Seq<CustomerGroup>, c: Seq<char>) -> int {
    match customer_group(gs, c) {
        Some(g) => g.err as int,
        None => 0,
    }
}

/// Number of environments of customer `c` among the groups; 0 without a group.
pub open spec fn customer_env_count(gs: Seq<CustomerGroup>, c: Seq<char>) -> int {
    match customer_group(gs, c) {
        Some(g) => g.envs@.len() as int,
        None => 0,
    }
}

/// Chart rows ordered by total, larger first, then by customer.
pub open spec fn chart_order() -> spec_fn(CustomerChartDatum, CustomerChartDatum) -> bool {
    |a: CustomerChartDatum, b: CustomerChartDatum|
        a.total > b.total || (a.total == b.total && text_le(a.customer@, b.customer@))
}

/// The customer and total of each group, in the order of the groups.
pub open spec fn chart_rows(groups: Seq<CustomerGroup>) -> Seq<CustomerChartDatum> {
    groups.map_values(|g: CustomerGroup| CustomerChartDatum { customer: g.customer, total: g.total })
}

/// Ordering chart rows is a total preorder.
pub proof fn lemma_chart_order()
    ensures
        total_preorder(chart_order()),
{
    lemma_text_order();
}

/// The rows of the customer chart: customer and total of each group, larger totals first,
/// equal totals by customer, equal rows in the order of the groups.
pub fn build_customer_chart_data(groups: &[CustomerGroup]) -> (r: Vec<CustomerChartDatum>)
    ensures
        is_stable_sort_of(r@, chart_rows(groups@), chart_order()),
        r.len() == groups.len(),
        forall|i: int, j: int|
            0 <= i < j < r.len() ==> (#[trigger] r@[i]).total >= (#[trigger] r@[j]).total && (r@[i].total
                == r@[j].total ==> text_le(r@[i].customer@, r@[j].customer@)),
        forall|k: int|
            0 <= k < groups.len() ==> r@.contains(
                CustomerChartDatum { customer: (#[trigger] groups@[k]).customer, total: groups@[k].total },
            ),
        forall|x: CustomerChartDatum|
            #[trigger] r@.contains(x) ==> exists|k: int|
                0 <= k < groups.len() && x.customer == (#[trigger] groups@[k]).customer && x.total
                    == groups@[k].total,
{
    let mut data: Vec<CustomerChartDatum> = Vec::new();
    let mut i: usize = 0;
    while i < groups.len()
        invariant
            i <= groups.len(),
            data@ == chart_rows(groups@).take(i as int),
        decreases groups.len() - i,
    {
        let g = &groups[i];
        data.push(CustomerChartDatum { customer: g.customer.clone(), total: g.total });
        assert(data@ =~= chart_rows(groups@).take(i + 1));
        i = i + 1;
    }
    assert(data@ =~= chart_rows(groups@));
    proof {
        lemma_chart_order();
    }
    let r = sort_stable(data, chart_in_order, Ghost(chart_order()));
    proof {
        crate::laws::lemma_chart_rows_ordered(r@, groups@);
    }
    r
}

} // verus!
