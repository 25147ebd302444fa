use vstd::prelude::*;
use crate::dashboard::{instance_order, seconds_after_tick, REFRESH_SECONDS};
use crate::filenames::{
    customer_env_of, health_word, history_file_name, history_parts_of, history_suffix,
    is_history_file_of, json_ext, name_parts, unknown_name,
};
use crate::grouping::{
    chart_order, chart_rows, customer_env_count, customer_err, lemma_chart_order, customer_ok, customer_total, env_name_order, err_field,
    has_customer, included, is_customer_grouping, lemma_env_name_order, lemma_sum_concat, members, names_customer,
    of_customer, ok_field, passes, passes_pred, sorted_group_of, sum_by, total_field,
};
use crate::health::{
    category, failed_before, failed_pred, failures, is_failed, key_of, key_separator, latest_failures,
    passed_word, running_word, text_or_empty,
};
use crate::listing::{
    env_order, history_pred, last_few, latest_pred, latest_suffix, lemma_env_order, point_order,
    string_order, HISTORY_LIMIT,
};
use crate::model::{
    CustomerChartDatum, CustomerGroup, DetailSortField, EnvStatus, Filter, HealthInstance, HistoricalFileData,
};
use crate::sorting::{
    is_stable_sort_of, lemma_filter_none, lemma_filter_push, tied_with, total_preorder,
};
use crate::text::{
    lemma_split_concat, lemma_split_len, lemma_split_without_sep, lemma_text_order, lower_case, split_on, text_le,
    trimmed, upper_case, without_suffix,
};

verus! {

broadcast use vstd::seq_lib::group_to_multiset_ensures;

/// Where `p(x)` holds, `x` occurs as often in `s.filter(p)` as in `s`.
proof fn lemma_count_in_filter<T>(s: Seq<T>, p: spec_fn(T) -> bool, x: T)
    requires
        p(x),
    ensures
        s.filter(p).to_multiset().count(x) == s.to_multiset().count(x),
    decreases s.len(),
{
    reveal(Seq::filter);
    if s.len() > 0 {
        lemma_count_in_filter(s.drop_last(), p, x);
        assert(s =~= s.drop_last().push(s.last()));
    } else {
        assert(s.filter(p) =~= s);
    }
}

/// A stable sort rearranges its input and nothing more: every element occurs in the result
/// as often as in the input, so both have the same length and the same elements.
pub proof fn lemma_stable_sort_is_permutation<T>(r: Seq<T>, s: Seq<T>, le: spec_fn(T, T) -> bool)
    requires
        total_preorder(le),
        is_stable_sort_of(r, s, le),
    ensures
        r.to_multiset() == s.to_multiset(),
        r.len() == s.len(),
        forall|x: T| r.contains(x) <==> s.contains(x),
{
    assert forall|x: T| r.to_multiset().count(x) == s.to_multiset().count(x) by {
        assert(tied_with(le, x)(x));
        lemma_count_in_filter(r, tied_with(le, x), x);
        lemma_count_in_filter(s, tied_with(le, x), x);
        assert(r.filter(tied_with(le, x)) == s.filter(tied_with(le, x)));
    }
    assert(r.to_multiset() =~= s.to_multiset());
    assert(r.len() == r.to_multiset().len());
    assert(s.len() == s.to_multiset().len());
    assert forall|x: T| r.contains(x) <==> s.contains(x) by {
        assert(r.to_multiset().count(x) == s.to_multiset().count(x));
    }
}

proof fn lemma_filter_count_split(s: Seq<HealthInstance>, points: Seq<HistoricalFileData>)
    ensures
        s.filter(category(points, true)).len() + s.filter(category(points, false)).len() == s.filter(
            failed_pred(),
        ).len(),
    decreases s.len(),
{
    reveal(Seq::filter);
    if s.len() > 0 {
        lemma_filter_count_split(s.drop_last(), points);
    }
}

/// The failures of the latest file are split without loss or overlap: each failed check of
/// the last file stands in exactly one of the two lists, among those seen before exactly
/// when its key failed in an earlier file, and nothing else stands in either list.
pub proof fn lemma_latest_failures_partition(points: Seq<HistoricalFileData>)
    requires
        points.len() > 0,
    ensures
        latest_failures(points, true).len() + latest_failures(points, false).len() == failures(
            points.last().items@,
        ).len(),
        forall|x: HealthInstance|
            #[trigger] latest_failures(points, true).contains(x) ==> points.last().items@.contains(x)
                && is_failed(x) && failed_before(points, key_of(x)),
        forall|x: HealthInstance|
            #[trigger] latest_failures(points, false).contains(x) ==> points.last().items@.contains(x)
                && is_failed(x) && !failed_before(points, key_of(x)),
        forall|x: HealthInstance|
            points.last().items@.contains(x) && is_failed(x) ==> (#[trigger] latest_failures(
                points,
                true,
            ).contains(x) <==> !latest_failures(points, false).contains(x)),
{
    let items = points.last().items@;
    lemma_filter_count_split(items, points);
    assert forall|x: HealthInstance|
        #[trigger] latest_failures(points, true).contains(x) implies items.contains(x) && is_failed(x)
            && failed_before(points, key_of(x)) by {
        items.lemma_filter_contains_rev(category(points, true), x);
        let i = choose|i: int| 0 <= i < items.filter(category(points, true)).len()
            && items.filter(category(points, true))[i] == x;
        items.lemma_filter_pred(category(points, true), i);
    }
    assert forall|x: HealthInstance|
        #[trigger] latest_failures(points, false).contains(x) implies items.contains(x) && is_failed(x)
            && !failed_before(points, key_of(x)) by {
        items.lemma_filter_contains_rev(category(points, false), x);
        let i = choose|i: int| 0 <= i < items.filter(category(points, false)).len()
            && items.filter(category(points, false))[i] == x;
        items.lemma_filter_pred(category(points, false), i);
    }
    assert forall|x: HealthInstance|
        items.contains(x) && is_failed(x) implies (#[trigger] latest_failures(points, true).contains(x)
            <==> !latest_failures(points, false).contains(x)) by {
        let i = choose|i: int| 0 <= i < items.len() && items[i] == x;
        if failed_before(points, key_of(x)) {
            items.lemma_filter_contains(category(points, true), i);
            if latest_failures(points, false).contains(x) {
                items.lemma_filter_contains_rev(category(points, false), x);
                let j = choose|j: int| 0 <= j < items.filter(category(points, false)).len()
                    && items.filter(category(points, false))[j] == x;
                items.lemma_filter_pred(category(points, false), j);
            }
        } else {
            items.lemma_filter_contains(category(points, false), i);
            if latest_failures(points, true).contains(x) {
                items.lemma_filter_contains_rev(category(points, true), x);
                let j = choose|j: int| 0 <= j < items.filter(category(points, true)).len()
                    && items.filter(category(points, true))[j] == x;
                items.lemma_filter_pred(category(points, true), j);
            }
        }
    }
}

/// Some group is that of the customer of `e` and holds `e`.
pub open spec fn in_its_group(gs: Seq<CustomerGroup>, e: EnvStatus) -> bool {
    exists|k: int| 0 <= k < gs.len() && gs[k].customer@ == e.customer@ && #[trigger] gs[k].envs@.contains(e)
}

/// Grouping by customer loses no environment and misplaces none: each environment stands in
/// the group of its customer, a group holds only environments of its customer, and as many
/// as there are of them.
pub proof fn lemma_grouping_places_every_env(gs: Seq<CustomerGroup>, envs: Seq<EnvStatus>)
    requires
        is_customer_grouping(gs, envs),
    ensures
        forall|m: int| 0 <= m < envs.len() ==> in_its_group(gs, #[trigger] envs[m]),
        forall|k: int, e: EnvStatus|
            0 <= k < gs.len() && #[trigger] gs[k].envs@.contains(e) ==> envs.contains(e)
                && e.customer@ == gs[k].customer@,
        forall|k: int|
            0 <= k < gs.len() ==> (#[trigger] gs[k]).envs@.len() == members(envs, gs[k].customer@).len(),
{
    lemma_env_name_order();
    assert forall|k: int| 0 <= k < gs.len() implies (#[trigger] gs[k]).envs@.len() == members(
        envs,
        gs[k].customer@,
    ).len() && forall|e: EnvStatus| gs[k].envs@.contains(e) <==> members(envs, gs[k].customer@).contains(e) by {
        assert(sorted_group_of(gs[k], envs));
        lemma_stable_sort_is_permutation(gs[k].envs@, members(envs, gs[k].customer@), env_name_order());
    }
    assert forall|m: int| 0 <= m < envs.len() implies in_its_group(gs, #[trigger] envs[m]) by {
        let c = envs[m].customer@;
        assert(names_customer(envs, c));
        assert(has_customer(gs, c));
        let k = choose|k: int| 0 <= k < gs.len() && #[trigger] gs[k].customer@ == c;
        envs.lemma_filter_contains(of_customer(c), m);
        assert(members(envs, c).contains(envs[m]));
        assert(gs[k].envs@.contains(envs[m]));
        assert(0 <= k < gs.len() && gs[k].customer@ == envs[m].customer@ && gs[k].envs@.contains(envs[m]));
    }
    assert forall|k: int, e: EnvStatus|
        0 <= k < gs.len() && #[trigger] gs[k].envs@.contains(e) implies envs.contains(e) && e.customer@
            == gs[k].customer@ by {
        let c = gs[k].customer@;
        assert(members(envs, c).contains(e));
        envs.lemma_filter_contains_rev(of_customer(c), e);
        let i = choose|i: int| 0 <= i < members(envs, c).len() && members(envs, c)[i] == e;
        envs.lemma_filter_pred(of_customer(c), i);
    }
}

/// Grouping keeps to the filter: every environment in a group is one that the filter lets
/// through.
pub proof fn lemma_grouped_envs_pass_filter(gs: Seq<CustomerGroup>, items: Seq<EnvStatus>, filter: Filter)
    requires
        is_customer_grouping(gs, included(items, filter)),
    ensures
        forall|k: int, e: EnvStatus|
            0 <= k < gs.len() && #[trigger] gs[k].envs@.contains(e) ==> items.contains(e) && passes(filter, e),
{
    lemma_grouping_places_every_env(gs, included(items, filter));
    assert forall|k: int, e: EnvStatus|
        0 <= k < gs.len() && #[trigger] gs[k].envs@.contains(e) implies items.contains(e) && passes(filter, e) by {
        assert(included(items, filter).contains(e));
        items.lemma_filter_contains_rev(passes_pred(filter), e);
        let i = choose|i: int| 0 <= i < included(items, filter).len() && included(items, filter)[i] == e;
        items.lemma_filter_pred(passes_pred(filter), i);
    }
}

/// The history files that are read are history files of the server group, at most
/// `HISTORY_LIMIT` of them, in ascending order of names.
pub proof fn lemma_selected_history_files(
    names: Seq<String>,
    customer: Seq<char>,
    servergroup: Seq<char>,
    all: Seq<String>,
)
    requires
        is_stable_sort_of(all, names.filter(history_pred(customer, servergroup)), string_order()),
    ensures
        last_few(all).len() <= HISTORY_LIMIT,
        last_few(all).len() == HISTORY_LIMIT || last_few(all).len() == names.filter(
            history_pred(customer, servergroup),
        ).len(),
        forall|n: String|
            #[trigger] last_few(all).contains(n) ==> names.contains(n) && is_history_file_of(
                n@,
                customer,
                servergroup,
            ),
        forall|i: int, j: int|
            0 <= i < j < last_few(all).len() ==> text_le(
                (#[trigger] last_few(all)[i])@,
                (#[trigger] last_few(all)[j])@,
            ),
{
    let p = history_pred(customer, servergroup);
    lemma_text_order();
    lemma_stable_sort_is_permutation(all, names.filter(p), string_order());
    assert forall|n: String| #[trigger] last_few(all).contains(n) implies names.contains(n)
        && is_history_file_of(n@, customer, servergroup) by {
        let i = choose|i: int| 0 <= i < last_few(all).len() && last_few(all)[i] == n;
        if all.len() > HISTORY_LIMIT {
            assert(all[i + all.len() - HISTORY_LIMIT] == n);
        }
        assert(all.contains(n));
        assert(names.filter(p).contains(n));
        names.lemma_filter_contains_rev(p, n);
        let k = choose|k: int| 0 <= k < names.filter(p).len() && names.filter(p)[k] == n;
        names.lemma_filter_pred(p, k);
    }
    assert forall|i: int, j: int| 0 <= i < j < last_few(all).len() implies text_le(
        (#[trigger] last_few(all)[i])@,
        (#[trigger] last_few(all)[j])@,
    ) by {
        if all.len() > HISTORY_LIMIT {
            let d = all.len() - HISTORY_LIMIT;
            assert(last_few(all)[i] == all[i + d] && last_few(all)[j] == all[j + d]);
        }
    }
}

/// What a grouping says of one customer: its sums are those over the customer's
/// environments, and it has as many environments as they are.
proof fn lemma_customer_sums(gs: Seq<CustomerGroup>, envs: Seq<EnvStatus>, c: Seq<char>)
    requires
        is_customer_grouping(gs, envs),
    ensures
        customer_total(gs, c) == sum_by(members(envs, c), total_field()),
        customer_ok(gs, c) == sum_by(members(envs, c), ok_field()),
        customer_err(gs, c) == sum_by(members(envs, c), err_field()),
        customer_env_count(gs, c) == members(envs, c).len(),
{
    lemma_grouping_places_every_env(gs, envs);
    if has_customer(gs, c) {
        let k = choose|k: int| 0 <= k < gs.len() && #[trigger] gs[k].customer@ == c;
        assert(sorted_group_of(gs[k], envs));
    } else {
        assert forall|m: int| 0 <= m < envs.len() implies !of_customer(c)(#[trigger] envs[m]) by {
            if envs[m].customer@ == c {
                assert(names_customer(envs, c));
            }
        }
        lemma_filter_none(envs, of_customer(c));
        assert(sum_by(Seq::<EnvStatus>::empty(), total_field()) == 0);
        assert(sum_by(Seq::<EnvStatus>::empty(), ok_field()) == 0);
        assert(sum_by(Seq::<EnvStatus>::empty(), err_field()) == 0);
    }
}

proof fn lemma_sum_push(s: Seq<EnvStatus>, x: EnvStatus, f: spec_fn(EnvStatus) -> int)
    ensures
        sum_by(s.push(x), f) == sum_by(s, f) + f(x),
{
    assert(s.push(x).drop_last() =~= s);
}

/// Over any environments, what the filter `All` lets through of a customer sums to what
/// `Failed` and `Healthy` let through.
proof fn lemma_filters_split_members(s: Seq<EnvStatus>, c: Seq<char>, f: spec_fn(EnvStatus) -> int)
    ensures
        sum_by(members(included(s, Filter::All), c), f) == sum_by(members(included(s, Filter::Failed), c), f)
            + sum_by(members(included(s, Filter::Healthy), c), f),
        members(included(s, Filter::All), c).len() == members(included(s, Filter::Failed), c).len()
            + members(included(s, Filter::Healthy), c).len(),
    decreases s.len(),
{
    reveal(Seq::filter);
    if s.len() == 0 {
        assert(sum_by(Seq::<EnvStatus>::empty(), f) == 0);
    } else {
        let t = s.drop_last();
        let x = s.last();
        lemma_filters_split_members(t, c, f);
        assert(s =~= t.push(x));
        lemma_filter_push(t, x, passes_pred(Filter::All));
        lemma_filter_push(t, x, passes_pred(Filter::Failed));
        lemma_filter_push(t, x, passes_pred(Filter::Healthy));
        lemma_filter_push(included(t, Filter::All), x, of_customer(c));
        lemma_filter_push(included(t, Filter::Failed), x, of_customer(c));
        lemma_filter_push(included(t, Filter::Healthy), x, of_customer(c));
        lemma_sum_push(members(included(t, Filter::All), c), x, f);
        lemma_sum_push(members(included(t, Filter::Failed), c), x, f);
        lemma_sum_push(members(included(t, Filter::Healthy), c), x, f);
    }
}

/// The dashboard's filters split each customer: its group under `All` has the totals, ok
/// counts, error counts and environments of its groups under `Failed` and `Healthy` added
/// up (a customer without a group counting zero).
pub proof fn lemma_all_is_failed_plus_healthy(
    items: Seq<EnvStatus>,
    all: Seq<CustomerGroup>,
    failed: Seq<CustomerGroup>,
    healthy: Seq<CustomerGroup>,
)
    requires
        is_customer_grouping(all, included(items, Filter::All)),
        is_customer_grouping(failed, included(items, Filter::Failed)),
        is_customer_grouping(healthy, included(items, Filter::Healthy)),
    ensures
        forall|c: Seq<char>|
            #[trigger] customer_total(all, c) == customer_total(failed, c) + customer_total(healthy, c),
        forall|c: Seq<char>| #[trigger] customer_ok(all, c) == customer_ok(failed, c) + customer_ok(healthy, c),
        forall|c: Seq<char>|
            #[trigger] customer_err(all, c) == customer_err(failed, c) + customer_err(healthy, c),
        forall|c: Seq<char>|
            #[trigger] customer_env_count(all, c) == customer_env_count(failed, c) + customer_env_count(
                healthy,
                c,
            ),
{
    assert forall|c: Seq<char>|
        #[trigger] customer_total(all, c) == customer_total(failed, c) + customer_total(healthy, c) by {
        lemma_all_split_one(items, all, failed, healthy, c);
    }
    assert forall|c: Seq<char>| #[trigger] customer_ok(all, c) == customer_ok(failed, c) + customer_ok(healthy, c) by {
        lemma_all_split_one(items, all, failed, healthy, c);
    }
    assert forall|c: Seq<char>|
        #[trigger] customer_err(all, c) == customer_err(failed, c) + customer_err(healthy, c) by {
        lemma_all_split_one(items, all, failed, healthy, c);
    }
    assert forall|c: Seq<char>|
        #[trigger] customer_env_count(all, c) == customer_env_count(failed, c) + customer_env_count(
            healthy,
            c,
        ) by {
        lemma_all_split_one(items, all, failed, healthy, c);
    }
}

proof fn lemma_all_split_one(
    items: Seq<EnvStatus>,
    all: Seq<CustomerGroup>,
    failed: Seq<CustomerGroup>,
    healthy: Seq<CustomerGroup>,
    c: Seq<char>,
)
    requires
        is_customer_grouping(all, included(items, Filter::All)),
        is_customer_grouping(failed, included(items, Filter::Failed)),
        is_customer_grouping(healthy, included(items, Filter::Healthy)),
    ensures
        customer_total(all, c) == customer_total(failed, c) + customer_total(healthy, c),
        customer_ok(all, c) == customer_ok(failed, c) + customer_ok(healthy, c),
        customer_err(all, c) == customer_err(failed, c) + customer_err(healthy, c),
        customer_env_count(all, c) == customer_env_count(failed, c) + customer_env_count(healthy, c),
{
    lemma_customer_sums(all, included(items, Filter::All), c);
    lemma_customer_sums(failed, included(items, Filter::Failed), c);
    lemma_customer_sums(healthy, included(items, Filter::Healthy), c);
    lemma_filters_split_members(items, c, total_field());
    lemma_filters_split_members(items, c, ok_field());
    lemma_filters_split_members(items, c, err_field());
}

/// A history file name made of parts without '_' parses back to those parts, given that
/// "health" in lower case is "health".
pub proof fn lemma_history_name_round_trip(
    c: Seq<char>,
    g: Seq<char>,
    m: Seq<char>,
    y: Seq<char>,
    h: Seq<char>,
)
    requires
        !c.contains('_'),
        !g.contains('_'),
        !m.contains('_'),
        !y.contains('_'),
        !h.contains('_'),
        lower_case(health_word()) == health_word(),
    ensures
        history_parts_of(history_file_name(c, g, m, y, h)) == Some((c, g, m, y, h)),
{
    let name = history_file_name(c, g, m, y, h);
    let under = seq!['_'];
    let r5 = health_word();
    let r4 = h + under + r5;
    let r3 = y + under + r4;
    let r2 = m + under + r3;
    let r1 = g + under + r2;
    let base = c + under + r1;
    assert(without_suffix(name, json_ext()) == base) by {
        assert(name =~= base + json_ext());
        assert(name.skip(name.len() - json_ext().len()) =~= json_ext());
        assert(name.take(name.len() - json_ext().len()) =~= base);
    }
    assert(!r5.contains('_')) by {
        if r5.contains('_') {
            let i = choose|i: int| 0 <= i < r5.len() && r5[i] == '_';
        }
    }
    lemma_split_without_sep(r5, '_');
    lemma_split_without_sep(h, '_');
    lemma_split_concat(h, r5, '_');
    assert(split_on(r4, '_') =~= seq![h, r5]);
    lemma_split_without_sep(y, '_');
    lemma_split_concat(y, r4, '_');
    assert(split_on(r3, '_') =~= seq![y, h, r5]);
    lemma_split_without_sep(m, '_');
    lemma_split_concat(m, r3, '_');
    assert(split_on(r2, '_') =~= seq![m, y, h, r5]);
    lemma_split_without_sep(g, '_');
    lemma_split_concat(g, r2, '_');
    assert(split_on(r1, '_') =~= seq![g, m, y, h, r5]);
    lemma_split_without_sep(c, '_');
    lemma_split_concat(c, r1, '_');
    assert(split_on(base, '_') =~= seq![c, g, m, y, h, r5]);
    assert(name_parts(name) =~= seq![c, g, m, y, h, r5]);
}

/// The countdown after `n` ticks, started at `REFRESH_SECONDS`.
pub open spec fn countdown_after(n: nat) -> int
    decreases n,
{
    if n == 0 {
        REFRESH_SECONDS as int
    } else {
        seconds_after_tick(countdown_after((n - 1) as nat) as i32)
    }
}

proof fn lemma_countdown_closed_form(n: nat)
    ensures
        countdown_after(n) == REFRESH_SECONDS - (n % 60) as int,
    decreases n,
{
    if n > 0 {
        lemma_countdown_closed_form((n - 1) as nat);
    }
}

/// Started at `REFRESH_SECONDS`, the countdown has everything reloaded on exactly every
/// 60th tick: tick `n + 1` refreshes exactly when `n + 1` is a multiple of 60.
pub proof fn lemma_refresh_every_sixtieth_tick(n: nat)
    ensures
        1 <= countdown_after(n) <= REFRESH_SECONDS,
        (countdown_after(n) <= 1) <==> ((n + 1) % 60 == 0),
        countdown_after(n + 1) == seconds_after_tick(countdown_after(n) as i32),
{
    lemma_countdown_closed_form(n);
}

proof fn lemma_sum_remove(s: Seq<EnvStatus>, i: int, f: spec_fn(EnvStatus) -> int)
    requires
        0 <= i < s.len(),
    ensures
        sum_by(s, f) == sum_by(s.remove(i), f) + f(s[i]),
{
    assert(s =~= s.take(i) + seq![s[i]] + s.skip(i + 1));
    assert(s.remove(i) =~= s.take(i) + s.skip(i + 1));
    lemma_sum_concat(s.take(i) + seq![s[i]], s.skip(i + 1), f);
    lemma_sum_concat(s.take(i), seq![s[i]], f);
    lemma_sum_concat(s.take(i), s.skip(i + 1), f);
    assert(seq![s[i]].drop_last() =~= Seq::<EnvStatus>::empty());
    assert(sum_by(Seq::<EnvStatus>::empty(), f) == 0);
}

/// Sums do not depend on the order of what is summed.
pub proof fn lemma_sum_permutation(r: Seq<EnvStatus>, s: Seq<EnvStatus>, f: spec_fn(EnvStatus) -> int)
    requires
        r.to_multiset() == s.to_multiset(),
    ensures
        sum_by(r, f) == sum_by(s, f),
    decreases r.len(),
{
    assert(r.len() == r.to_multiset().len());
    assert(s.len() == s.to_multiset().len());
    if r.len() == 0 {
        assert(s =~= Seq::<EnvStatus>::empty());
        assert(r =~= Seq::<EnvStatus>::empty());
    } else {
        let x = r.last();
        let rest = r.drop_last();
        assert(r =~= rest.push(x));
        assert(r.to_multiset().count(x) > 0);
        assert(s.contains(x));
        let i = choose|i: int| 0 <= i < s.len() && s[i] == x;
        assert(s.remove(i).to_multiset() =~= s.to_multiset().remove(x));
        assert(rest.to_multiset() =~= r.to_multiset().remove(x));
        lemma_sum_permutation(rest, s.remove(i), f);
        lemma_sum_remove(s, i, f);
    }
}

/// The sums of a group are those over its own environments, as they stand in the group.
pub proof fn lemma_group_sums_over_envs(gs: Seq<CustomerGroup>, envs: Seq<EnvStatus>)
    requires
        is_customer_grouping(gs, envs),
    ensures
        forall|k: int|
            0 <= k < gs.len() ==> (#[trigger] gs[k]).total == sum_by(gs[k].envs@, total_field())
                && gs[k].ok == sum_by(gs[k].envs@, ok_field()) && gs[k].err == sum_by(
                gs[k].envs@,
                err_field(),
            ),
{
    lemma_env_name_order();
    assert forall|k: int| 0 <= k < gs.len() implies (#[trigger] gs[k]).total == sum_by(
        gs[k].envs@,
        total_field(),
    ) && gs[k].ok == sum_by(gs[k].envs@, ok_field()) && gs[k].err == sum_by(gs[k].envs@, err_field()) by {
        assert(sorted_group_of(gs[k], envs));
        let m = members(envs, gs[k].customer@);
        lemma_stable_sort_is_permutation(gs[k].envs@, m, env_name_order());
        lemma_sum_permutation(gs[k].envs@, m, total_field());
        lemma_sum_permutation(gs[k].envs@, m, ok_field());
        lemma_sum_permutation(gs[k].envs@, m, err_field());
    }
}

/// The key of a check depends on its trimmed name, status and details alone: checks that
/// agree on those (an absent field reading as empty) have the same key, whatever their
/// health status.
pub proof fn lemma_key_of_trimmed_fields(a: HealthInstance, b: HealthInstance)
    requires
        trimmed(text_or_empty(a.instance_name)) == trimmed(text_or_empty(b.instance_name)),
        trimmed(text_or_empty(a.instance_status)) == trimmed(text_or_empty(b.instance_status)),
        trimmed(text_or_empty(a.details)) == trimmed(text_or_empty(b.details)),
    ensures
        key_of(a) == key_of(b),
{
}

/// Between checks that agree on trimmed name and details, the key tells the trimmed
/// instance statuses apart exactly as written (case included): the keys are equal exactly
/// when those statuses are.
pub proof fn lemma_key_tells_statuses_apart(a: HealthInstance, b: HealthInstance)
    requires
        trimmed(text_or_empty(a.instance_name)) == trimmed(text_or_empty(b.instance_name)),
        trimmed(text_or_empty(a.details)) == trimmed(text_or_empty(b.details)),
    ensures
        key_of(a) == key_of(b) <==> trimmed(text_or_empty(a.instance_status)) == trimmed(
            text_or_empty(b.instance_status),
        ),
{
    let p = trimmed(text_or_empty(a.instance_name)) + key_separator();
    let q = key_separator() + trimmed(text_or_empty(a.details));
    let sa = trimmed(text_or_empty(a.instance_status));
    let sb = trimmed(text_or_empty(b.instance_status));
    assert(key_of(a) =~= p + sa + q);
    assert(key_of(b) =~= p + sb + q);
    if key_of(a) == key_of(b) {
        assert(sa =~= key_of(a).subrange(p.len() as int, key_of(a).len() - q.len()));
        assert(sb =~= key_of(b).subrange(p.len() as int, key_of(b).len() - q.len()));
    }
}

/// A check counts as healthy exactly when its trimmed instance status in upper case is
/// "RUNNING" and its trimmed health status in lower case is "passed"; any other health
/// status ("warning", "failed", none) or instance status makes it failed.
pub proof fn lemma_failed_unless_running_and_passed(inst: HealthInstance)
    ensures
        !is_failed(inst) <==> (upper_case(trimmed(text_or_empty(inst.instance_status))) == seq![
            'R',
            'U',
            'N',
            'N',
            'I',
            'N',
            'G',
        ] && lower_case(trimmed(text_or_empty(inst.health_status))) == seq!['p', 'a', 's', 's', 'e', 'd']),
        lower_case(trimmed(text_or_empty(inst.health_status))) != seq!['p', 'a', 's', 's', 'e', 'd']
            ==> is_failed(inst),
        upper_case(trimmed(text_or_empty(inst.instance_status))) != seq!['R', 'U', 'N', 'N', 'I', 'N', 'G']
            ==> is_failed(inst),
{
    assert(running_word() =~= seq!['R', 'U', 'N', 'N', 'I', 'N', 'G']);
    assert(passed_word() =~= seq!['p', 'a', 's', 's', 'e', 'd']);
}

/// A file is a history file of customer `c` and server group `g` exactly when its name in
/// lower case starts with `c` in lower case, '_', `g` in lower case and '_' again, and ends
/// with "_health.json".
pub proof fn lemma_history_file_shape(f: Seq<char>, c: Seq<char>, g: Seq<char>)
    ensures
        is_history_file_of(f, c, g) <==> {
            let lf = lower_case(f);
            let lc = lower_case(c);
            let lg = lower_case(g);
            let n: int = lc.len() as int + 1 + lg.len() as int;
            &&& lf.len() > n
            &&& lf.take(lc.len() as int) == lc
            &&& lf[lc.len() as int] == '_'
            &&& lf.subrange(lc.len() as int + 1, n) == lg
            &&& lf[n] == '_'
            &&& lf.len() >= 12
            &&& lf.skip(lf.len() - 12) == seq!['_', 'h', 'e', 'a', 'l', 't', 'h', '.', 'j', 's', 'o', 'n']
        },
{
    let lf = lower_case(f);
    let lc = lower_case(c);
    let lg = lower_case(g);
    let n: int = lc.len() as int + 1 + lg.len() as int;
    let prefix = lc + seq!['_'] + lg + seq!['_'];
    assert(history_suffix() =~= seq!['_', 'h', 'e', 'a', 'l', 't', 'h', '.', 'j', 's', 'o', 'n']);
    if lf.len() > n {
        let t = lf.take(prefix.len() as int);
        if t == prefix {
            assert(lf.take(lc.len() as int) =~= prefix.take(lc.len() as int));
            assert(prefix.take(lc.len() as int) =~= lc);
            assert(lf[lc.len() as int] == prefix[lc.len() as int]);
            assert(lf.subrange(lc.len() as int + 1, n) =~= prefix.subrange(lc.len() as int + 1, n));
            assert(prefix.subrange(lc.len() as int + 1, n) =~= lg);
            assert(lf[n] == prefix[n]);
        }
        if lf.take(lc.len() as int) == lc && lf[lc.len() as int] == '_' && lf.subrange(
            lc.len() as int + 1,
            n,
        ) == lg && lf[n] == '_' {
            assert forall|i: int| 0 <= i < prefix.len() implies #[trigger] t[i] == prefix[i] by {
                if i < lc.len() {
                    assert(lf.take(lc.len() as int)[i] == lf[i]);
                } else if i == lc.len() {
                } else if i < n {
                    assert(lf.subrange(lc.len() as int + 1, n)[i - lc.len() - 1] == lf[i]);
                }
            }
            assert(t =~= prefix);
        }
    }
}

/// A file belongs to the history of at most one server group of a customer, among group
/// names without '_': so "sg1" never takes in the files of "sg10".
pub proof fn lemma_history_groups_exclusive(f: Seq<char>, c: Seq<char>, g1: Seq<char>, g2: Seq<char>)
    requires
        is_history_file_of(f, c, g1),
        is_history_file_of(f, c, g2),
        !lower_case(g1).contains('_'),
        !lower_case(g2).contains('_'),
    ensures
        lower_case(g1) == lower_case(g2),
{
    lemma_history_file_shape(f, c, g1);
    lemma_history_file_shape(f, c, g2);
    let lf = lower_case(f);
    let k: int = lower_case(c).len() as int + 1;
    let a = lower_case(g1);
    let b = lower_case(g2);
    assert forall|i: int| 0 <= i < a.len() && i < b.len() implies a[i] == b[i] by {
        assert(lf.subrange(k, k + a.len() as int)[i] == lf[k + i]);
        assert(lf.subrange(k, k + b.len() as int)[i] == lf[k + i]);
    }
    if a.len() < b.len() {
        assert(lf.subrange(k, k + b.len() as int)[a.len() as int] == lf[k + a.len()]);
        assert(b[a.len() as int] == '_');
        assert(b.contains('_'));
    } else if b.len() < a.len() {
        assert(lf.subrange(k, k + a.len() as int)[b.len() as int] == lf[k + b.len()]);
        assert(a[b.len() as int] == '_');
        assert(a.contains('_'));
    } else {
        assert(a =~= b);
    }
}

/// The checks of the detail page, ordered by a field, hold the same checks as before and
/// stand in order of that very field (absent = empty), ascending or descending.
pub proof fn lemma_checks_ordered_by_field(
    r: Seq<HealthInstance>,
    s: Seq<HealthInstance>,
    field: DetailSortField,
    ascending: bool,
)
    requires
        is_stable_sort_of(r, s, instance_order(field, ascending)),
    ensures
        r.to_multiset() == s.to_multiset(),
        field == DetailSortField::InstanceName ==> forall|i: int, j: int|
            0 <= i < j < r.len() ==> (if ascending {
                text_le(text_or_empty((#[trigger] r[i]).instance_name), text_or_empty((#[trigger] r[j]).instance_name))
            } else {
                text_le(text_or_empty(r[j].instance_name), text_or_empty(r[i].instance_name))
            }),
        field == DetailSortField::InstanceStatus ==> forall|i: int, j: int|
            0 <= i < j < r.len() ==> (if ascending {
                text_le(
                    text_or_empty((#[trigger] r[i]).instance_status),
                    text_or_empty((#[trigger] r[j]).instance_status),
                )
            } else {
                text_le(text_or_empty(r[j].instance_status), text_or_empty(r[i].instance_status))
            }),
        field == DetailSortField::HealthStatus ==> forall|i: int, j: int|
            0 <= i < j < r.len() ==> (if ascending {
                text_le(text_or_empty((#[trigger] r[i]).health_status), text_or_empty((#[trigger] r[j]).health_status))
            } else {
                text_le(text_or_empty(r[j].health_status), text_or_empty(r[i].health_status))
            }),
{
    lemma_text_order();
    lemma_stable_sort_is_permutation(r, s, instance_order(field, ascending));
}

/// History points come out with the same points, in ascending order of file names,
/// whatever their counts.
pub proof fn lemma_points_in_file_order(r: Seq<HistoricalFileData>, s: Seq<HistoricalFileData>)
    requires
        is_stable_sort_of(r, s, point_order()),
    ensures
        r.to_multiset() == s.to_multiset(),
        forall|i: int, j: int|
            0 <= i < j < r.len() ==> text_le((#[trigger] r[i]).filename@, (#[trigger] r[j]).filename@),
{
    lemma_text_order();
    lemma_stable_sort_is_permutation(r, s, point_order());
}

/// The environments of the dashboard come out with the same environments, ordered by
/// customer and, within a customer, by environment name; file names play no part.
pub proof fn lemma_envs_by_customer_then_name(r: Seq<EnvStatus>, s: Seq<EnvStatus>)
    requires
        is_stable_sort_of(r, s, env_order()),
    ensures
        r.to_multiset() == s.to_multiset(),
        forall|i: int, j: int|
            0 <= i < j < r.len() ==> text_le((#[trigger] r[i]).customer@, (#[trigger] r[j]).customer@)
                && (r[i].customer@ == r[j].customer@ ==> text_le(r[i].env_name@, r[j].env_name@)),
{
    lemma_text_order();
    lemma_env_order();
    lemma_stable_sort_is_permutation(r, s, env_order());
}

/// The customer chart holds one row per group, with the group's customer and total, larger
/// totals first and equal totals by customer.
pub proof fn lemma_chart_rows_ordered(r: Seq<CustomerChartDatum>, groups: Seq<CustomerGroup>)
    requires
        is_stable_sort_of(r, chart_rows(groups), chart_order()),
    ensures
        r.len() == groups.len(),
        forall|i: int, j: int|
            0 <= i < j < r.len() ==> (#[trigger] r[i]).total >= (#[trigger] r[j]).total && (r[i].total
                == r[j].total ==> text_le(r[i].customer@, r[j].customer@)),
        forall|k: int|
            0 <= k < groups.len() ==> r.contains(
                CustomerChartDatum { customer: (#[trigger] groups[k]).customer, total: groups[k].total },
            ),
        forall|x: CustomerChartDatum|
            #[trigger] r.contains(x) ==> exists|k: int|
                0 <= k < groups.len() && x.customer == (#[trigger] groups[k]).customer && x.total
                    == groups[k].total,
{
    lemma_text_order();
    lemma_chart_order();
    lemma_stable_sort_is_permutation(r, chart_rows(groups), chart_order());
    assert forall|k: int| 0 <= k < groups.len() implies r.contains(
        CustomerChartDatum { customer: (#[trigger] groups[k]).customer, total: groups[k].total },
    ) by {
        assert(chart_rows(groups)[k] == CustomerChartDatum { customer: groups[k].customer, total: groups[k].total });
        assert(chart_rows(groups).contains(chart_rows(groups)[k]));
    }
    assert forall|x: CustomerChartDatum| #[trigger] r.contains(x) implies exists|k: int|
        0 <= k < groups.len() && x.customer == (#[trigger] groups[k]).customer && x.total == groups[k].total by {
        assert(chart_rows(groups).contains(x));
        let k = choose|k: int| 0 <= k < chart_rows(groups).len() && chart_rows(groups)[k] == x;
        assert(x.customer == groups[k].customer && x.total == groups[k].total);
    }
}

/// Within each group the environments stand in ascending order of their names.
pub proof fn lemma_group_envs_by_name(gs: Seq<CustomerGroup>, envs: Seq<EnvStatus>)
    requires
        is_customer_grouping(gs, envs),
    ensures
        forall|k: int, i: int, j: int|
            0 <= k < gs.len() && 0 <= i < j < gs[k].envs@.len() ==> text_le(
                (#[trigger] gs[k].envs@[i]).env_name@,
                (#[trigger] gs[k].envs@[j]).env_name@,
            ),
{
    assert forall|k: int, i: int, j: int|
        0 <= k < gs.len() && 0 <= i < j < gs[k].envs@.len() implies text_le(
            (#[trigger] gs[k].envs@[i]).env_name@,
            (#[trigger] gs[k].envs@[j]).env_name@,
        ) by {
        assert(sorted_group_of(gs[k], envs));
    }
}

/// What the dashboard filters let through: `All` everything, `Failed` the environments with
/// at least one error, `Healthy` those without.
pub proof fn lemma_filter_meaning(e: EnvStatus)
    ensures
        passes(Filter::All, e),
        passes(Filter::Failed, e) <==> e.err > 0,
        passes(Filter::Healthy, e) <==> e.err == 0,
{
}

/// An object is the latest file of an environment exactly when its name in lower case ends
/// with "_latest.json".
pub proof fn lemma_latest_file_names(n: String)
    ensures
        latest_pred()(n) <==> (lower_case(n@).len() >= 12 && lower_case(n@).skip(lower_case(n@).len() - 12)
            == seq!['_', 'l', 'a', 't', 'e', 's', 't', '.', 'j', 's', 'o', 'n']),
{
    assert(latest_suffix() =~= seq!['_', 'l', 'a', 't', 'e', 's', 't', '.', 'j', 's', 'o', 'n']);
}

/// The key of a check is its trimmed name, status and details (absent = empty), each
/// separated by "||".
pub proof fn lemma_key_text(inst: HealthInstance)
    ensures
        key_of(inst) == trimmed(text_or_empty(inst.instance_name)) + seq!['|', '|'] + trimmed(
            text_or_empty(inst.instance_status),
        ) + seq!['|', '|'] + trimmed(text_or_empty(inst.details)),
{
    assert(key_separator() =~= seq!['|', '|']);
}

/// A file name "c_e_rest.json", with `c` and `e` free of '_', names customer `c` and
/// environment `e` in upper case; a name "c.json" names customer `c` and the environment
/// "UNKNOWN" in upper case.
pub proof fn lemma_customer_env_round_trip(c: Seq<char>, e: Seq<char>, rest: Seq<char>)
    requires
        !c.contains('_'),
        !e.contains('_'),
    ensures
        customer_env_of(c + seq!['_'] + e + seq!['_'] + rest + seq!['.', 'j', 's', 'o', 'n']) == (
            c,
            upper_case(e),
        ),
        customer_env_of(c + seq!['.', 'j', 's', 'o', 'n']) == (
            c,
            upper_case(seq!['U', 'N', 'K', 'N', 'O', 'W', 'N']),
        ),
{
    let ext = seq!['.', 'j', 's', 'o', 'n'];
    assert(ext =~= json_ext());
    let r1 = e + seq!['_'] + rest;
    let base = c + seq!['_'] + r1;
    let name = c + seq!['_'] + e + seq!['_'] + rest + ext;
    assert(without_suffix(name, json_ext()) == base) by {
        assert(name =~= base + ext);
        assert(name.skip(name.len() - 5) =~= ext);
        assert(name.take(name.len() - 5) =~= base);
    }
    lemma_split_concat(c, r1, '_');
    lemma_split_concat(e, rest, '_');
    lemma_split_without_sep(c, '_');
    lemma_split_without_sep(e, '_');
    lemma_split_len(rest, '_');
    assert(name_parts(name) =~= seq![c, e] + split_on(rest, '_'));
    let name2 = c + ext;
    assert(without_suffix(name2, json_ext()) == c) by {
        assert(name2.skip(name2.len() - 5) =~= ext);
        assert(name2.take(name2.len() - 5) =~= c);
    }
    assert(name_parts(name2) =~= seq![c]);
    assert(unknown_name() =~= seq!['U', 'N', 'K', 'N', 'O', 'W', 'N']);
}

/// A key counts as seen before exactly when some check of a file other than the last one
/// failed with that key; checks of the last file never make their own keys seen.
pub proof fn lemma_seen_before_meaning(points: Seq<HistoricalFileData>, k: Seq<char>)
    ensures
        failed_before(points, k) <==> exists|q: int, m: int|
            #![trigger points[q].items@[m]]
            0 <= q && q + 1 < points.len() && 0 <= m < points[q].items@.len() && is_failed(
                points[q].items@[m],
            ) && key_of(points[q].items@[m]) == k,
{
}

/// The countdown never leaves 1..=REFRESH_SECONDS, and it starts again exactly when it
/// stands at 1.
pub proof fn lemma_countdown_stays_in_range(current: i32)
    requires
        1 <= current <= REFRESH_SECONDS,
    ensures
        1 <= seconds_after_tick(current) <= REFRESH_SECONDS,
        seconds_after_tick(current) == REFRESH_SECONDS <==> current == 1,
{
}

} // verus!
