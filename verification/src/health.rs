use vstd::prelude::*;
use vstd::string::*;
use crate::filenames::{
    customer_env_of, format_history_label, history_label, history_parts_of, parse_customer_env,
    parse_history_filename,
};
use crate::model::{EnvStatus, HealthInstance, HistoricalFileData};
use crate::sorting::lemma_filter_push;
use crate::text::{
    lower_case, same_text, texts, to_lower, to_upper, trim_text, trimmed, upper_case,
};

verus! {

/// The text of an optional field, empty where it is absent.
pub open spec fn text_or_empty(o: Option<String>) -> Seq<char> {
    match o {
        Some(s) => s@,
        None => Seq::<char>::empty(),
    }
}

/// The instance status of a healthy check, after trimming and upper-casing.
pub open spec fn running_word() -> Seq<char> {
    seq!['R', 'U', 'N', 'N', 'I', 'N', 'G']
}

/// The health status of a healthy check, after trimming and lower-casing.
pub open spec fn passed_word() -> Seq<char> {
    seq!['p', 'a', 's', 's', 'e', 'd']
}

/// The separator between the fields of a check's key.
pub open spec fn key_separator() -> Seq<char> {
    seq!['|', '|']
}

/// A check has failed unless its trimmed instance status is "RUNNING" (in upper case) and
/// its trimmed health status is "passed" (in lower case).
pub open spec fn is_failed(inst: HealthInstance) -> bool {
    !(upper_case(trimmed(text_or_empty(inst.instance_status))) == running_word()
        && lower_case(trimmed(text_or_empty(inst.health_status))) == passed_word())
}

/// What identifies a check across files: trimmed name, status and details, joined by "||".
pub open spec fn key_of(inst: HealthInstance) -> Seq<char> {
    trimmed(text_or_empty(inst.instance_name)) + key_separator() + trimmed(
        text_or_empty(inst.instance_status),
    ) + key_separator() + trimmed(text_or_empty(inst.details))
}

/// `is_failed` as a predicate.
pub open spec fn failed_pred() -> spec_fn(HealthInstance) -> bool {
    |x: HealthInstance| is_failed(x)
}

/// The failed checks among `items`, in their order.
pub open spec fn failures(items: Seq<HealthInstance>) -> Seq<HealthInstance> {
    items.filter(failed_pred())
}

/// Some check of a file before the last one failed with key `k`.
pub open spec fn failed_before(points: Seq<HistoricalFileData>, k: Seq<char>) -> bool {
    exists|q: int, m: int|
        #![trigger points[q].items@[m]]
        0 <= q < points.len() - 1 && 0 <= m < points[q].items@.len() && is_failed(
            points[q].items@[m],
        ) && key_of(points[q].items@[m]) == k
}

/// The failed checks of the last file whose key failed before (`seen`) or did not.
pub open spec fn category(points: Seq<HistoricalFileData>, seen: bool) -> spec_fn(HealthInstance) -> bool {
    |x: HealthInstance| is_failed(x) && failed_before(points, key_of(x)) == seen
}

/// The failed checks of the last file, in order, whose key failed in an earlier file
/// (`seen`) or in none (`!seen`); empty where there is no file.
pub open spec fn latest_failures(points: Seq<HistoricalFileData>, seen: bool) -> Seq<HealthInstance> {
    if points.len() == 0 {
        Seq::<HealthInstance>::empty()
    } else {
        points.last().items@.filter(category(points, seen))
    }
}

/// The text of an optional field, empty where it is absent.
fn text_or_empty_exec(o: &Option<String>) -> (r: &str)
    ensures
        r@ == text_or_empty(*o),
{
    match o {
        Some(s) => s.as_str(),
        None => {
            proof {
                reveal_strlit("");
            }
            assert(""@ =~= Seq::<char>::empty());
            ""
        },
    }
}

/// Whether a check has failed.
pub fn is_failed_instance(inst: &HealthInstance) -> (r: bool)
    ensures
        r == is_failed(*inst),
        !r <==> (upper_case(trimmed(text_or_empty(inst.instance_status))) == seq![
            'R',
            'U',
            'N',
            'N',
            'I',
            'N',
            'G',
        ] && lower_case(trimmed(text_or_empty(inst.health_status))) == seq!['p', 'a', 's', 's', 'e', 'd']),
{
    proof {
        crate::laws::lemma_failed_unless_running_and_passed(*inst);
    }
    let status = to_upper(trim_text(text_or_empty_exec(&inst.instance_status)));
    let health = to_lower(trim_text(text_or_empty_exec(&inst.health_status)));
    let running = "RUNNING";
    let passed = "passed";
    proof {
        reveal_strlit("RUNNING");
        reveal_strlit("passed");
        assert(running@ =~= running_word());
        assert(passed@ =~= passed_word());
    }
    !(same_text(status.as_str(), running) && same_text(health.as_str(), passed))
}

/// The key of a check: "name||status||details", each trimmed.
pub fn instance_key(inst: &HealthInstance) -> (r: String)
    ensures
        r@ == key_of(*inst),
        r@ == trimmed(text_or_empty(inst.instance_name)) + seq!['|', '|'] + trimmed(
            text_or_empty(inst.instance_status),
        ) + seq!['|', '|'] + trimmed(text_or_empty(inst.details)),
{
    proof {
        crate::laws::lemma_key_text(*inst);
    }
    let sep = "||";
    proof {
        reveal_strlit("||");
        assert(sep@ =~= key_separator());
    }
    let r = String::from_str(trim_text(text_or_empty_exec(&inst.instance_name))).concat(sep).concat(
        trim_text(text_or_empty_exec(&inst.instance_status)),
    ).concat(sep).concat(trim_text(text_or_empty_exec(&inst.details)));
    r
}

/// The number of failed checks among `items`.
pub fn count_failed(items: &Vec<HealthInstance>) -> (r: usize)
    ensures
        r == failures(items@).len(),
        r <= items.len(),
{
    let mut n: usize = 0;
    let mut i: usize = 0;
    proof {
        reveal(Seq::filter);
        assert(items@.take(0) =~= Seq::<HealthInstance>::empty());
    }
    while i < items.len()
        invariant
            i <= items.len(),
            n == failures(items@.take(i as int)).len(),
            n <= i,
        decreases items.len() - i,
    {
        proof {
            lemma_filter_push(items@.take(i as int), items@[i as int], failed_pred());
            assert(items@.take(i + 1) =~= items@.take(i as int).push(items@[i as int]));
        }
        if is_failed_instance(&items[i]) {
            n = n + 1;
        }
        i = i + 1;
    }
    assert(items@.take(items.len() as int) =~= items@);
    n
}

/// Whether `keys` holds a string with the characters of `k`.
fn holds_text(keys: &Vec<String>, k: &str) -> (r: bool)
    ensures
        r == texts(keys@).contains(k@),
{
    let mut i: usize = 0;
    while i < keys.len()
        invariant
            i <= keys.len(),
            forall|m: int| 0 <= m < i ==> keys@[m]@ != k@,
        decreases keys.len() - i,
    {
        if same_text(keys[i].as_str(), k) {
            assert(texts(keys@)[i as int] == k@);
            return true;
        }
        i = i + 1;
    }
    assert forall|m: int| 0 <= m < texts(keys@).len() implies texts(keys@)[m] != k@ by {
        assert(texts(keys@)[m] == keys@[m]@);
    }
    false
}

/// A check among the first `p` files, or among the first `j` checks of file `p`, failed
/// with key `k`.
spec fn failed_within(points: Seq<HistoricalFileData>, p: int, j: int, k: Seq<char>) -> bool {
    exists|q: int, m: int|
        #![trigger points[q].items@[m]]
        ((0 <= q < p && 0 <= m < points[q].items@.len()) || (q == p && 0 <= m < j)) && is_failed(
            points[q].items@[m],
        ) && key_of(points[q].items@[m]) == k
}

/// The keys of the failed checks of every file but the last.
///
/// The keys are kept in a `Vec` and searched one by one, in place of a `BTreeSet`: vstd
/// specifies `BTreeSet` only for keys that obey its model of `Ord`, and it establishes
/// that for no `String`.
fn keys_failed_before(points: &[HistoricalFileData]) -> (keys: Vec<String>)
    requires
        points@.len() > 0,
    ensures
        forall|k: Seq<char>| texts(keys@).contains(k) <==> failed_before(points@, k),
{
    let mut keys: Vec<String> = Vec::new();
    let n = points.len() - 1;
    let mut p: usize = 0;
    while p < n
        invariant
            n == points@.len() - 1,
            p <= n,
            forall|k: Seq<char>| texts(keys@).contains(k) <==> failed_within(points@, p as int, 0, k),
        decreases n - p,
    {
        let items = &points[p].items;
        let mut j: usize = 0;
        while j < items.len()
            invariant
                n == points@.len() - 1,
                p < n,
                *items == points@[p as int].items,
                j <= items.len(),
                forall|k: Seq<char>|
                    texts(keys@).contains(k) <==> failed_within(points@, p as int, j as int, k),
            decreases items.len() - j,
        {
            if is_failed_instance(&items[j]) {
                let key = instance_key(&items[j]);
                let ghost before = texts(keys@);
                let ghost kv = key@;
                keys.push(key);
                assert(texts(keys@) =~= before.push(kv));
                assert forall|k: Seq<char>|
                    texts(keys@).contains(k) <==> failed_within(points@, p as int, j + 1, k) by {
                    assert(points@[p as int].items@[j as int] == items@[j as int]);
                    if texts(keys@).contains(k) && !before.contains(k) {
                        let w = choose|w: int| 0 <= w < texts(keys@).len() && texts(keys@)[w] == k;
                        assert(w == before.len());
                        assert(k == kv);
                        assert(failed_within(points@, p as int, j + 1, k));
                    }
                    if failed_within(points@, p as int, j + 1, k) && !failed_within(points@, p as int, j as int, k) {
                        let (q, m) = choose|q: int, m: int|
                            #![trigger points@[q].items@[m]]
                            ((0 <= q < p && 0 <= m < points@[q].items@.len()) || (q == p && 0 <= m < j + 1))
                                && is_failed(points@[q].items@[m]) && key_of(points@[q].items@[m]) == k;
                        if q < p || m < j {
                            assert(failed_within(points@, p as int, j as int, k));
                        }
                        assert(q == p && m == j);
                        assert(k == kv);
                        assert(texts(keys@)[before.len() as int] == k);
                    }
                    if before.contains(k) {
                        let w = choose|w: int| 0 <= w < before.len() && before[w] == k;
                        assert(texts(keys@)[w] == k);
                    }
                }
            } else {
                assert forall|k: Seq<char>|
                    failed_within(points@, p as int, j + 1, k) implies failed_within(points@, p as int, j as int, k) by {
                    assert(points@[p as int].items@[j as int] == items@[j as int]);
                }
            }
            j = j + 1;
        }
        assert forall|k: Seq<char>|
            failed_within(points@, p as int, j as int, k) == failed_within(points@, p + 1, 0, k) by {
        }
        p = p + 1;
    }
    assert forall|k: Seq<char>| failed_within(points@, n as int, 0, k) == failed_before(points@, k) by {
    }
    keys
}

/// The failed checks of the last file, split into those whose key already failed in an
/// earlier file and those that are new; both keep the order of the last file.
pub fn categorize_latest_errors(points: &[HistoricalFileData]) -> (r: (Vec<HealthInstance>, Vec<HealthInstance>))
    ensures
        r.0@ == latest_failures(points@, true),
        r.1@ == latest_failures(points@, false),
{
    if points.len() == 0 {
        return (Vec::new(), Vec::new());
    }
    let keys = keys_failed_before(points);
    let latest = &points[points.len() - 1].items;
    let ghost ls = latest@;
    let mut existing: Vec<HealthInstance> = Vec::new();
    let mut fresh: Vec<HealthInstance> = Vec::new();
    proof {
        reveal(Seq::filter);
        assert(ls.take(0) =~= Seq::<HealthInstance>::empty());
    }
    let mut i: usize = 0;
    while i < latest.len()
        invariant
            ls == latest@,
            ls == points@.last().items@,
            points@.len() > 0,
            i <= latest.len(),
            forall|k: Seq<char>| texts(keys@).contains(k) <==> failed_before(points@, k),
            existing@ == ls.take(i as int).filter(category(points@, true)),
            fresh@ == ls.take(i as int).filter(category(points@, false)),
        decreases latest.len() - i,
    {
        let item = &latest[i];
        proof {
            lemma_filter_push(ls.take(i as int), ls[i as int], category(points@, true));
            lemma_filter_push(ls.take(i as int), ls[i as int], category(points@, false));
            assert(ls.take(i + 1) =~= ls.take(i as int).push(ls[i as int]));
        }
        if is_failed_instance(item) {
            let key = instance_key(item);
            if holds_text(&keys, key.as_str()) {
                existing.push(item.duplicate());
            } else {
                fresh.push(item.duplicate());
            }
        }
        i = i + 1;
    }
    assert(ls.take(latest.len() as int) =~= ls);
    (existing, fresh)
}

/// The customer and environment that a monitoring file describes, with its checks counted.
pub fn env_status_from_file(filename: String, instances: &Vec<HealthInstance>) -> (r: EnvStatus)
    ensures
        (r.customer@, r.env_name@) == customer_env_of(filename@),
        r.filename == filename,
        r.total == instances.len(),
        r.err == failures(instances@).len(),
        r.ok == instances.len() - failures(instances@).len(),
        r.ok + r.err == r.total,
{
    let (customer, env_name) = parse_customer_env(filename.as_str());
    let err = count_failed(instances);
    let total = instances.len();
    EnvStatus { customer, env_name, total, ok: total - err, err, filename }
}

/// A point of a history chart from a history file and its checks; `None` where the file
/// name is not that of a history file.
pub fn history_point(filename: String, instances: Vec<HealthInstance>) -> (r: Option<HistoricalFileData>)
    ensures
        match history_parts_of(filename@) {
            None => r is None,
            Some(t) => r matches Some(d) && d.label@ == history_label(t.2, t.3, t.4) && d.filename
                == filename && d.items == instances && d.failed == failures(instances@).len()
                && d.passed == instances.len() - failures(instances@).len() && d.total
                == instances.len() && d.passed + d.failed == d.total,
        },
{
    match parse_history_filename(filename.as_str()) {
        None => None,
        Some((_customer, _group, month, year, hhmm)) => {
            let failed = count_failed(&instances);
            let passed = instances.len() - failed;
            let label = format_history_label(month.as_str(), year.as_str(), hhmm.as_str());
            Some(
                HistoricalFileData {
                    label,
                    filename,
                    passed,
                    failed,
                    total: passed + failed,
                    items: instances,
                },
            )
        },
    }
}

} // verus!
