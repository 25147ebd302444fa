use vstd::prelude::*;
use vstd::string::*;
use crate::filenames::{is_history_file_of, matches_history_file};
use crate::model::{EnvStatus, HistoricalFileData, OCIListResponse, OCIObject};
use crate::sorting::{is_stable_sort_of, lemma_filter_push, sort_stable, total_preorder};
use crate::text::{
    ends_with_text, is_suffix, join_texts, join_with, lemma_text_order, lower_case, text_le,
    text_le_exec, text_lt, text_lt_exec, texts, to_lower,
};

verus! {

/// Where the monitoring bucket's objects are read from.
pub const BASE_URL: &'static str = "https://objectstorage.us-ashburn-1.oraclecloud.com/p/2iZ2CfFNkV8LVuzg3LHTaqjseLntrFEtA991Jg9gUUDQjqjP6sSQUqyItWJh15ya/n/id7bn4roxxyb/b/JDE_Monitoring_Data/o";

// ---------------------------------------------------------------------------
// Percent-encoding of object names
// ---------------------------------------------------------------------------

/// The bytes that percent-encoding leaves as they are: ASCII letters, digits, `-`, `.`, `_`, `~`.
pub open spec fn unreserved(b: u8) -> bool {
    (48 <= b <= 57) || (65 <= b <= 90) || (97 <= b <= 122) || b == 45 || b == 46 || b == 95 || b == 126
}

/// The upper-case hexadecimal digit of `d < 16`.
pub open spec fn hex_digit(d: u8) -> char {
    if d < 10 {
        (48 + d) as char
    } else {
        (55 + d) as char
    }
}

/// Percent-encoding of bytes: unreserved bytes stay, every other byte becomes `%XY`.
pub open spec fn percent_encoded(bytes: Seq<u8>) -> Seq<char>
    decreases bytes.len(),
{
    if bytes.len() == 0 {
        Seq::<char>::empty()
    } else {
        let b = bytes.last();
        percent_encoded(bytes.drop_last()) + if unreserved(b) {
            seq![b as char]
        } else {
            seq!['%', hex_digit(b / 16), hex_digit(b % 16)]
        }
    }
}

/// Calls `urlencoding::encode`, which percent-encodes every byte of the UTF-8 form of `s`
/// except ASCII letters, digits, `-`, `.`, `_` and `~`, with upper-case hex digits.
#[verifier::external_body]
fn url_encode(s: &str) -> (r: String)
    ensures
        r@ == percent_encoded(s.spec_bytes()),
{
    urlencoding::encode(s).into_owned()
}

/// The address of a monitoring file: `BASE_URL/` followed by its percent-encoded name.
pub fn object_url(filename: &str) -> (r: String)
    ensures
        r@ == BASE_URL@ + seq!['/'] + percent_encoded(filename.spec_bytes()),
{
    let slash = "/";
    proof {
        reveal_strlit("/");
        assert(slash@ =~= seq!['/']);
    }
    let encoded = url_encode(filename);
    String::from_str(BASE_URL).concat(slash).concat(encoded.as_str())
}

/// The characters of "/?format=json".
pub open spec fn listing_query() -> Seq<char> {
    seq!['/', '?', 'f', 'o', 'r', 'm', 'a', 't', '=', 'j', 's', 'o', 'n']
}

/// The address of the bucket listing in JSON.
pub fn listing_url() -> (r: String)
    ensures
        r@ == BASE_URL@ + listing_query(),
{
    let query = "/?format=json";
    proof {
        reveal_strlit("/?format=json");
        assert(query@ =~= listing_query());
    }
    String::from_str(BASE_URL).concat(query)
}

// ---------------------------------------------------------------------------
// The bucket listing
// ---------------------------------------------------------------------------

/// The names of objects, in order.
pub open spec fn object_names_of(objs: Seq<OCIObject>) -> Seq<String> {
    objs.map_values(|o: OCIObject| o.name)
}

/// The objects of a listing: those under `objects`, or those under `data` where `objects`
/// is empty.
pub open spec fn listed_objects(resp: OCIListResponse) -> Seq<OCIObject> {
    if resp.objects@.len() > 0 {
        resp.objects@
    } else {
        resp.data@
    }
}

/// The names of the objects of a listing.
pub fn object_names(resp: OCIListResponse) -> (r: Vec<String>)
    ensures
        r@ == object_names_of(listed_objects(resp)),
{
    let objs = if resp.objects.len() > 0 {
        resp.objects
    } else {
        resp.data
    };
    let ghost s = objs@;
    let mut r: Vec<String> = Vec::new();
    for o in it: objs
        invariant
            it.seq() == s,
            r@ == object_names_of(s).take(it.index() as int),
    {
        r.push(o.name);
        assert(r@ =~= object_names_of(s).take(it.index() + 1));
    }
    assert(r@ =~= object_names_of(s));
    r
}

/// How the name of an environment's latest file ends, in lower case.
pub open spec fn latest_suffix() -> Seq<char> {
    seq!['_', 'l', 'a', 't', 'e', 's', 't', '.', 'j', 's', 'o', 'n']
}

/// The name of an environment's latest file ends with "_latest.json", ignoring case.
pub open spec fn is_latest_file(name: String) -> bool {
    is_suffix(latest_suffix(), lower_case(name@))
}

pub open spec fn latest_pred() -> spec_fn(String) -> bool {
    |n: String| is_latest_file(n)
}

/// The message when a listing holds no latest file.
pub open spec fn no_latest_message() -> Seq<char> {
    "No '_latest.json' files found in bucket listing."@
}

/// The latest files of every environment, in the order of the listing; an error where
/// there is none.
pub fn select_latest_files(names: Vec<String>) -> (r: Result<Vec<String>, String>)
    ensures
        match r {
            Ok(v) => {
                &&& names@.filter(latest_pred()).len() > 0
                &&& v@ == names@.filter(latest_pred())
                &&& forall|i: int|
                    0 <= i < v.len() ==> names@.contains(#[trigger] v@[i]) && lower_case(v@[i]@).len() >= 12
                        && lower_case(v@[i]@).skip(lower_case(v@[i]@).len() - 12) == seq![
                        '_',
                        'l',
                        'a',
                        't',
                        'e',
                        's',
                        't',
                        '.',
                        'j',
                        's',
                        'o',
                        'n',
                    ]
            },
            Err(e) => names@.filter(latest_pred()).len() == 0 && e@ == no_latest_message(),
        },
{
    let suffix = "_latest.json";
    proof {
        reveal_strlit("_latest.json");
        assert(suffix@ =~= latest_suffix());
    }
    let ghost s = names@;
    let mut kept: Vec<String> = Vec::new();
    proof {
        reveal(Seq::filter);
        assert(s.take(0) =~= Seq::<String>::empty());
    }
    for n in it: names
        invariant
            it.seq() == s,
            suffix@ == latest_suffix(),
            kept@ == s.take(it.index() as int).filter(latest_pred()),
    {
        proof {
            let i = it.index() as int;
            lemma_filter_push(s.take(i), n, latest_pred());
            assert(s.take(i + 1) =~= s.take(i).push(n));
        }
        let lower = to_lower(n.as_str());
        if ends_with_text(lower.as_str(), suffix) {
            kept.push(n);
        }
    }
    assert(s.take(s.len() as int) =~= s);
    if kept.len() == 0 {
        Err(String::from_str("No '_latest.json' files found in bucket listing."))
    } else {
        proof {
            assert forall|i: int| 0 <= i < kept.len() implies s.contains(#[trigger] kept@[i])
                && lower_case(kept@[i]@).len() >= 12 && lower_case(kept@[i]@).skip(
                lower_case(kept@[i]@).len() - 12,
            ) == seq!['_', 'l', 'a', 't', 'e', 's', 't', '.', 'j', 's', 'o', 'n'] by {
                s.lemma_filter_pred(latest_pred(), i);
                assert(s.filter(latest_pred()).contains(kept@[i]));
                s.lemma_filter_contains_rev(latest_pred(), kept@[i]);
                crate::laws::lemma_latest_file_names(kept@[i]);
            }
        }
        Ok(kept)
    }
}

// ---------------------------------------------------------------------------
// Environments of the dashboard
// ---------------------------------------------------------------------------

/// Environments ordered by customer, then by environment name.
pub open spec fn env_order() -> spec_fn(EnvStatus, EnvStatus) -> bool {
    |a: EnvStatus, b: EnvStatus|
        text_lt(a.customer@, b.customer@) || (a.customer@ == b.customer@ && text_le(
            a.env_name@,
            b.env_name@,
        ))
}

pub proof fn lemma_env_order()
    ensures
        total_preorder(env_order()),
{
    lemma_text_order();
}

fn env_in_order(a: &EnvStatus, b: &EnvStatus) -> (o: bool)
    ensures
        o == env_order()(*a, *b),
{
    text_lt_exec(a.customer.as_str(), b.customer.as_str()) || (crate::text::same_text(
        a.customer.as_str(),
        b.customer.as_str(),
    ) && text_le_exec(a.env_name.as_str(), b.env_name.as_str()))
}

/// The first words of the message when no environment could be loaded.
pub open spec fn load_failure_prefix() -> Seq<char> {
    "Could not load any environment data. Errors: "@
}

/// The separator of the errors in that message.
pub open spec fn error_separator() -> Seq<char> {
    " | "@
}

/// The environments that were loaded, ordered by customer and environment name (loads of
/// one environment keep their order); where none was, an error that lists the errors of
/// the loads, separated by " | ".
pub fn collect_health_data(results: Vec<EnvStatus>, errors: &Vec<String>) -> (r: Result<Vec<EnvStatus>, String>)
    ensures
        match r {
            Ok(v) => {
                &&& results.len() > 0
                &&& is_stable_sort_of(v@, results@, env_order())
                &&& v@.to_multiset() == results@.to_multiset()
                &&& forall|i: int, j: int|
                    0 <= i < j < v.len() ==> text_le((#[trigger] v@[i]).customer@, (#[trigger] v@[j]).customer@)
                        && (v@[i].customer@ == v@[j].customer@ ==> text_le(v@[i].env_name@, v@[j].env_name@))
            },
            Err(e) => results.len() == 0 && e@ == load_failure_prefix() + join_with(
                texts(errors@),
                error_separator(),
            ),
        },
{
    if results.len() == 0 {
        let sep = " | ";
        let joined = join_texts(errors, sep);
        let msg = String::from_str("Could not load any environment data. Errors: ").concat(joined.as_str());
        return Err(msg);
    }
    proof {
        lemma_env_order();
    }
    let ghost s = results@;
    let v = sort_stable(results, env_in_order, Ghost(env_order()));
    proof {
        crate::laws::lemma_envs_by_customer_then_name(v@, s);
    }
    Ok(v)
}

// ---------------------------------------------------------------------------
// History of an environment
// ---------------------------------------------------------------------------

/// How many history files are read at most.
pub const HISTORY_LIMIT: usize = 15;

/// Strings ordered as `Ord for String` orders them.
pub open spec fn string_order() -> spec_fn(String, String) -> bool {
    |a: String, b: String| text_le(a@, b@)
}

fn string_in_order(a: &String, b: &String) -> (o: bool)
    ensures
        o == string_order()(*a, *b),
{
    text_le_exec(a.as_str(), b.as_str())
}

/// The history files of a customer's server group.
pub open spec fn history_pred(customer: Seq<char>, servergroup: Seq<char>) -> spec_fn(String) -> bool {
    |n: String| is_history_file_of(n@, customer, servergroup)
}

/// The last `HISTORY_LIMIT` elements of `s` (all of them where there are fewer).
pub open spec fn last_few(s: Seq<String>) -> Seq<String> {
    if s.len() <= HISTORY_LIMIT {
        s
    } else {
        s.skip(s.len() - HISTORY_LIMIT)
    }
}

/// The message when a server group has no history file.
pub open spec fn no_history_message(customer: Seq<char>, servergroup: Seq<char>) -> Seq<char> {
    "No historical files found for customer '"@ + customer + "' and servergroup '"@ + servergroup
        + "'"@
}

/// The history files of a customer's server group that are read: the last
/// `HISTORY_LIMIT` of them in ascending order of names; an error where there is none.
pub fn select_history_files(names: Vec<String>, customer: &str, servergroup: &str) -> (r: Result<Vec<String>, String>)
    ensures
        match r {
            Ok(v) => names@.filter(history_pred(customer@, servergroup@)).len() > 0 && exists|
                all: Seq<String>,
            |
                is_stable_sort_of(all, names@.filter(history_pred(customer@, servergroup@)), string_order())
                    && v@ == last_few(all),
            Err(e) => names@.filter(history_pred(customer@, servergroup@)).len() == 0 && e@
                == no_history_message(customer@, servergroup@),
        },
{
    let ghost p = history_pred(customer@, servergroup@);
    let ghost s = names@;
    let mut kept: Vec<String> = Vec::new();
    proof {
        reveal(Seq::filter);
        assert(s.take(0) =~= Seq::<String>::empty());
    }
    for n in it: names
        invariant
            it.seq() == s,
            p == history_pred(customer@, servergroup@),
            kept@ == s.take(it.index() as int).filter(p),
    {
        proof {
            let i = it.index() as int;
            lemma_filter_push(s.take(i), n, p);
            assert(s.take(i + 1) =~= s.take(i).push(n));
        }
        if matches_history_file(n.as_str(), customer, servergroup) {
            kept.push(n);
        }
    }
    assert(s.take(s.len() as int) =~= s);
    if kept.len() == 0 {
        let msg = String::from_str("No historical files found for customer '").concat(customer).concat(
            "' and servergroup '",
        ).concat(servergroup).concat("'");
        return Err(msg);
    }
    proof {
        lemma_text_order();
    }
    let sorted = sort_stable(kept, string_in_order, Ghost(string_order()));
    let ghost all = sorted@;
    let n = sorted.len();
    if n <= HISTORY_LIMIT {
        assert(is_stable_sort_of(all, s.filter(p), string_order()) && sorted@ == last_few(all));
        return Ok(sorted);
    }
    let mut sorted = sorted;
    let start = n - HISTORY_LIMIT;
    let r = sorted.split_off(start);
    assert(r@ =~= last_few(all));
    assert(is_stable_sort_of(all, s.filter(p), string_order()));
    Ok(r)
}

/// History points ordered by file name.
pub open spec fn point_order() -> spec_fn(HistoricalFileData, HistoricalFileData) -> bool {
    |a: HistoricalFileData, b: HistoricalFileData| text_le(a.filename@, b.filename@)
}

fn point_in_order(a: &HistoricalFileData, b: &HistoricalFileData) -> (o: bool)
    ensures
        o == point_order()(*a, *b),
{
    text_le_exec(a.filename.as_str(), b.filename.as_str())
}

/// History points in ascending order of file names.
pub fn order_history_points(points: Vec<HistoricalFileData>) -> (r: Vec<HistoricalFileData>)
    ensures
        is_stable_sort_of(r@, points@, point_order()),
        r@.to_multiset() == points@.to_multiset(),
        forall|i: int, j: int|
            0 <= i < j < r.len() ==> text_le((#[trigger] r@[i]).filename@, (#[trigger] r@[j]).filename@),
{
    proof {
        lemma_text_order();
    }
    let ghost s = points@;
    let r = sort_stable(points, point_in_order, Ghost(point_order()));
    proof {
        crate::laws::lemma_points_in_file_order(r@, s);
    }
    r
}

} // verus!
