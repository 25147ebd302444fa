use vstd::prelude::*;
use vstd::string::*;
use crate::text::{
    ends_with_text, is_prefix, is_suffix, lower_case, same_text, split_on, split_text,
    starts_with_text, strip_suffix_or_keep, texts, to_lower, to_upper, upper_case, without_suffix,
};

verus! {

/// The extension of the monitoring files.
pub open spec fn json_ext() -> Seq<char> {
    seq!['.', 'j', 's', 'o', 'n']
}

/// The environment name given to a file whose name has no second part.
pub open spec fn unknown_name() -> Seq<char> {
    seq!['U', 'N', 'K', 'N', 'O', 'W', 'N']
}

/// The word that the sixth part of a history file name holds.
pub open spec fn health_word() -> Seq<char> {
    seq!['h', 'e', 'a', 'l', 't', 'h']
}

/// How every history file name ends, in lower case.
pub open spec fn history_suffix() -> Seq<char> {
    seq!['_', 'h', 'e', 'a', 'l', 't', 'h', '.', 'j', 's', 'o', 'n']
}

/// The parts of a file name without its ".json" extension, split at '_'.
pub open spec fn name_parts(filename: Seq<char>) -> Seq<Seq<char>> {
    split_on(without_suffix(filename, json_ext()), '_')
}

/// The customer and the environment that a file name such as "ACME_prd_latest.json"
/// names: the first part, and the second part in upper case ("UNKNOWN" without one).
pub open spec fn customer_env_of(filename: Seq<char>) -> (Seq<char>, Seq<char>) {
    let parts = name_parts(filename);
    (parts[0], upper_case(if parts.len() > 1 { parts[1] } else { unknown_name() }))
}

/// Customer, server group, month, year and time of a history file name
/// "customer_group_month_year_hhmm_health.json"; `None` where it has fewer than six parts
/// or its sixth part is not "health" in lower case.
pub open spec fn history_parts_of(filename: Seq<char>) -> Option<
    (Seq<char>, Seq<char>, Seq<char>, Seq<char>, Seq<char>),
> {
    let parts = name_parts(filename);
    if parts.len() < 6 || lower_case(parts[5]) != health_word() {
        None
    } else {
        Some((parts[0], parts[1], parts[2], parts[3], parts[4]))
    }
}

/// The name of the history file of customer `c`, server group `g`, month `m`, year `y`
/// and time `h`: "c_g_m_y_h_health.json".
pub open spec fn history_file_name(
    c: Seq<char>,
    g: Seq<char>,
    m: Seq<char>,
    y: Seq<char>,
    h: Seq<char>,
) -> Seq<char> {
    c + seq!['_'] + g + seq!['_'] + m + seq!['_'] + y + seq!['_'] + h + history_suffix()
}

/// The characters of five strings.
pub open spec fn view5(t: (String, String, String, String, String)) -> (
    Seq<char>,
    Seq<char>,
    Seq<char>,
    Seq<char>,
    Seq<char>,
) {
    (t.0@, t.1@, t.2@, t.3@, t.4@)
}

/// The label of a history point: "month year hhmm".
pub open spec fn history_label(month: Seq<char>, year: Seq<char>, hhmm: Seq<char>) -> Seq<char> {
    month + seq![' '] + year + seq![' '] + hhmm
}

/// Whether a file belongs to the history of a customer's server group: its name in lower
/// case begins with "customer_group_" in lower case and ends with "_health.json".
pub open spec fn is_history_file_of(
    filename: Seq<char>,
    customer: Seq<char>,
    servergroup: Seq<char>,
) -> bool {
    let lower = lower_case(filename);
    let prefix = lower_case(customer) + seq!['_'] + lower_case(servergroup) + seq!['_'];
    is_prefix(prefix, lower) && is_suffix(history_suffix(), lower)
}

/// The file name without its ".json" extension, split at '_'.
fn parts_of(filename: &str) -> (r: Vec<String>)
    ensures
        texts(r@) == name_parts(filename@),
        r.len() >= 1,
{
    let ext = ".json";
    proof {
        reveal_strlit(".json");
        assert(ext@ =~= json_ext());
    }
    let base = strip_suffix_or_keep(filename, ext);
    split_text(base, '_')
}

/// Customer and environment name of a file name such as "ACME_prd_latest.json".
pub fn parse_customer_env(filename: &str) -> (r: (String, String))
    ensures
        (r.0@, r.1@) == customer_env_of(filename@),
{
    let parts = parts_of(filename);
    assert(texts(parts@)[0] == parts@[0]@);
    let customer = parts[0].clone();
    let env = if parts.len() > 1 {
        assert(texts(parts@)[1] == parts@[1]@);
        to_upper(parts[1].as_str())
    } else {
        let unknown = "UNKNOWN";
        proof {
            reveal_strlit("UNKNOWN");
            assert(unknown@ =~= unknown_name());
        }
        to_upper(unknown)
    };
    (customer, env)
}

/// Customer, server group, month, year and time of a history file name, or `None`.
pub fn parse_history_filename(filename: &str) -> (r: Option<(String, String, String, String, String)>)
    ensures
        match r {
            Some(t) => history_parts_of(filename@) == Some(view5(t)),
            None => history_parts_of(filename@) is None,
        },
{
    let parts = parts_of(filename);
    if parts.len() < 6 {
        return None;
    }
    let health = "health";
    proof {
        reveal_strlit("health");
        assert(health@ =~= health_word());
        assert(texts(parts@)[5] == parts@[5]@);
    }
    let word = to_lower(parts[5].as_str());
    if !same_text(word.as_str(), health) {
        return None;
    }
    proof {
        assert(texts(parts@)[0] == parts@[0]@);
        assert(texts(parts@)[1] == parts@[1]@);
        assert(texts(parts@)[2] == parts@[2]@);
        assert(texts(parts@)[3] == parts@[3]@);
        assert(texts(parts@)[4] == parts@[4]@);
    }
    Some((parts[0].clone(), parts[1].clone(), parts[2].clone(), parts[3].clone(), parts[4].clone()))
}

/// The label of a history point: "month year hhmm".
pub fn format_history_label(month: &str, year: &str, hhmm: &str) -> (r: String)
    ensures
        r@ == history_label(month@, year@, hhmm@),
{
    let space = " ";
    proof {
        reveal_strlit(" ");
        assert(space@ =~= seq![' ']);
    }
    let r = String::from_str(month).concat(space).concat(year).concat(space).concat(hhmm);
    assert(r@ =~= history_label(month@, year@, hhmm@));
    r
}

/// Whether a file belongs to the history of a customer's server group.
pub fn matches_history_file(filename: &str, customer: &str, servergroup: &str) -> (r: bool)
    ensures
        r == is_history_file_of(filename@, customer@, servergroup@),
        r <==> {
            let lf = lower_case(filename@);
            let lc = lower_case(customer@);
            let lg = lower_case(servergroup@);
            let n: int = lc.len() as int + 1 + lg.len() as int;
            &&& lf.len() > n
            &&& lf.take(lc.len() as int) == lc
            &&& lf[lc.len() as int] == '_'
            &&& lf.subrange(lc.len() as int + 1, n) == lg
            &&& lf[n] == '_'
            &&& lf.len() >= 12
            &&& lf.skip(lf.len() - 12) == seq!['_', 'h', 'e', 'a', 'l', 't', 'h', '.', 'j', 's', 'o', 'n']
        },
{
    proof {
        crate::laws::lemma_history_file_shape(filename@, customer@, servergroup@);
    }
    let lower = to_lower(filename);
    let under = "_";
    let suffix = "_health.json";
    proof {
        reveal_strlit("_");
        reveal_strlit("_health.json");
        assert(under@ =~= seq!['_']);
        assert(suffix@ =~= history_suffix());
    }
    let c = to_lower(customer);
    let g = to_lower(servergroup);
    let prefix = c.concat(under).concat(g.as_str()).concat(under);
    assert(prefix@ =~= lower_case(customer@) + seq!['_'] + lower_case(servergroup@) + seq!['_']);
    starts_with_text(lower.as_str(), prefix.as_str()) && ends_with_text(lower.as_str(), suffix)
}

} // verus!
