//! The property aggregator: turns what the two remote sources hand back
//! into one precedence-resolved property map.
//!
//! The remote calls themselves (paginated parameter queries, per-secret
//! fetches) are driven outside this crate; this module holds every
//! decision about what those responses mean: which page entries count,
//! how names are trimmed to local keys, how a secret's JSON payload is
//! read, which outcomes are tolerated, and how the two sources merge.

use crate::props::{merge_properties, merged_view, PropertyMap};
use vstd::prelude::*;
use vstd::string::{StrSliceExecFns, StringExecFns};

verus! {

/// A fatal failure while fetching from a remote source.
#[derive(Debug, PartialEq)]
pub struct FetchError {
    /// The prefix or secret identifier that was being fetched.
    pub subject: String,
    /// What the remote call reported.
    pub detail: String,
}

/// The mathematical form of a non-fatal aggregation diagnostic.
pub enum WarningInfo {
    NotJsonObject { secret: Seq<char> },
    MissingPayload { secret: Seq<char> },
    NonStringMember { secret: Seq<char>, member: Seq<char> },
}

/// A non-fatal diagnostic: the affected unit of data contributes nothing
/// and aggregation continues.
#[derive(Debug, PartialEq)]
pub enum AggregateWarning {
    /// The secret's payload is not a JSON object.
    NotJsonObject { secret: String },
    /// The secret has no string payload at all.
    MissingPayload { secret: String },
    /// A member of the secret's JSON object holds a non-string value.
    NonStringMember { secret: String, member: String },
}

impl View for AggregateWarning {
    type V = WarningInfo;

    open spec fn view(&self) -> WarningInfo {
        match *self {
            AggregateWarning::NotJsonObject { secret } => WarningInfo::NotJsonObject {
                secret: secret@,
            },
            AggregateWarning::MissingPayload { secret } => WarningInfo::MissingPayload {
                secret: secret@,
            },
            AggregateWarning::NonStringMember { secret, member } => WarningInfo::NonStringMember {
                secret: secret@,
                member: member@,
            },
        }
    }
}

/// Strips `prefix` and the following separator from the front of `s`,
/// counting by characters, as the parameter source's names are trimmed to
/// local keys.
pub fn trim_prefix<'a>(prefix: &str, s: &'a str) -> (r: &'a str)
    requires
        prefix@.len() + 1 <= s@.len(),
    ensures
        r@ == s@.skip(prefix@.len() + 1 as int),
{
    let plen = prefix.unicode_len();
    let slen = s.unicode_len();
    s.substring_char(plen + 1, slen)
}

/// Strips one trailing separator from a configured prefix, if present.
pub fn strip_trailing_separator(prefix: &str) -> (r: &str)
    ensures
        prefix@.len() > 0 && prefix@.last() == '/' ==> r@ == prefix@.drop_last(),
        !(prefix@.len() > 0 && prefix@.last() == '/') ==> r@ == prefix@,
{
    let n = prefix.unicode_len();
    if n > 0 && prefix.get_char(n - 1) == '/' {
        let r = prefix.substring_char(0, n - 1);
        proof {
            assert(prefix@.subrange(0, prefix@.len() - 1) =~= prefix@.drop_last());
        }
        r
    } else {
        prefix
    }
}

/// The path the parameter source is queried with: the base prefix with
/// exactly one trailing separator.
pub fn prefix_query_path(base: &str) -> (r: String)
    ensures
        r@ == base@ + "/"@,
{
    let s = base.to_owned();
    s.concat("/")
}

/// One entry of a parameter-source page, as the source reports it: either
/// field may be absent.
pub struct PageEntry {
    pub name: Option<String>,
    pub value: Option<String>,
}

impl View for PageEntry {
    type V = (Option<Seq<char>>, Option<Seq<char>>);

    open spec fn view(&self) -> (Option<Seq<char>>, Option<Seq<char>>) {
        (
            match self.name {
                Option::Some(ref n) => Option::Some(n@),
                Option::None => Option::None,
            },
            match self.value {
                Option::Some(ref v) => Option::Some(v@),
                Option::None => Option::None,
            },
        )
    }
}

/// The map after one page's entries are taken in, in order. An entry
/// missing its name or its value is dropped; so is one whose name is not
/// longer than the base prefix. The local key is the name with the prefix
/// and the following separator stripped, by character count.
pub open spec fn page_map(
    m: Map<Seq<char>, Seq<char>>,
    prefix: Seq<char>,
    entries: Seq<(Option<Seq<char>>, Option<Seq<char>>)>,
) -> Map<Seq<char>, Seq<char>>
    decreases entries.len(),
{
    if entries.len() == 0 {
        m
    } else {
        let prev = page_map(m, prefix, entries.drop_last());
        let e = entries.last();
        if e.0 is Some && e.1 is Some && e.0->0.len() > prefix.len() {
            prev.insert(e.0->0.skip(prefix.len() + 1 as int), e.1->0)
        } else {
            prev
        }
    }
}

/// Pages compose: taking in one page after another is taking in all their
/// entries in order, however the source cut them into pages.
pub proof fn lemma_pages_compose(
    m: Map<Seq<char>, Seq<char>>,
    prefix: Seq<char>,
    first_page: Seq<(Option<Seq<char>>, Option<Seq<char>>)>,
    second_page: Seq<(Option<Seq<char>>, Option<Seq<char>>)>,
)
    ensures
        page_map(page_map(m, prefix, first_page), prefix, second_page) == page_map(
            m,
            prefix,
            first_page + second_page,
        ),
    decreases second_page.len(),
{
    if second_page.len() == 0 {
        assert(first_page + second_page =~= first_page);
    } else {
        lemma_pages_compose(m, prefix, first_page, second_page.drop_last());
        assert((first_page + second_page).drop_last() =~= first_page + second_page.drop_last());
        assert((first_page + second_page).last() == second_page.last());
    }
}

/// Takes one page of parameter-source entries into the map. Later entries
/// win on key collision, so a later page or a later prefix overwrites an
/// earlier one.
pub fn apply_parameter_page(map: &mut PropertyMap, prefix: &str, entries: &Vec<PageEntry>)
    ensures
        final(map)@ == page_map(old(map)@, prefix@, entries@.map_values(|e: PageEntry| e@)),
{
    let ghost evs = entries@.map_values(|e: PageEntry| e@);
    let plen = prefix.unicode_len();
    let mut i: usize = 0;
    proof {
        assert(evs.take(0) =~= Seq::<(Option<Seq<char>>, Option<Seq<char>>)>::empty());
    }
    while i < entries.len()
        invariant
            i <= entries@.len(),
            evs == entries@.map_values(|e: PageEntry| e@),
            plen == prefix@.len(),
            map@ == page_map(old(map)@, prefix@, evs.take(i as int)),
        decreases entries@.len() - i,
    {
        proof {
            assert(evs.take(i + 1).drop_last() =~= evs.take(i as int));
            assert(evs.take(i + 1).last() == evs[i as int]);
        }
        match (&entries[i].name, &entries[i].value) {
            (Some(name), Some(value)) => {
                let nlen = name.as_str().unicode_len();
                if nlen > plen {
                    let key = trim_prefix(prefix, name.as_str());
                    map.insert(key.to_owned(), value.clone());
                }
            },
            _ => {},
        }
        i = i + 1;
    }
    proof {
        assert(evs.take(entries@.len() as int) =~= evs);
    }
}

/// One member of a secret's JSON object payload: a string member carries
/// its value, any other member only its name.
pub enum SecretMember {
    StringValue { name: String, value: String },
    NonString { name: String },
}

impl View for SecretMember {
    type V = (Seq<char>, Option<Seq<char>>);

    open spec fn view(&self) -> (Seq<char>, Option<Seq<char>>) {
        match *self {
            SecretMember::StringValue { name, value } => (name@, Option::Some(value@)),
            SecretMember::NonString { name } => (name@, Option::None),
        }
    }
}

/// A secret's payload after parsing: the members of a JSON object, or the
/// mark that the payload is no JSON object at all.
pub enum ParsedPayload {
    Object(Vec<SecretMember>),
    NotObject,
}

/// The members of the JSON object that the text denotes, in the parser's
/// member order, each with its value when that value is a string; `None`
/// when the text is not a JSON object.
pub uninterp spec fn json_object_members(s: Seq<char>) -> Option<
    Seq<(Seq<char>, Option<Seq<char>>)>,
>;

/// Relies on serde_json::from_str: the payload text parses to a JSON
/// object or it does not, and the object's members come back in
/// serde_json's map order, a function of the text alone.
#[verifier::external_body]
fn parse_secret_payload(payload: &str) -> (r: ParsedPayload)
    ensures
        match r {
            ParsedPayload::Object(ms) => json_object_members(payload@) == Option::Some(
                ms@.map_values(|m: SecretMember| m@),
            ),
            ParsedPayload::NotObject => json_object_members(payload@) is None,
        },
{
    match serde_json::from_str::<serde_json::Value>(payload) {
        Ok(serde_json::Value::Object(object)) => ParsedPayload::Object(
            object
                .into_iter()
                .map(|(name, v)| match v {
                    serde_json::Value::String(value) => SecretMember::StringValue { name, value },
                    _ => SecretMember::NonString { name },
                })
                .collect(),
        ),
        _ => ParsedPayload::NotObject,
    }
}

/// The map after a JSON object's members are taken in, in order: each
/// string member becomes a property, other members contribute nothing.
pub open spec fn members_map(
    m: Map<Seq<char>, Seq<char>>,
    members: Seq<(Seq<char>, Option<Seq<char>>)>,
) -> Map<Seq<char>, Seq<char>>
    decreases members.len(),
{
    if members.len() == 0 {
        m
    } else {
        let prev = members_map(m, members.drop_last());
        match members.last().1 {
            Option::Some(v) => prev.insert(members.last().0, v),
            Option::None => prev,
        }
    }
}

/// The diagnostics for a JSON object's members, in order: one warning per
/// non-string member.
pub open spec fn members_warnings(
    secret: Seq<char>,
    members: Seq<(Seq<char>, Option<Seq<char>>)>,
) -> Seq<WarningInfo>
    decreases members.len(),
{
    if members.len() == 0 {
        Seq::empty()
    } else {
        let prev = members_warnings(secret, members.drop_last());
        match members.last().1 {
            Option::Some(_) => prev,
            Option::None => prev.push(
                WarningInfo::NonStringMember { secret, member: members.last().0 },
            ),
        }
    }
}

/// Takes a parsed secret payload's members into the map: string members
/// become properties, every other member is reported and skipped.
pub fn apply_secret_members(
    map: &mut PropertyMap,
    secret: &str,
    members: Vec<SecretMember>,
) -> (warnings: Vec<AggregateWarning>)
    ensures
        final(map)@ == members_map(old(map)@, members@.map_values(|m: SecretMember| m@)),
        warnings@.map_values(|w: AggregateWarning| w@) == members_warnings(
            secret@,
            members@.map_values(|m: SecretMember| m@),
        ),
{
    let ghost mvs = members@.map_values(|m: SecretMember| m@);
    let mut warnings: Vec<AggregateWarning> = Vec::new();
    let mut i: usize = 0;
    proof {
        assert(mvs.take(0) =~= Seq::<(Seq<char>, Option<Seq<char>>)>::empty());
        assert(warnings@.map_values(|w: AggregateWarning| w@) =~= Seq::<WarningInfo>::empty());
    }
    while i < members.len()
        invariant
            i <= members@.len(),
            mvs == members@.map_values(|m: SecretMember| m@),
            map@ == members_map(old(map)@, mvs.take(i as int)),
            warnings@.map_values(|w: AggregateWarning| w@) == members_warnings(
                secret@,
                mvs.take(i as int),
            ),
        decreases members@.len() - i,
    {
        proof {
            assert(mvs.take(i + 1).drop_last() =~= mvs.take(i as int));
            assert(mvs.take(i + 1).last() == mvs[i as int]);
        }
        let ghost warnings_before = warnings@.map_values(|w: AggregateWarning| w@);
        match &members[i] {
            SecretMember::StringValue { name, value } => {
                map.insert(name.clone(), value.clone());
            },
            SecretMember::NonString { name } => {
                warnings.push(
                    AggregateWarning::NonStringMember {
                        secret: secret.to_owned(),
                        member: name.clone(),
                    },
                );
                proof {
                    assert(warnings@.map_values(|w: AggregateWarning| w@) =~= warnings_before.push(
                        WarningInfo::NonStringMember { secret: secret@, member: mvs[i as int].0 },
                    ));
                }
            },
        }
        i = i + 1;
    }
    proof {
        assert(mvs.take(members@.len() as int) =~= mvs);
    }
    warnings
}

/// What one fetch from the secrets source produced: a response whose
/// payload may be absent, a tolerated missing secret, or a fatal failure.
pub enum SecretFetchOutcome {
    Retrieved { payload: Option<String> },
    NotFound,
    Failed { detail: String },
}

/// Takes one secret's fetch outcome into the map.
///
/// A missing secret is tolerated: it neither aborts aggregation nor
/// changes the map. Any other failure is fatal and carries the secret's
/// identifier. A payload that is absent or no JSON object is reported and
/// contributes nothing; a JSON object contributes its string members.
pub fn apply_secret_outcome(
    map: &mut PropertyMap,
    secret: &str,
    outcome: SecretFetchOutcome,
) -> (r: Result<Vec<AggregateWarning>, FetchError>)
    ensures
        match outcome {
            SecretFetchOutcome::Failed { detail } => {
                &&& r matches Err(e) && e.subject@ == secret@ && e.detail@ == detail@
                &&& final(map)@ == old(map)@
            },
            SecretFetchOutcome::NotFound => {
                &&& r matches Ok(w) && w@.len() == 0
                &&& final(map)@ == old(map)@
            },
            SecretFetchOutcome::Retrieved { payload: Option::None } => {
                &&& r matches Ok(w) && w@.map_values(|x: AggregateWarning| x@) == seq![
                    WarningInfo::MissingPayload { secret: secret@ },
                ]
                &&& final(map)@ == old(map)@
            },
            SecretFetchOutcome::Retrieved { payload: Option::Some(p) } => {
                match json_object_members(p@) {
                    Option::None => {
                        &&& r matches Ok(w) && w@.map_values(|x: AggregateWarning| x@) == seq![
                            WarningInfo::NotJsonObject { secret: secret@ },
                        ]
                        &&& final(map)@ == old(map)@
                    },
                    Option::Some(ms) => {
                        &&& r matches Ok(w) && w@.map_values(|x: AggregateWarning| x@)
                            == members_warnings(secret@, ms)
                        &&& final(map)@ == members_map(old(map)@, ms)
                    },
                }
            },
        },
{
    match outcome {
        SecretFetchOutcome::Failed { detail } => Err(
            FetchError { subject: secret.to_owned(), detail },
        ),
        SecretFetchOutcome::NotFound => Ok(Vec::new()),
        SecretFetchOutcome::Retrieved { payload: None } => {
            let mut w: Vec<AggregateWarning> = Vec::new();
            w.push(AggregateWarning::MissingPayload { secret: secret.to_owned() });
            proof {
                assert(w@.map_values(|x: AggregateWarning| x@) =~= seq![
                    WarningInfo::MissingPayload { secret: secret@ },
                ]);
            }
            Ok(w)
        },
        SecretFetchOutcome::Retrieved { payload: Some(p) } => {
            match parse_secret_payload(p.as_str()) {
                ParsedPayload::NotObject => {
                    let mut w: Vec<AggregateWarning> = Vec::new();
                    w.push(AggregateWarning::NotJsonObject { secret: secret.to_owned() });
                    proof {
                        assert(w@.map_values(|x: AggregateWarning| x@) =~= seq![
                            WarningInfo::NotJsonObject { secret: secret@ },
                        ]);
                    }
                    Ok(w)
                },
                ParsedPayload::Object(ms) => Ok(apply_secret_members(map, secret, ms)),
            }
        },
    }
}

/// Joins the two sources' results once both are complete: on success the
/// merged map, the secrets source winning on key collision; on failure
/// the fatal error, a parameter-source failure taking reporting priority
/// over a secrets-source one.
pub fn combine_fetch_results(
    params: Result<PropertyMap, FetchError>,
    secrets: Result<PropertyMap, FetchError>,
) -> (r: Result<PropertyMap, FetchError>)
    ensures
        match (params, secrets) {
            (Result::Ok(p), Result::Ok(s)) => r matches Ok(m) && m@ == p@.union_prefer_right(s@),
            (Result::Err(e), _) => r matches Err(f) && f == e,
            (Result::Ok(_), Result::Err(e)) => r matches Err(f) && f == e,
        },
{
    match (params, secrets) {
        (Ok(p), Ok(s)) => {
            let ghost pv = p@;
            let ghost sv = s@;
            let mut sources: Vec<PropertyMap> = Vec::new();
            sources.push(p);
            sources.push(s);
            let ghost ms = sources@;
            let merged = merge_properties(sources);
            proof {
                assert(ms.len() == 2);
                assert(ms[0]@ == pv);
                assert(ms.last()@ == sv);
                let one = ms.drop_last();
                assert(one.drop_last() =~= Seq::<PropertyMap>::empty());
                assert(one.last() == ms[0]);
                assert(merged_view(one) == merged_view(Seq::<PropertyMap>::empty())
                    .union_prefer_right(pv));
                assert(Map::<Seq<char>, Seq<char>>::empty().union_prefer_right(pv) =~= pv);
                assert(merged_view(ms) == pv.union_prefer_right(sv));
            }
            Ok(merged)
        },
        (Err(e), _) => Err(e),
        (Ok(_), Err(e)) => Err(e),
    }
}

} // verus!
