//! Trusted boundary to `serde_json`, which parses the two dictionary
//! resources. Each parse is named by an uninterpreted function of the text,
//! so the loaders' contracts can tie the tables they build to the resource
//! they were given; walking the entries and building the lookup tables is
//! verified code in `dict`.

use vstd::prelude::*;

verus! {

/// What the syllable resource parses to: `Some` of the (Yi character,
/// pinyins) entries exactly when the text is a JSON object each of whose
/// values is a pinyin string or an array of pinyin strings; `None` for any
/// other text. A function of the text alone.
pub uninterp spec fn syl_entries_of(content: Seq<char>) -> Option<
    Seq<(Seq<char>, Seq<Seq<char>>)>,
>;

/// What the radical resource parses to: `Some` of the (radical, pinyin)
/// entries exactly when the text is a JSON object of strings; `None` for
/// any other text. A function of the text alone.
pub uninterp spec fn rad_entries_of(content: Seq<char>) -> Option<Seq<(Seq<char>, Seq<char>)>>;

/// Relies on `serde_json::from_str` and `serde_json::Value`: parses the
/// text as JSON and hands out the top-level object's entries, each value a
/// string taken as one pinyin or an array of strings taken as several;
/// `None` when the text is not such an object. The body only parses, tells
/// the `Value` variants apart, and collects the moved-out strings.
#[verifier::external_body]
pub(crate) fn parse_syllable_entries(content: &str) -> (r: Option<Vec<(String, Vec<String>)>>)
    ensures
        r matches Some(es) ==> syl_entries_of(content@) == Some(es.deep_view()),
        r is None ==> syl_entries_of(content@) is None,
{
    let parsed: serde_json::Value = serde_json::from_str(content).ok()?;
    let serde_json::Value::Object(map) = parsed else { return None };
    map.into_iter()
        .map(|(key, value)| match value {
            serde_json::Value::String(p) => Some((key, vec![p])),
            serde_json::Value::Array(items) => items
                .into_iter()
                .map(|i| if let serde_json::Value::String(p) = i { Some(p) } else { None })
                .collect::<Option<Vec<String>>>()
                .map(|ps| (key, ps)),
            _ => None,
        })
        .collect()
}

/// Relies on `serde_json::from_str` and `serde_json::Value`: parses the
/// text as JSON and hands out the top-level object's entries, each value a
/// pinyin string; `None` when the text is not an object of strings. The
/// body only parses, tells the `Value` variants apart, and collects the
/// moved-out strings.
#[verifier::external_body]
pub(crate) fn parse_radical_entries(content: &str) -> (r: Option<Vec<(String, String)>>)
    ensures
        r matches Some(es) ==> rad_entries_of(content@) == Some(es.deep_view()),
        r is None ==> rad_entries_of(content@) is None,
{
    let parsed: serde_json::Value = serde_json::from_str(content).ok()?;
    let serde_json::Value::Object(map) = parsed else { return None };
    map.into_iter()
        .map(|(key, value)| match value {
            serde_json::Value::String(p) => Some((key, p)),
            _ => None,
        })
        .collect()
}

} // verus!
