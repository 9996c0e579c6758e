//! The entity declarations in the preamble of the source document.
use vstd::prelude::*;

use regex::bytes::Regex;

verus! {

#[verifier::external_type_specification]
#[verifier::external_body]
pub struct ExRegexError(regex::Error);

/// Whether `pattern` compiles as a regular expression.
pub uninterp spec fn pattern_compiles(pattern: Seq<char>) -> bool;

/// For each match of `pattern` in `text`, in order, the bytes of its first group where that
/// group took part in the match.
pub uninterp spec fn first_groups_of(pattern: Seq<char>, text: Seq<u8>) -> Seq<Option<Seq<u8>>>;

/// The views of a list of optional byte strings.
pub open spec fn group_views(g: Seq<Option<Vec<u8>>>) -> Seq<Option<Seq<u8>>> {
    g.map_values(|o: Option<Vec<u8>>| match o {
        Some(v) => Some(v@),
        None => None,
    })
}

/// Relies on `regex::bytes::Regex::new`, which compiles the pattern or says why it does not
/// (depending on the pattern alone), and on `Regex::captures_iter` with `Captures::get`,
/// which give the first group of each match in order (depending on pattern and text alone).
#[verifier::external_body]
fn first_groups(pattern: &str, text: &[u8]) -> (r: Result<Vec<Option<Vec<u8>>>, regex::Error>)
    ensures
        r is Ok <==> pattern_compiles(pattern@),
        r matches Ok(g) ==> group_views(g@) == first_groups_of(pattern@, text@),
{
    Regex::new(pattern).map(
        |re| re.captures_iter(text).map(|c| c.get(1).map(|m| m.as_bytes().to_vec())).collect(),
    )
}

/// How an entity is declared: `<!ENTITY name "replacement text">`.
pub open spec fn entity_pattern() -> Seq<char> {
    "<!ENTITY\\s+([^ \\t\\r\\n]+)\\s+\"([^\"]*)\"\\s*>"@
}

/// Each name that `groups` holds, in order, paired with itself.
pub open spec fn named_pairs(groups: Seq<Option<Seq<u8>>>) -> Seq<(Seq<u8>, Seq<u8>)>
    decreases groups.len(),
{
    if groups.len() == 0 {
        Seq::empty()
    } else {
        match groups.last() {
            Some(n) => named_pairs(groups.drop_last()).push((n, n)),
            None => named_pairs(groups.drop_last()),
        }
    }
}

/// The views of a list of pairs of byte strings.
pub open spec fn pair_views(v: Seq<(Vec<u8>, Vec<u8>)>) -> Seq<(Seq<u8>, Seq<u8>)> {
    v.map_values(|p: (Vec<u8>, Vec<u8>)| (p.0@, p.1@))
}

/// The entity table of a document type declaration: each declared entity name, in order,
/// mapped to itself, since the dictionary shows the abbreviations that the entities name.
pub fn entity_table(doctype: &[u8]) -> (r: Result<Vec<(Vec<u8>, Vec<u8>)>, regex::Error>)
    ensures
        r is Ok <==> pattern_compiles(entity_pattern()),
        r matches Ok(v) ==> pair_views(v@) == named_pairs(
            first_groups_of(entity_pattern(), doctype@),
        ),
{
    let names = match first_groups("<!ENTITY\\s+([^ \\t\\r\\n]+)\\s+\"([^\"]*)\"\\s*>", doctype) {
        Ok(g) => g,
        Err(e) => { return Err(e); },
    };
    let ghost g = group_views(names@);
    let mut table: Vec<(Vec<u8>, Vec<u8>)> = Vec::new();
    let mut k: usize = 0;
    while k < names.len()
        invariant
            g == group_views(names@),
            k <= names@.len(),
            pair_views(table@) == named_pairs(g.subrange(0, k as int)),
        decreases names@.len() - k,
    {
        let ghost before = pair_views(table@);
        proof {
            assert(g.subrange(0, k as int + 1).drop_last() =~= g.subrange(0, k as int));
        }
        if let Some(name) = &names[k] {
            let a = name.clone();
            let b = name.clone();
            proof {
                assert(a@ =~= name@);
                assert(b@ =~= name@);
            }
            table.push((a, b));
            assert(pair_views(table@) =~= before.push((name@, name@)));
        }
        k = k + 1;
    }
    assert(g.subrange(0, names@.len() as int) =~= g);
    Ok(table)
}

} // verus!
