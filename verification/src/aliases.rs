//! Aliases: `WHERE NS = TXT_NON_STD_REMARK` declares `NS` as an alias of the
//! real characteristic, and later conditions refer to `NS`.

use vstd::prelude::*;

use crate::names::NameMap;

verus! {

/// The shape of an alias declaration: `WHERE <alias> = <identifier>`.
pub const ALIAS_PATTERN: &'static str =
    r"(?i)\bWHERE\s+([A-Za-z_][A-Za-z0-9_]*)\s*=\s*([A-Za-z_][A-Za-z0-9_]*)";

/// The texts of a list of pairs.
pub open spec fn pair_views(v: Seq<(String, String)>) -> Seq<(Seq<char>, Seq<char>)> {
    Seq::new(v.len(), |i: int| (v[i].0@, v[i].1@))
}

/// What the first two groups of a pattern capture in a text, match by match;
/// `None` where the pattern is no regular expression.
pub uninterp spec fn captured_pairs(
    pattern: Seq<char>,
    text: Seq<char>,
) -> Option<Seq<(Seq<char>, Seq<char>)>>;

/// `Regex::new` and `Regex::captures_iter`: for each match, from left to right
/// and without overlap, what the first two groups captured, empty where a group
/// took no part. It depends on the pattern and the text alone. The pattern for
/// aliases is a regular expression.
#[verifier::external_body]
fn capture_pairs(pattern: &str, text: &str) -> (res: Option<Vec<(String, String)>>)
    ensures
        match res {
            Some(pairs) => captured_pairs(pattern@, text@) == Some(pair_views(pairs@)),
            None => captured_pairs(pattern@, text@) is None,
        },
        pattern@ == ALIAS_PATTERN@ ==> res is Some,
{
    let re = regex::Regex::new(pattern).ok()?;
    let pairs = re.captures_iter(text).map(|c| {
        let alias = c.get(1).map_or("", |m| m.as_str());
        let target = c.get(2).map_or("", |m| m.as_str());
        (alias.to_owned(), target.to_owned())
    });
    Some(pairs.collect())
}

/// The aliases that a list of declarations gives; a later one replaces an
/// earlier one.
pub open spec fn alias_map(pairs: Seq<(Seq<char>, Seq<char>)>) -> Map<Seq<char>, Seq<char>>
    decreases pairs.len(),
{
    if pairs.len() == 0 {
        Map::empty()
    } else {
        alias_map(pairs.drop_last()).insert(pairs.last().0, pairs.last().1)
    }
}

/// The texts of a map to strings.
pub open spec fn texts(map: Map<Seq<char>, String>) -> Map<Seq<char>, Seq<char>> {
    Map::new(|k: Seq<char>| map.contains_key(k), |k: Seq<char>| map[k]@)
}

/// The aliases that `text` declares.
pub open spec fn aliases_in(text: Seq<char>) -> Map<Seq<char>, Seq<char>> {
    alias_map(captured_pairs(ALIAS_PATTERN@, text)->0)
}

/// The aliases that a list of declarations gives; a later one replaces an
/// earlier one.
pub fn aliases_from(pairs: &Vec<(String, String)>) -> (res: NameMap<String>)
    ensures
        texts(res@) == alias_map(pair_views(pairs@)),
{
    let ghost all = pair_views(pairs@);
    let mut res: NameMap<String> = NameMap::new();
    let mut i: usize = 0;
    assert(all.take(0) =~= Seq::<(Seq<char>, Seq<char>)>::empty());
    assert(texts(res@) =~= Map::<Seq<char>, Seq<char>>::empty());
    while i < pairs.len()
        invariant
            i <= pairs@.len(),
            all == pair_views(pairs@),
            texts(res@) == alias_map(all.take(i as int)),
        decreases pairs@.len() - i,
    {
        let pair = &pairs[i];
        let ghost before = res@;
        res.insert(pair.0.clone(), pair.1.clone());
        proof {
            assert(all.take(i + 1).drop_last() =~= all.take(i as int));
            assert(texts(res@) =~= texts(before).insert(pair.0@, pair.1@));
        }
        i += 1;
    }
    assert(all.take(i as int) =~= all);
    res
}

/// The aliases that `text` declares.
pub fn collect_aliases(text: &str) -> (res: NameMap<String>)
    ensures
        texts(res@) == aliases_in(text@),
{
    match capture_pairs(ALIAS_PATTERN, text) {
        Some(pairs) => aliases_from(&pairs),
        None => NameMap::new(),
    }
}

/// The last declaration of an alias counts.
pub proof fn law_last_alias_counts(
    pairs: Seq<(Seq<char>, Seq<char>)>,
    alias: Seq<char>,
    target: Seq<char>,
)
    ensures
        alias_map(pairs.push((alias, target))).contains_key(alias),
        alias_map(pairs.push((alias, target)))[alias] == target,
        forall|k: Seq<char>|
            k != alias ==> (#[trigger] alias_map(pairs.push((alias, target))).contains_key(k)
                <==> alias_map(pairs).contains_key(k)),
{
    assert(pairs.push((alias, target)).drop_last() =~= pairs);
}

/// Whether declaration number `k` is the last one of an alias.
pub open spec fn is_last_declaration(
    pairs: Seq<(Seq<char>, Seq<char>)>,
    alias: Seq<char>,
    k: int,
) -> bool {
    &&& 0 <= k < pairs.len() && pairs[k].0 == alias
    &&& forall|j: int| k < j < pairs.len() ==> (#[trigger] pairs[j]).0 != alias
}

/// A name is an alias if and only if it is declared, and it stands for what its
/// last declaration says.
pub proof fn law_aliases(pairs: Seq<(Seq<char>, Seq<char>)>, alias: Seq<char>)
    ensures
        alias_map(pairs).contains_key(alias) <==> exists|k: int|
            0 <= k < pairs.len() && (#[trigger] pairs[k]).0 == alias,
        forall|k: int| #[trigger]
            is_last_declaration(pairs, alias, k) ==> alias_map(pairs)[alias] == pairs[k].1,
    decreases pairs.len(),
{
    if pairs.len() > 0 {
        let init = pairs.drop_last();
        law_aliases(init, alias);
        assert(pairs[pairs.len() - 1] == pairs.last());
        if exists|k: int| 0 <= k < init.len() && (#[trigger] init[k]).0 == alias {
            let k = choose|k: int| 0 <= k < init.len() && (#[trigger] init[k]).0 == alias;
            assert(pairs[k] == init[k]);
        }
        if exists|k: int| 0 <= k < pairs.len() && (#[trigger] pairs[k]).0 == alias {
            let k = choose|k: int| 0 <= k < pairs.len() && (#[trigger] pairs[k]).0 == alias;
            if k < init.len() {
                assert(init[k] == pairs[k]);
            }
        }
        assert forall|k: int| #[trigger] is_last_declaration(pairs, alias, k) implies alias_map(
            pairs,
        )[alias] == pairs[k].1 by {
            if k < init.len() {
                assert(pairs[pairs.len() - 1].0 != alias);
                assert forall|j: int| k < j < init.len() implies (#[trigger] init[j]).0
                    != alias by {
                    assert(pairs[j] == init[j]);
                }
                assert(is_last_declaration(init, alias, k));
            }
        }
    }
}

/// The aliases of a text are those that its declarations give, as the pattern
/// finds them; the last declaration of each counts.
pub proof fn law_aliases_of_text(
    text: Seq<char>,
    pairs: Seq<(Seq<char>, Seq<char>)>,
    alias: Seq<char>,
)
    requires
        captured_pairs(
            r"(?i)\bWHERE\s+([A-Za-z_][A-Za-z0-9_]*)\s*=\s*([A-Za-z_][A-Za-z0-9_]*)"@,
            text,
        ) == Some(pairs),
    ensures
        aliases_in(text).contains_key(alias) <==> exists|k: int|
            0 <= k < pairs.len() && (#[trigger] pairs[k]).0 == alias,
        forall|k: int| #[trigger]
            is_last_declaration(pairs, alias, k) ==> aliases_in(text)[alias] == pairs[k].1,
{
    law_aliases(pairs, alias);
}

} // verus!
