//! Configuration data for one generation project, and the blacklist of
//! disallowed trait pairings.
//!
//! A blacklist document is a list of lines, each naming a subject trait
//! and the partners it excludes.  At build time the lines are expanded
//! into a symmetric-lookup table mapping each excluded partner to its
//! subject, case-folded unless trait names are declared case sensitive.
//! A combination is rejected when it contains both ends of any pairing.

use vstd::prelude::*;

use crate::errors::EngineError;

verus! {

/// Sub-collection request: a name and how many combinations it gets.
#[derive(Debug, Clone)]
pub struct SetConfig {
    pub name: String,
    pub amount: usize,
}

/// A rule forcing a layer to its no-trait entry: it matches when some
/// other layer's resolved trait satisfies the predicate.  An empty
/// `traits` list means "any visual trait of the named layer"; an empty
/// `layer` means "a trait with one of these names on any layer".
#[derive(Debug, Clone)]
pub struct IfTrait {
    pub layer: String,
    pub traits: Vec<String>,
}

/// One layer of the catalog: its directory name, an optional display
/// name used as the trait label, an optional weight for a synthetic
/// no-trait entry, and the exclusion rules that can force that entry.
#[derive(Debug, Clone)]
pub struct LayerConfig {
    pub name: String,
    pub display_name: Option<String>,
    pub none: Option<u32>,
    pub exclude_if_traits: Option<Vec<IfTrait>>,
}

/// One blacklist line: a subject trait and the partners it excludes.
#[derive(Debug, Clone)]
pub struct BlackListLine {
    pub trait_name: String,
    pub excludes: Vec<String>,
}

/// The blacklist document: a list of lines.
#[derive(Debug, Clone)]
pub struct BlackList {
    pub list: Vec<BlackListLine>,
}

/// The expanded blacklist: pairs of (excluded partner, subject trait),
/// case-folded at build time unless names are case sensitive.
#[derive(Debug, Clone)]
pub struct BlacklistTable {
    pub pairs: Vec<(String, String)>,
}

/// The case folding applied to every trait name the blacklist touches,
/// a function of the characters alone; the engine never states what the
/// folded form of a given name is.
pub uninterp spec fn lower_of(s: Seq<char>) -> Seq<char>;

/// Relies on `str::to_lowercase`: the result depends on the characters
/// alone.
#[verifier::external_body]
fn lowercase(s: &str) -> (r: String)
    ensures
        r@ == lower_of(s@),
{
    s.to_lowercase()
}

/// A trait name as the blacklist sees it: itself when names are case
/// sensitive, its lower-case folding otherwise.
pub open spec fn folded(case_sen: bool, s: Seq<char>) -> Seq<char> {
    if case_sen {
        s
    } else {
        lower_of(s)
    }
}

fn fold_name(s: &String, case_sen: bool) -> (r: String)
    ensures
        r@ == folded(case_sen, s@),
{
    if case_sen {
        s.clone()
    } else {
        lowercase(s.as_str())
    }
}

/// The (partner, subject) pairs one blacklist line expands to.
pub open spec fn line_pairs(line: BlackListLine, case_sen: bool) -> Seq<(Seq<char>, Seq<char>)> {
    line.excludes@.map_values(
        |e: String| (folded(case_sen, e@), folded(case_sen, line.trait_name@)),
    )
}

/// All (partner, subject) pairs of a blacklist document, in document
/// order.
pub open spec fn bl_pairs(bl: BlackList, case_sen: bool) -> Seq<(Seq<char>, Seq<char>)> {
    bl.list@.map_values(|line: BlackListLine| line_pairs(line, case_sen)).flatten()
}

/// The partner keys of all pairs, in document order.
pub open spec fn bl_keys(bl: BlackList, case_sen: bool) -> Seq<Seq<char>> {
    bl_pairs(bl, case_sen).map_values(|p: (Seq<char>, Seq<char>)| p.0)
}

impl BlacklistTable {
    /// The table as a sequence of (partner, subject) name pairs.
    pub open spec fn pairs_view(self) -> Seq<(Seq<char>, Seq<char>)> {
        self.pairs@.map_values(|p: (String, String)| (p.0@, p.1@))
    }
}

/// Whether a combination's trait-name collection trips the blacklist:
/// some pair's partner and subject are both present (after folding).
pub open spec fn rejected_spec(
    bl: Option<BlacklistTable>,
    names: Seq<Seq<char>>,
    case_sen: bool,
) -> bool {
    match bl {
        Option::None => false,
        Option::Some(t) => exists|p: int, i: int, j: int|
            0 <= p < t.pairs@.len() && 0 <= i < names.len() && 0 <= j < names.len()
                && t.pairs@[p].0@ == folded(case_sen, names[i])
                && t.pairs@[p].1@ == folded(case_sen, names[j]),
    }
}

pub(crate) fn contains_string(v: &Vec<String>, s: &String) -> (r: bool)
    ensures
        r == exists|i: int| 0 <= i < v@.len() && v@[i]@ == s@,
{
    let mut i: usize = 0;
    while i < v.len()
        invariant
            i <= v@.len(),
            forall|k: int| 0 <= k < i ==> v@[k]@ != s@,
        decreases v@.len() - i,
    {
        if v[i].eq(s) {
            return true;
        }
        i += 1;
    }
    false
}

/// Everything one generation project needs: identity, target amount,
/// failure tolerance, catalog location, layer list, disabled traits and
/// the expanded blacklist shared by the whole run.
#[derive(Debug, Clone)]
pub struct AppConfig {
    pub policy_id: Option<String>,
    pub name: String,
    pub display_name: Option<String>,
    pub amount: usize,
    pub tolerance: usize,
    pub path: String,
    pub off_traits: Option<Vec<String>>,
    pub layers: Vec<LayerConfig>,
    pub config_name: String,
    pub bl: Option<BlacklistTable>,
}

impl AppConfig {
    /// Expands a blacklist document into the lookup table, mapping each
    /// excluded partner to its subject trait, folded unless names are
    /// case sensitive.  Fails with `AmbiguousBlacklistEntry`, naming the
    /// partner key, exactly when the same partner key is claimed twice.
    pub fn bl(bl_config: BlackList, bl_case_sen: bool) -> (r: Result<BlacklistTable, EngineError>)
        ensures
            r is Ok <==> bl_keys(bl_config, bl_case_sen).no_duplicates(),
            (r matches Ok(t) ==> t.pairs_view() == bl_pairs(bl_config, bl_case_sen)),
            (r matches Err(e) ==> e matches EngineError::AmbiguousBlacklistEntry(k)
                && exists|i: int, j: int|
                    0 <= i < j < bl_keys(bl_config, bl_case_sen).len()
                    && bl_keys(bl_config, bl_case_sen)[i] == bl_keys(bl_config, bl_case_sen)[j]
                    && bl_keys(bl_config, bl_case_sen)[j] == k@),
    {
        let ghost cs = bl_case_sen;
        let ghost lp_fn = |line: BlackListLine| line_pairs(line, cs);
        let ghost mapped = bl_config.list@.map_values(lp_fn);
        let ghost target = bl_pairs(bl_config, cs);
        proof {
            assert(target == mapped.flatten());
        }
        let mut pairs: Vec<(String, String)> = Vec::new();
        proof {
            assert(mapped.take(0) =~= Seq::<Seq<(Seq<char>, Seq<char>)>>::empty());
            assert(Seq::<Seq<(Seq<char>, Seq<char>)>>::empty().flatten()
                =~= Seq::<(Seq<char>, Seq<char>)>::empty());
            assert(pairs@.map_values(|p: (String, String)| (p.0@, p.1@))
                =~= Seq::<(Seq<char>, Seq<char>)>::empty());
        }
        let mut li: usize = 0;
        while li < bl_config.list.len()
            invariant
                li <= bl_config.list@.len(),
                cs == bl_case_sen,
                lp_fn == (|line: BlackListLine| line_pairs(line, cs)),
                mapped == bl_config.list@.map_values(lp_fn),
                pairs@.map_values(|p: (String, String)| (p.0@, p.1@))
                    =~= mapped.take(li as int).flatten(),
            decreases bl_config.list@.len() - li,
        {
            let ghost line_spec = bl_config.list@[li as int];
            let ghost before_line = mapped.take(li as int).flatten();
            let mut ei: usize = 0;
            let excludes_len = bl_config.list[li].excludes.len();
            proof {
                assert(line_pairs(line_spec, cs).take(0) =~= Seq::<(Seq<char>, Seq<char>)>::empty());
            }
            while ei < excludes_len
                invariant
                    li < bl_config.list@.len(),
                    ei <= line_spec.excludes@.len(),
                    cs == bl_case_sen,
                    line_spec == bl_config.list@[li as int],
                    excludes_len == line_spec.excludes@.len(),
                    pairs@.map_values(|p: (String, String)| (p.0@, p.1@))
                        =~= before_line + line_pairs(line_spec, cs).take(ei as int),
                decreases excludes_len - ei,
            {
                let ghost before = pairs@;
                let key = fold_name(&bl_config.list[li].excludes[ei], bl_case_sen);
                let subj = fold_name(&bl_config.list[li].trait_name, bl_case_sen);
                pairs.push((key, subj));
                proof {
                    let lp = line_pairs(line_spec, cs);
                    assert(lp[ei as int]
                        == (folded(cs, line_spec.excludes@[ei as int]@),
                            folded(cs, line_spec.trait_name@)));
                    assert(lp.take(ei as int + 1) =~= lp.take(ei as int).push(lp[ei as int]));
                    assert(pairs@.map_values(|p: (String, String)| (p.0@, p.1@))
                        =~= before.map_values(|p: (String, String)| (p.0@, p.1@))
                            .push((key@, subj@)));
                }
                ei += 1;
            }
            proof {
                let lp = line_pairs(line_spec, cs);
                assert(lp.take(ei as int) =~= lp);
                assert(mapped[li as int] == lp);
                assert(mapped.take(li as int + 1) =~= mapped.take(li as int).push(mapped[li as int]));
                mapped.take(li as int).lemma_flatten_push(mapped[li as int]);
            }
            li += 1;
        }
        proof {
            assert(mapped.take(li as int) =~= mapped);
        }
        let ghost keys = bl_keys(bl_config, cs);
        proof {
            assert(keys.len() == target.len());
            assert(forall|a: int| 0 <= a < target.len() ==> keys[a] == #[trigger] target[a].0);
            assert(forall|a: int| 0 <= a < target.len()
                ==> #[trigger] pairs@[a].0@ == target[a].0);
        }
        let n = pairs.len();
        let mut j: usize = 0;
        while j < n
            invariant
                j <= n,
                n == pairs@.len(),
                n == keys.len(),
                keys == bl_keys(bl_config, cs),
                cs == bl_case_sen,
                forall|a: int| 0 <= a < n ==> #[trigger] pairs@[a].0@ == keys[a],
                pairs@.map_values(|p: (String, String)| (p.0@, p.1@)) == bl_pairs(bl_config, cs),
                forall|a: int, b: int| 0 <= a < b < j ==> keys[a] != keys[b],
            decreases n - j,
        {
            let mut i: usize = 0;
            while i < j
                invariant
                    i <= j < n,
                    n == pairs@.len(),
                    n == keys.len(),
                    keys == bl_keys(bl_config, cs),
                    cs == bl_case_sen,
                    forall|a: int| 0 <= a < n ==> #[trigger] pairs@[a].0@ == keys[a],
                    pairs@.map_values(|p: (String, String)| (p.0@, p.1@))
                        == bl_pairs(bl_config, cs),
                    forall|a: int, b: int| 0 <= a < b < j ==> keys[a] != keys[b],
                    forall|a: int| 0 <= a < i ==> keys[a] != keys[j as int],
                decreases j - i,
            {
                if pairs[i].0.eq(&pairs[j].0) {
                    return Err(EngineError::AmbiguousBlacklistEntry(pairs[j].0.clone()));
                }
                i += 1;
            }
            j += 1;
        }
        Ok(BlacklistTable { pairs })
    }

    /// Tests a combination's trait names against the blacklist: rejected
    /// exactly when some table pair's partner and subject are both
    /// present, after the same case folding the table was built with.
    /// A missing blacklist rejects nothing.
    pub fn is_bl(&self, traits: &Vec<String>, bl_case_sen: bool) -> (r: bool)
        ensures
            r == rejected_spec(self.bl, crate::fingerprint::label_views(traits@), bl_case_sen),
    {
        let ghost names = crate::fingerprint::label_views(traits@);
        match &self.bl {
            Option::None => false,
            Option::Some(t) => {
                let mut folded_traits: Vec<String> = Vec::new();
                let mut i: usize = 0;
                while i < traits.len()
                    invariant
                        i <= traits@.len(),
                        names == crate::fingerprint::label_views(traits@),
                        folded_traits@.len() == i,
                        forall|k: int| 0 <= k < i
                            ==> #[trigger] folded_traits@[k]@ == folded(bl_case_sen, names[k]),
                    decreases traits@.len() - i,
                {
                    let f = fold_name(&traits[i], bl_case_sen);
                    folded_traits.push(f);
                    i += 1;
                }
                let mut p: usize = 0;
                while p < t.pairs.len()
                    invariant
                        p <= t.pairs@.len(),
                        names == crate::fingerprint::label_views(traits@),
                        names.len() == traits@.len(),
                        folded_traits@.len() == names.len(),
                        forall|k: int| 0 <= k < names.len()
                            ==> #[trigger] folded_traits@[k]@ == folded(bl_case_sen, names[k]),
                        self.bl matches Option::Some(tt) && tt == *t,
                        forall|q: int, a: int, b: int|
                            #![trigger t.pairs@[q], folded(bl_case_sen, names[a]), folded(bl_case_sen, names[b])]
                            0 <= q < p && 0 <= a < names.len() && 0 <= b < names.len()
                                ==> !(t.pairs@[q].0@ == folded(bl_case_sen, names[a])
                                    && t.pairs@[q].1@ == folded(bl_case_sen, names[b])),
                    decreases t.pairs@.len() - p,
                {
                    let key_present = contains_string(&folded_traits, &t.pairs[p].0);
                    let subj_present = contains_string(&folded_traits, &t.pairs[p].1);
                    if key_present && subj_present {
                        return true;
                    }
                    proof {
                        assert forall|a: int, b: int|
                            0 <= a < names.len() && 0 <= b < names.len()
                            implies !(t.pairs@[p as int].0@ == folded(bl_case_sen, names[a])
                                && t.pairs@[p as int].1@ == folded(bl_case_sen, names[b])) by {
                            assert(folded_traits@[a]@ == folded(bl_case_sen, names[a]));
                            assert(folded_traits@[b]@ == folded(bl_case_sen, names[b]));
                        }
                    }
                    p += 1;
                }
                false
            },
        }
    }
}

} // verus!
